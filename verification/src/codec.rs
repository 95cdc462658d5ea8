//! The codec: bytes to symbols, three bits to the symbol, and back.

use crate::alphabet::{decode_char, encode_byte, is_symbol, symbols_of, values_of};
use crate::bit_queue::BitQueue;
use crate::bits::{
    bits_of, bits_to_digits, digits_fit, digits_to_bits, lemma_bits_of_len, lemma_bits_of_zero,
    lemma_bits_to_digits_inverts, lemma_digit_from_front, lemma_digits_to_bits_len,
    lemma_digits_to_bits_push, zeros,
};
use crate::error::CodecError;
use crate::text::white_space;
use vstd::arithmetic::div_mod::lemma_fundamental_div_mod_converse;
use vstd::arithmetic::power2::{lemma2_to64, pow2};
use vstd::prelude::*;
use vstd::std_specs::iter::IteratorSpec;
use vstd::utf8::{decode_utf8, encode_utf8, encode_utf8_decode_utf8, valid_utf8};

verus! {

broadcast use vstd::string::group_string_axioms;

/// How many bits a string of `len` bits lacks to the next multiple of
/// `width`.
pub open spec fn padding(len: nat, width: nat) -> nat {
    ((width - len % width) % (width as int)) as nat
}

/// The text of a byte string: its bits, most significant first, filled up
/// with zeros to whole groups of three, one symbol for each group.
pub open spec fn encoded(bytes: Seq<u8>) -> Seq<char> {
    let bits = digits_to_bits(bytes, 8);
    symbols_of(bits_to_digits(bits + zeros(padding(bits.len(), 3)), 3))
}

/// The text without its whitespace.
pub open spec fn strip_whitespace(text: Seq<char>) -> Seq<char> {
    text.filter(|c: char| !white_space(c))
}

/// The first character of `text` that is no symbol, if it has one.
pub open spec fn first_bad_character(text: Seq<char>) -> Option<char>
    decreases text.len(),
{
    if text.len() == 0 {
        None
    } else {
        match first_bad_character(text.drop_last()) {
            Some(c) => Some(c),
            None => if is_symbol(text.last()) {
                None
            } else {
                Some(text.last())
            },
        }
    }
}

/// The bytes that a text spells, or why it spells none. Whitespace is left
/// out first. What is left must be symbols: the first character that is none
/// is reported. The bits of the symbols are then cut into bytes from the
/// start. Fewer than three bits may be left over, which are dropped: with
/// three or more the last symbol would belong to no byte, and the text is too
/// short.
pub open spec fn decoded(text: Seq<char>) -> Result<Seq<u8>, CodecError> {
    let symbols = strip_whitespace(text);
    match first_bad_character(symbols) {
        Some(c) => Err(CodecError::BadCharacter(c)),
        None => {
            let bits = digits_to_bits(values_of(symbols), 3);
            if bits.len() % 8 < 3 {
                Ok(bits_to_digits(bits, 8))
            } else {
                Err(CodecError::TooShort)
            }
        },
    }
}

/// What one more character at the end of a text adds to the text without its
/// whitespace.
pub proof fn lemma_strip_whitespace_push(text: Seq<char>, c: char)
    ensures
        strip_whitespace(text.push(c)) == if white_space(c) {
            strip_whitespace(text)
        } else {
            strip_whitespace(text).push(c)
        },
{
    reveal(Seq::filter);
    assert(text.push(c).drop_last() =~= text);
}

/// The first bad character of two texts on end is that of the first text,
/// or, where it has none, that of the second.
pub proof fn lemma_first_bad_character_concat(front: Seq<char>, back: Seq<char>)
    ensures
        first_bad_character(front + back) == match first_bad_character(front) {
            Some(c) => Some(c),
            None => first_bad_character(back),
        },
    decreases back.len(),
{
    if back.len() == 0 {
        assert(front + back =~= front);
    } else {
        lemma_first_bad_character_concat(front, back.drop_last());
        assert((front + back).drop_last() =~= front + back.drop_last());
    }
}

/// A bad character among the first `k` characters of a text is the first of
/// the whole text, whitespace left out on both sides.
pub proof fn lemma_bad_character_in_prefix(text: Seq<char>, k: int)
    requires
        0 <= k <= text.len(),
        first_bad_character(strip_whitespace(text.take(k))) is Some,
    ensures
        first_bad_character(strip_whitespace(text)) == first_bad_character(strip_whitespace(text.take(k))),
{
    let keep = |c: char| !white_space(c);
    Seq::filter_distributes_over_add(text.take(k), text.skip(k), keep);
    assert(text.take(k) + text.skip(k) =~= text);
    lemma_first_bad_character_concat(strip_whitespace(text.take(k)), strip_whitespace(text.skip(k)));
}

/// Encodes a byte string. The text has a symbol for every three bits of the
/// input, and one more where bits are left over.
pub fn encode_bytes(input: &[u8]) -> (text: String)
    ensures
        text@ == encoded(input@),
        text@.len() == (8 * input@.len() + 2) / 3,
{
    let mut text = String::new();
    let mut queue = BitQueue::new();
    let ghost mut values: Seq<u8> = Seq::empty();
    let mut i: usize = 0;
    proof {
        lemma2_to64();
        assert(digits_to_bits(values, 3) + queue@ =~= digits_to_bits(input@.take(0), 8));
    }
    while i < input.len()
        invariant
            i <= input.len(),
            queue@.len() < 3,
            pow2(3) == 8,
            text@ == symbols_of(values),
            digits_fit(values, 3),
            digits_to_bits(values, 3) + queue@ == digits_to_bits(input@.take(i as int), 8),
        decreases input.len() - i,
    {
        let ghost before = queue@;
        queue.push(input[i], 8);
        proof {
            assert(input@.take(i + 1) =~= input@.take(i as int).push(input@[i as int]));
            lemma_digits_to_bits_push(input@.take(i as int), input@[i as int], 8);
            lemma_bits_of_len(input@[i as int] as nat, 8);
            assert(digits_to_bits(values, 3) + (before + bits_of(input@[i as int] as nat, 8))
                =~= (digits_to_bits(values, 3) + before) + bits_of(input@[i as int] as nat, 8));
        }
        while queue.len() >= 3
            invariant
                i < input.len(),
                pow2(3) == 8,
                text@ == symbols_of(values),
                digits_fit(values, 3),
                digits_to_bits(values, 3) + queue@ == digits_to_bits(input@.take(i + 1), 8),
            decreases queue@.len(),
        {
            proof {
                lemma_digit_from_front(values, 3, queue@);
            }
            let value = queue.pop(3);
            text.push(encode_byte(value));
            proof {
                values = values.push(value);
                assert(text@ =~= symbols_of(values));
            }
        }
        i += 1;
    }
    proof {
        assert(input@.take(i as int) =~= input@);
        lemma_digits_to_bits_len(values, 3);
        lemma_digits_to_bits_len(input@, 8);
        lemma_fundamental_div_mod_converse(
            (8 * input@.len()) as int,
            3,
            values.len() as int,
            queue@.len() as int,
        );
    }
    let waiting = queue.len();
    if waiting > 0 {
        let ghost before = queue@;
        queue.push(0, 3 - waiting);
        proof {
            lemma_bits_of_zero((3 - waiting) as nat);
            lemma_bits_of_len(0, (3 - waiting) as nat);
            lemma_digit_from_front(values, 3, queue@);
            assert(digits_to_bits(values, 3) + (before + zeros((3 - waiting) as nat))
                =~= (digits_to_bits(values, 3) + before) + zeros((3 - waiting) as nat));
        }
        let value = queue.pop(3);
        text.push(encode_byte(value));
        proof {
            values = values.push(value);
            assert(text@ =~= symbols_of(values));
        }
    }
    proof {
        let bits = digits_to_bits(input@, 8);
        let filled = bits + zeros(padding(bits.len(), 3));
        assert(digits_to_bits(values, 3) + queue@ =~= filled);
        lemma_bits_to_digits_inverts(values, 3, queue@);
    }
    text
}

/// Encodes a text: the bytes of its UTF-8 form.
pub fn encode(input: &str) -> (text: String)
    ensures
        text@ == encoded(encode_utf8(input@)),
        text@.len() == (8 * encode_utf8(input@).len() + 2) / 3,
{
    encode_bytes(input.as_bytes())
}

/// Decodes a text to the bytes that it spells. Whitespace is passed over. A
/// character that is neither whitespace nor a symbol gives `BadCharacter`,
/// the first such character in it; a text of symbols that ends inside a byte
/// gives `TooShort`.
pub fn decode_bytes(input: &str) -> (bytes: Result<Vec<u8>, CodecError>)
    ensures
        match decoded(input@) {
            Ok(spelled) => bytes is Ok && bytes->Ok_0@ == spelled,
            Err(reason) => bytes == Err::<Vec<u8>, CodecError>(reason),
        },
{
    let mut bytes: Vec<u8> = Vec::new();
    let mut queue = BitQueue::new();
    let mut chars = input.chars();
    let ghost mut seen: int = 0;
    proof {
        lemma2_to64();
        reveal(Seq::filter);
        assert(input@.take(0) =~= Seq::<char>::empty());
        assert(input@.skip(0) =~= input@);
        assert(digits_to_bits(bytes@, 8) + queue@ =~= digits_to_bits(
            values_of(strip_whitespace(input@.take(0))),
            3,
        ));
    }
    loop
        invariant
            0 <= seen <= input@.len(),
            chars.remaining() == input@.skip(seen),
            pow2(3) == 8,
            first_bad_character(strip_whitespace(input@.take(seen))) is None,
            queue@.len() < 8,
            digits_to_bits(bytes@, 8) + queue@ == digits_to_bits(
                values_of(strip_whitespace(input@.take(seen))),
                3,
            ),
        ensures
            seen == input@.len(),
        decreases input@.len() - seen,
    {
        match chars.next() {
            None => {
                break;
            },
            Some(c) => {
                let ghost prefix = input@.take(seen);
                proof {
                    assert(input@.take(seen + 1) =~= prefix.push(c));
                    assert(input@.skip(seen).drop_first() =~= input@.skip(seen + 1));
                    lemma_strip_whitespace_push(prefix, c);
                    seen = seen + 1;
                }
                if !c.is_whitespace() {
                    let ghost symbols = strip_whitespace(prefix);
                    proof {
                        assert(symbols.push(c).drop_last() =~= symbols);
                    }
                    match decode_char(c) {
                        Err(reason) => {
                            proof {
                                lemma_bad_character_in_prefix(input@, seen);
                            }
                            return Err(reason);
                        },
                        Ok(value) => {
                            let ghost before = queue@;
                            queue.push(value, 3);
                            proof {
                                assert(values_of(symbols.push(c)) =~= values_of(symbols).push(
                                    value,
                                ));
                                lemma_digits_to_bits_push(values_of(symbols), value, 3);
                                lemma_bits_of_len(value as nat, 3);
                                assert(digits_to_bits(bytes@, 8) + (before + bits_of(
                                    value as nat,
                                    3,
                                )) =~= (digits_to_bits(bytes@, 8) + before) + bits_of(
                                    value as nat,
                                    3,
                                ));
                            }
                            if queue.len() >= 8 {
                                proof {
                                    lemma_digit_from_front(bytes@, 8, queue@);
                                }
                                let byte = queue.pop(8);
                                bytes.push(byte);
                            }
                        },
                    }
                }
            },
        }
    }
    proof {
        assert(input@.take(seen) =~= input@);
        lemma_digits_to_bits_len(bytes@, 8);
        lemma_fundamental_div_mod_converse(
            (bytes@.len() * 8 + queue@.len()) as int,
            8,
            bytes@.len() as int,
            queue@.len() as int,
        );
    }
    if queue.len() >= 3 {
        Err(CodecError::TooShort)
    } else {
        proof {
            assert(digits_fit(bytes@, 8));
            lemma_bits_to_digits_inverts(bytes@, 8, queue@);
        }
        Ok(bytes)
    }
}

/// Decodes a text to the text whose UTF-8 form it spells. It fails where
/// `decode_bytes` fails, and with `FromUtf8` where the bytes are not UTF-8.
pub fn decode(input: &str) -> (text: Result<String, CodecError>)
    ensures
        match decoded(input@) {
            Ok(spelled) => if valid_utf8(spelled) {
                text is Ok && text->Ok_0@ == decode_utf8(spelled)
            } else {
                text matches Err(CodecError::FromUtf8(_))
            },
            Err(reason) => text == Err::<String, CodecError>(reason),
        },
{
    match decode_bytes(input) {
        Ok(bytes) => match String::from_utf8(bytes) {
            Ok(text) => {
                proof {
                    encode_utf8_decode_utf8(text@);
                }
                Ok(text)
            },
            Err(error) => Err(CodecError::from(error)),
        },
        Err(reason) => Err(reason),
    }
}

} // verus!
