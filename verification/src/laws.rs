//! What holds of encoding and decoding together.

use crate::alphabet::{
    all_symbols, is_symbol, lemma_symbols_of_values, lemma_values_of_symbols, values_of,
};
use crate::bits::{
    bits_to_digits, digits_fit, digits_to_bits, lemma_bits_to_digits_fit,
    lemma_bits_to_digits_inverts, lemma_digits_of_whole_groups, lemma_digits_to_bits_inverts,
    lemma_digits_to_bits_len, zeros,
};
use crate::codec::{decoded, encoded, first_bad_character, padding, strip_whitespace};
use crate::error::CodecError;
use crate::text::white_space;
use vstd::arithmetic::power2::lemma2_to64;
use vstd::prelude::*;
use vstd::utf8::{
    decode_utf8, encode_utf8, encode_utf8_decode_utf8, encode_utf8_valid_utf8, valid_utf8,
};

verus! {

/// No symbol is whitespace.
pub proof fn lemma_symbol_not_white(c: char)
    requires
        is_symbol(c),
    ensures
        !white_space(c),
{
}

/// A text of symbols has no whitespace to leave out and no bad character.
pub proof fn lemma_symbols_stay(text: Seq<char>)
    requires
        all_symbols(text),
    ensures
        strip_whitespace(text) == text,
        first_bad_character(text) is None,
    decreases text.len(),
{
    reveal(Seq::filter);
    if text.len() > 0 {
        lemma_symbols_stay(text.drop_last());
        lemma_symbol_not_white(text.last());
        assert(text.drop_last().push(text.last()) =~= text);
    }
}

/// The bits that an encoding spells: those of the bytes, and after them the
/// zeros that fill the last group. They come in whole groups of three, and
/// fewer than three of them lie behind the last whole byte.
pub proof fn lemma_encoded_bits(bytes: Seq<u8>)
    ensures
        all_symbols(encoded(bytes)),
        encoded(bytes).len() * 3 == 8 * bytes.len() + padding(8 * bytes.len(), 3),
        padding(8 * bytes.len(), 3) < 3,
        digits_to_bits(values_of(encoded(bytes)), 3) == digits_to_bits(bytes, 8) + zeros(
            padding(8 * bytes.len(), 3),
        ),
{
    let bits = digits_to_bits(bytes, 8);
    lemma_digits_to_bits_len(bytes, 8);
    let filled = bits + zeros(padding(bits.len(), 3));
    let values = bits_to_digits(filled, 3);
    lemma2_to64();
    lemma_bits_to_digits_fit(filled, 3);
    lemma_values_of_symbols(values);
    lemma_digits_to_bits_inverts(filled, 3);
    lemma_digits_to_bits_len(values, 3);
}

/// Decoding what encoding gave returns the bytes that were encoded, whatever
/// they are.
pub proof fn lemma_round_trip(bytes: Seq<u8>)
    ensures
        decoded(encoded(bytes)) == Ok::<Seq<u8>, CodecError>(bytes),
{
    let text = encoded(bytes);
    let fill = zeros(padding(8 * bytes.len(), 3));
    lemma_encoded_bits(bytes);
    lemma_symbols_stay(text);
    lemma_digits_to_bits_len(bytes, 8);
    lemma2_to64();
    lemma_bits_to_digits_inverts(bytes, 8, fill);
}

/// Decoding the encoding of a text returns the text: the bytes that come
/// back are the UTF-8 form of the text, and they spell it.
pub proof fn lemma_text_round_trip(text: Seq<char>)
    ensures
        decoded(encoded(encode_utf8(text))) == Ok::<Seq<u8>, CodecError>(encode_utf8(text)),
        valid_utf8(encode_utf8(text)),
        decode_utf8(encode_utf8(text)) == text,
{
    lemma_round_trip(encode_utf8(text));
    encode_utf8_valid_utf8(text);
    encode_utf8_decode_utf8(text);
}

/// A whitespace character put anywhere into a text changes nothing of what
/// the text decodes to, be it bytes or an error.
pub proof fn lemma_whitespace_ignored(text: Seq<char>, at: int, white: char)
    requires
        0 <= at <= text.len(),
        white_space(white),
    ensures
        decoded(text.insert(at, white)) == decoded(text),
{
    let keep = |c: char| !white_space(c);
    let front = text.take(at);
    let back = text.skip(at);
    reveal_with_fuel(Seq::filter, 2);
    assert(seq![white].drop_last() =~= Seq::<char>::empty());
    assert(seq![white].filter(keep) =~= Seq::<char>::empty());
    assert(text.insert(at, white) =~= (front + seq![white]) + back);
    assert(text =~= front + back);
    Seq::filter_distributes_over_add(front + seq![white], back, keep);
    Seq::filter_distributes_over_add(front, seq![white], keep);
    Seq::filter_distributes_over_add(front, back, keep);
    assert(front.filter(keep) + seq![white].filter(keep) =~= front.filter(keep));
}

/// The encoding of `n` bytes has `8 n / 3` symbols, rounded up.
pub proof fn lemma_encoded_len(bytes: Seq<u8>)
    ensures
        encoded(bytes).len() == (8 * bytes.len() + 2) / 3,
{
    lemma_encoded_bits(bytes);
}

/// The first `k` symbols of an encoding are rejected as too short where they
/// end inside a byte, that is, where three or more bits of theirs lie behind
/// the last whole byte.
pub proof fn lemma_truncation_rejected(bytes: Seq<u8>, k: int)
    requires
        0 <= k <= encoded(bytes).len(),
        (3 * k) % 8 >= 3,
    ensures
        decoded(encoded(bytes).take(k)) == Err::<Seq<u8>, CodecError>(CodecError::TooShort),
{
    let cut = encoded(bytes).take(k);
    lemma_encoded_bits(bytes);
    lemma_symbols_stay(cut);
    lemma_digits_to_bits_len(values_of(cut), 3);
}

/// A text is canonical where it is made of symbols alone, ends with a whole
/// byte or with the one or two bits that fill its last symbol, and has those
/// bits at zero.
pub open spec fn canonical(text: Seq<char>) -> bool {
    let bits = digits_to_bits(values_of(text), 3);
    let spare = bits.len() % 8;
    &&& all_symbols(text)
    &&& spare < 3
    &&& bits.skip(bits.len() - spare) == zeros(spare)
}

/// Encoding what decoding gave returns the text that was decoded on the
/// canonical texts, and on no others.
pub proof fn lemma_canonical_round_trip(text: Seq<char>)
    ensures
        canonical(text) <==> decoded(text) is Ok && encoded(decoded(text)->Ok_0) == text,
{
    lemma2_to64();
    if canonical(text) {
        let values = values_of(text);
        let bits = digits_to_bits(values, 3);
        let spare = bits.len() % 8;
        let whole = bits.take(bits.len() - spare);
        let bytes = bits_to_digits(bits, 8);
        lemma_symbols_stay(text);
        lemma_symbols_of_values(text);
        lemma_digits_to_bits_len(values, 3);
        lemma_digits_of_whole_groups(bits, 8);
        lemma_digits_to_bits_inverts(whole, 8);
        lemma_digits_to_bits_len(bytes, 8);
        assert(whole + zeros(spare) =~= bits);
        assert(digits_fit(values, 3));
        lemma_bits_to_digits_inverts(values, 3, Seq::empty());
        assert(bits + Seq::<bool>::empty() =~= bits);
    }
    if decoded(text) is Ok && encoded(decoded(text)->Ok_0) == text {
        let bytes = decoded(text)->Ok_0;
        let bits = digits_to_bits(bytes, 8);
        let fill = zeros(padding(8 * bytes.len(), 3));
        lemma_encoded_bits(bytes);
        lemma_digits_to_bits_len(bytes, 8);
        assert((bits + fill).skip(bits.len() as int) =~= fill);
    }
}

} // verus!
