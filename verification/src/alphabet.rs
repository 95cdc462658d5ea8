//! The eight symbols and the three-bit values that they stand for.

use crate::error::CodecError;
use vstd::prelude::*;

verus! {

/// The symbols in the order of their values, 0 to 7.
pub open spec fn alphabet() -> Seq<char> {
    seq!['楽', '可', '愛', 'っ', 'た', 'し', 'か', '。']
}

/// The symbol for the low three bits of `value`.
pub open spec fn symbol_of(value: u8) -> char {
    alphabet()[value as int % 8]
}

/// The value that `c` stands for, if it is a symbol.
pub open spec fn symbol_value(c: char) -> Option<u8> {
    if c == '楽' {
        Some(0u8)
    } else if c == '可' {
        Some(1u8)
    } else if c == '愛' {
        Some(2u8)
    } else if c == 'っ' {
        Some(3u8)
    } else if c == 'た' {
        Some(4u8)
    } else if c == 'し' {
        Some(5u8)
    } else if c == 'か' {
        Some(6u8)
    } else if c == '。' {
        Some(7u8)
    } else {
        None
    }
}

/// Whether `c` is one of the eight symbols.
pub open spec fn is_symbol(c: char) -> bool {
    symbol_value(c) is Some
}

/// The symbols of a row of values.
pub open spec fn symbols_of(values: Seq<u8>) -> Seq<char> {
    values.map_values(|value: u8| symbol_of(value))
}

/// Every character of the text is a symbol.
pub open spec fn all_symbols(text: Seq<char>) -> bool {
    forall|i: int| 0 <= i < text.len() ==> is_symbol(#[trigger] text[i])
}

/// The values of a row of symbols. A character that is no symbol counts as 0.
pub open spec fn values_of(symbols: Seq<char>) -> Seq<u8> {
    symbols.map_values(
        |c: char|
            match symbol_value(c) {
                Some(value) => value,
                None => 0u8,
            },
    )
}

/// Each three-bit value has its own symbol, and that symbol stands for it.
pub proof fn lemma_symbol_value_of_symbol(value: u8)
    ensures
        symbol_value(symbol_of(value)) == Some((value % 8) as u8),
{
}

/// A symbol stands for a three-bit value, and is the symbol of that value.
pub proof fn lemma_symbol_of_symbol_value(c: char)
    requires
        is_symbol(c),
    ensures
        symbol_value(c)->Some_0 < 8,
        symbol_of(symbol_value(c)->Some_0) == c,
{
}

/// Reading the symbols of three-bit values gives the values back.
pub proof fn lemma_values_of_symbols(values: Seq<u8>)
    requires
        forall|i: int| 0 <= i < values.len() ==> values[i] < 8,
    ensures
        all_symbols(symbols_of(values)),
        values_of(symbols_of(values)) == values,
{
    assert forall|i: int| 0 <= i < values.len() implies is_symbol(
        #[trigger] symbols_of(values)[i],
    ) && values_of(symbols_of(values))[i] == values[i] by {
        lemma_symbol_value_of_symbol(values[i]);
    }
    assert(values_of(symbols_of(values)) =~= values);
}

/// Writing the symbols for the values of a row of symbols gives the row
/// back, and the values are three-bit values.
pub proof fn lemma_symbols_of_values(symbols: Seq<char>)
    requires
        all_symbols(symbols),
    ensures
        symbols_of(values_of(symbols)) == symbols,
        forall|i: int| 0 <= i < symbols.len() ==> #[trigger] values_of(symbols)[i] < 8,
{
    assert forall|i: int| 0 <= i < symbols.len() implies #[trigger] values_of(symbols)[i] < 8
        && symbols_of(values_of(symbols))[i] == symbols[i] by {
        lemma_symbol_of_symbol_value(symbols[i]);
    }
    assert(symbols_of(values_of(symbols)) =~= symbols);
}

/// The symbol for the low three bits of `input`; the other bits are not read.
pub fn encode_byte(input: u8) -> (symbol: char)
    ensures
        symbol == symbol_of(input),
{
    let low: u8 = input & 7;
    assert(low == input % 8) by (bit_vector)
        requires
            low == input & 7,
    ;
    match low {
        0 => '楽',
        1 => '可',
        2 => '愛',
        3 => 'っ',
        4 => 'た',
        5 => 'し',
        6 => 'か',
        _ => '。',
    }
}

/// The value of the symbol `input`, or `BadCharacter` with `input` in it
/// where `input` is no symbol.
pub fn decode_char(input: char) -> (value: Result<u8, CodecError>)
    ensures
        value == match symbol_value(input) {
            Some(v) => Ok::<u8, CodecError>(v),
            None => Err::<u8, CodecError>(CodecError::BadCharacter(input)),
        },
{
    match input {
        '楽' => Ok(0),
        '可' => Ok(1),
        '愛' => Ok(2),
        'っ' => Ok(3),
        'た' => Ok(4),
        'し' => Ok(5),
        'か' => Ok(6),
        '。' => Ok(7),
        _ => Err(CodecError::BadCharacter(input)),
    }
}

} // verus!
