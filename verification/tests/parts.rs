use base8_codec::bit_queue::CAPACITY;
use base8_codec::{decode_char, encode_byte, BitQueue, CodecError};

const SYMBOLS: [char; 8] = ['楽', '可', '愛', 'っ', 'た', 'し', 'か', '。'];

#[test]
fn symbol_goes_by_the_low_three_bits() {
    for input in 0..=255u8 {
        assert_eq!(encode_byte(input), SYMBOLS[(input % 8) as usize]);
    }
    assert_eq!(encode_byte(0), '楽');
    assert_eq!(encode_byte(7), '。');
    assert_eq!(encode_byte(0xfa), '愛');
}

#[test]
fn symbols_and_values_are_a_bijection() {
    for value in 0..8u8 {
        assert_eq!(decode_char(encode_byte(value)).unwrap(), value);
    }
    for (value, symbol) in SYMBOLS.iter().enumerate() {
        assert_eq!(decode_char(*symbol).unwrap() as usize, value);
        assert_eq!(encode_byte(value as u8), *symbol);
    }
}

#[test]
fn other_characters_have_no_value() {
    for c in ['あ', 'A', ' ', '\u{3000}', '\u{3001}', '0', '７', '\u{0}'] {
        match decode_char(c) {
            Err(CodecError::BadCharacter(bad)) => assert_eq!(bad, c),
            other => panic!("{:?}", other),
        }
    }
}

#[test]
fn queue_starts_empty() {
    let queue = BitQueue::new();
    assert_eq!(queue.len(), 0);
}

#[test]
fn queue_gives_bits_back_in_order() {
    let mut queue = BitQueue::new();
    queue.push(0b1011_0010, 8);
    assert_eq!(queue.len(), 8);
    assert_eq!(queue.pop(3), 0b101);
    assert_eq!(queue.pop(3), 0b100);
    assert_eq!(queue.len(), 2);
    queue.push(0b1, 1);
    assert_eq!(queue.pop(3), 0b101);
    assert_eq!(queue.len(), 0);
}

#[test]
fn queue_regroups_threes_into_eights() {
    let mut queue = BitQueue::new();
    queue.push(2, 3);
    queue.push(0, 3);
    queue.push(2, 3);
    assert_eq!(queue.len(), 9);
    assert_eq!(queue.pop(8), 0x41);
    assert_eq!(queue.len(), 1);
    assert_eq!(queue.pop(1), 0);
}

#[test]
fn queue_takes_only_the_low_bits() {
    let mut queue = BitQueue::new();
    queue.push(0xff, 3);
    assert_eq!(queue.len(), 3);
    queue.push(0xf0, 4);
    assert_eq!(queue.len(), 7);
    assert_eq!(queue.pop(7), 0b111_0000);
    queue.push(0xff, 0);
    assert_eq!(queue.len(), 0);
    assert_eq!(queue.pop(0), 0);
}

#[test]
fn queue_holds_up_to_its_capacity() {
    assert_eq!(CAPACITY, 16);
    let mut queue = BitQueue::new();
    queue.push(0xab, 8);
    queue.push(0xcd, 8);
    assert_eq!(queue.len(), CAPACITY);
    assert_eq!(queue.pop(4), 0xa);
    assert_eq!(queue.pop(8), 0xbc);
    assert_eq!(queue.pop(4), 0xd);
    assert_eq!(queue.len(), 0);
}
