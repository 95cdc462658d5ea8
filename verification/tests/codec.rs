use base8_codec::{decode, decode_bytes, encode, encode_bytes, CodecError};

fn assert_eq_reflexive(raw: &str, artr: &str) {
    assert_eq!(encode(raw), artr);
    assert_eq!(decode(artr).unwrap(), raw);
}

#[test]
fn test_encode_decode() {
    assert_eq_reflexive(
        "ありとろ",
        "。楽。楽楽か楽愛。楽。楽可愛可愛。楽。楽楽かし楽。楽。楽可愛可し",
    );
    assert_eq_reflexive("", "");
    assert_eq_reflexive("A", "愛楽愛");
    assert_eq_reflexive("AA", "愛楽愛た楽た");
    assert_eq_reflexive("AAA", "愛楽愛た楽し楽可");
}

#[test]
fn test_decode() {
    assert_eq!(decode("愛 楽 愛").unwrap(), "A");
}

#[test]
fn test_decode_error() {
    assert!(matches!(decode("。"), Err(CodecError::TooShort)));
    assert!(matches!(decode("あ"), Err(CodecError::BadCharacter('あ'))));
    assert!(matches!(decode("。。。"), Err(_)));
}

#[test]
fn empty_input_gives_empty_output() {
    assert_eq!(encode(""), "");
    assert_eq!(decode("").unwrap(), "");
    assert_eq!(encode_bytes(&[]), "");
    assert_eq!(decode_bytes("").unwrap(), Vec::<u8>::new());
    assert_eq!(decode(" \n\t\u{3000}").unwrap(), "");
}

#[test]
fn each_value_has_its_place_in_a_byte() {
    // 0b000_001_01, 0b0_011_100_1, 0b01_110_111
    assert_eq!(encode_bytes(&[0x05, 0x39, 0x77]), "楽可愛ったしか。");
    assert_eq!(decode_bytes("楽可愛ったしか。").unwrap(), vec![0x05, 0x39, 0x77]);
}

#[test]
fn last_group_is_filled_with_zeros() {
    // 0xff is 111 111 11, and the ninth bit is a zero
    assert_eq!(encode_bytes(&[0xff]), "。。か");
    // 0xff 0xff is 111 111 111 111 111 1, and two zeros follow
    assert_eq!(encode_bytes(&[0xff, 0xff]), "。。。。。た");
    assert_eq!(encode_bytes(&[0xff, 0xff, 0xff]), "。。。。。。。。");
    assert_eq!(encode_bytes(&[0x00]), "楽楽楽");
    assert_eq!(encode_bytes(&[0x01]), "楽楽愛");
}

#[test]
fn bits_behind_the_last_byte_are_dropped() {
    assert_eq!(decode_bytes("。。か").unwrap(), vec![0xff]);
    assert_eq!(decode_bytes("。。。").unwrap(), vec![0xff]);
    assert_eq!(decode_bytes("。。。。。た").unwrap(), vec![0xff, 0xff]);
    assert_eq!(decode_bytes("。。。。。。").unwrap(), vec![0xff, 0xff]);
    // 010 000 011: the byte is 0100 0001, and the ninth bit is not read
    assert_eq!(decode("愛楽っ").unwrap(), "A");
    assert_eq!(decode("愛楽可").unwrap(), "@");
}

#[test]
fn round_trip_of_every_byte_and_pair() {
    for a in 0..=255u8 {
        let one = [a];
        assert_eq!(decode_bytes(&encode_bytes(&one)).unwrap(), one);
        for b in 0..=255u8 {
            let two = [a, b];
            assert_eq!(decode_bytes(&encode_bytes(&two)).unwrap(), two);
        }
    }
}

#[test]
fn round_trip_of_longer_byte_strings() {
    let mut bytes: Vec<u8> = Vec::new();
    let mut state: u32 = 12345;
    for _ in 0..200 {
        assert_eq!(decode_bytes(&encode_bytes(&bytes)).unwrap(), bytes);
        state = state.wrapping_mul(1664525).wrapping_add(1013904223);
        bytes.push((state >> 24) as u8);
    }
}

#[test]
fn round_trip_of_text() {
    for text in ["A", "hello, world", "ありとろ", "愛楽愛", "a\u{10348}b", "\u{0}", " \n"] {
        assert_eq!(decode(&encode(text)).unwrap(), text);
    }
}

#[test]
fn text_is_encoded_by_its_utf8_bytes() {
    for text in ["", "A", "ありとろ", "a\u{10348}b"] {
        assert_eq!(encode(text), encode_bytes(text.as_bytes()));
    }
}

#[test]
fn encoded_length_is_eight_thirds_rounded_up() {
    let expected = [0usize, 3, 6, 8, 11, 14, 16, 19, 22, 24, 27];
    for (n, want) in expected.iter().enumerate() {
        let bytes = vec![0xa5u8; n];
        assert_eq!(encode_bytes(&bytes).chars().count(), *want);
        assert_eq!(*want, (8 * n + 2) / 3);
    }
    assert_eq!(encode("A").chars().count(), 3);
    assert_eq!(encode("AA").chars().count(), 6);
    assert_eq!(encode("AAA").chars().count(), 8);
}

#[test]
fn whitespace_anywhere_changes_nothing() {
    let plain = encode("AAA");
    let symbols: Vec<char> = plain.chars().collect();
    for white in [' ', '\t', '\n', '\r', '\u{b}', '\u{c}', '\u{85}', '\u{a0}', '\u{1680}',
        '\u{2000}', '\u{200a}', '\u{2028}', '\u{2029}', '\u{202f}', '\u{205f}', '\u{3000}']
    {
        for at in 0..=symbols.len() {
            let mut spaced = symbols.clone();
            spaced.insert(at, white);
            let spaced: String = spaced.into_iter().collect();
            assert_eq!(decode(&spaced).unwrap(), "AAA");
        }
    }
    assert_eq!(decode("  愛\n楽\t\t愛た 楽し楽\u{3000}可\r\n").unwrap(), "AAA");
    assert!(matches!(decode(" 。 "), Err(CodecError::TooShort)));
    assert!(matches!(decode(" あ "), Err(CodecError::BadCharacter('あ'))));
}

#[test]
fn whitespace_is_what_the_standard_library_says() {
    let listed = |c: char| {
        matches!(
            c as u32,
            0x09..=0x0d
                | 0x20
                | 0x85
                | 0xa0
                | 0x1680
                | 0x2000..=0x200a
                | 0x2028
                | 0x2029
                | 0x202f
                | 0x205f
                | 0x3000
        )
    };
    let mut buffer = String::new();
    for code in 0..=0x10ffffu32 {
        let Some(c) = char::from_u32(code) else {
            continue;
        };
        buffer.clear();
        buffer.push(c);
        match decode(&buffer) {
            Ok(text) => assert!(listed(c) && text.is_empty(), "{:?}", c),
            Err(CodecError::TooShort) => assert!(!listed(c) && "楽可愛ったしか。".contains(c)),
            Err(CodecError::BadCharacter(bad)) => {
                assert!(!listed(c) && !"楽可愛ったしか。".contains(c));
                assert_eq!(bad, c);
            }
            Err(CodecError::FromUtf8(_)) => panic!("{:?}", c),
        }
    }
}

#[test]
fn truncated_encodings_are_too_short() {
    let whole = encode("ありとろ");
    let symbols: Vec<char> = whole.chars().collect();
    assert_eq!(symbols.len(), 32);
    for k in 0..symbols.len() {
        let prefix: String = symbols[..k].iter().collect();
        let result = decode_bytes(&prefix);
        if (3 * k) % 8 >= 3 {
            assert!(matches!(result, Err(CodecError::TooShort)), "{}", k);
        } else {
            assert_eq!(result.unwrap(), "ありとろ".as_bytes()[..3 * k / 8]);
        }
    }
}

#[test]
fn legal_lengths_are_zero_three_and_six_in_eight() {
    for k in 0..40usize {
        let text = "楽".repeat(k);
        let result = decode_bytes(&text);
        if k % 8 == 0 || k % 8 == 3 || k % 8 == 6 {
            assert_eq!(result.unwrap(), vec![0u8; 3 * k / 8]);
        } else {
            assert!(matches!(result, Err(CodecError::TooShort)));
        }
    }
}

#[test]
fn first_bad_character_is_reported() {
    assert!(matches!(decode("。あ"), Err(CodecError::BadCharacter('あ'))));
    assert!(matches!(decode("。。。。あ"), Err(CodecError::BadCharacter('あ'))));
    assert!(matches!(decode("愛楽愛xy"), Err(CodecError::BadCharacter('x'))));
    assert!(matches!(decode("y 愛楽愛 x"), Err(CodecError::BadCharacter('y'))));
    assert!(matches!(decode_bytes("愛楽A"), Err(CodecError::BadCharacter('A'))));
    assert!(matches!(decode("。\u{200b}"), Err(CodecError::BadCharacter('\u{200b}'))));
}

#[test]
fn bytes_that_are_no_text_are_refused_as_text_only() {
    assert!(matches!(decode("。。。"), Err(CodecError::FromUtf8(_))));
    assert_eq!(decode_bytes("。。。").unwrap(), vec![0xff]);
    let text = encode_bytes(&[0xe3, 0x81]);
    assert!(matches!(decode(&text), Err(CodecError::FromUtf8(_))));
    assert_eq!(decode_bytes(&text).unwrap(), vec![0xe3, 0x81]);
    match decode(&text) {
        Err(CodecError::FromUtf8(error)) => assert_eq!(error.into_bytes(), vec![0xe3, 0x81]),
        other => panic!("{:?}", other),
    }
}

#[test]
fn utf8_error_becomes_a_codec_error() {
    let error = String::from_utf8(vec![0x80]).unwrap_err();
    match CodecError::from(error.clone()) {
        CodecError::FromUtf8(inner) => assert_eq!(inner, error),
        other => panic!("{:?}", other),
    }
}

#[test]
fn same_input_same_output() {
    assert_eq!(encode("determinism"), encode("determinism"));
    assert_eq!(decode("愛楽愛").unwrap(), decode("愛楽愛").unwrap());
    assert!(matches!(decode("。"), Err(CodecError::TooShort)));
    assert!(matches!(decode("。"), Err(CodecError::TooShort)));
}

#[test]
fn canonical_texts_are_the_ones_that_come_back() {
    for text in ["", "愛楽愛", "愛楽愛た楽た", "愛楽愛た楽し楽可", "。。か", "。。。。。た"] {
        assert_eq!(encode_bytes(&decode_bytes(text).unwrap()), text);
    }
    // spare bits that are not zero
    assert_eq!(encode_bytes(&decode_bytes("愛楽っ").unwrap()), "愛楽愛");
    assert_eq!(encode_bytes(&decode_bytes("。。。。。。").unwrap()), "。。。。。た");
    // whitespace
    assert_eq!(encode_bytes(&decode_bytes("愛 楽 愛").unwrap()), "愛楽愛");
}
