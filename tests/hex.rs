use stacks_marf::hex::{hex_bytes, to_hex, HexError, Pairable};

#[test]
fn decodes_mixed_case_pairs() {
    assert_eq!(hex_bytes("0aFF10"), Ok(vec![0x0a, 0xff, 0x10]));
}

#[test]
fn decodes_empty_string() {
    assert_eq!(hex_bytes(""), Ok(vec![]));
}

#[test]
fn odd_length_is_bad_length() {
    assert_eq!(hex_bytes("abc"), Err(HexError::BadLength(3)));
}

#[test]
fn bad_first_digit_of_pair() {
    assert_eq!(hex_bytes("00zz"), Err(HexError::BadCharacter('z')));
}

#[test]
fn bad_second_digit_of_pair() {
    assert_eq!(hex_bytes("0g"), Err(HexError::BadCharacter('g')));
}

#[test]
fn unpaired_bad_character_is_bad_length() {
    assert_eq!(hex_bytes("00z"), Err(HexError::BadLength(3)));
}

#[test]
fn bad_length_counts_bytes() {
    assert_eq!(hex_bytes("\u{e9}"), Err(HexError::BadLength(2)));
    assert_eq!(hex_bytes("\u{e9}0"), Err(HexError::BadCharacter('\u{e9}')));
}

#[test]
fn encodes_lower_case() {
    assert_eq!(to_hex(&[0x0a, 0xff, 0x00, 0x7b]), "0aff007b".to_string());
    assert_eq!(to_hex(&[]), "".to_string());
}

#[test]
fn encode_then_decode() {
    let bytes: Vec<u8> = (0..=255u8).collect();
    assert_eq!(hex_bytes(&to_hex(&bytes)), Ok(bytes));
}

#[test]
fn pairs_and_remainder() {
    let mut p = vec![1u32, 2, 3].pair();
    assert_eq!(p.size_hint(), (1, Some(1)));
    assert_eq!(p.next(), Some((1, 2)));
    assert_eq!(p.next(), None);
    assert_eq!(p.remainder(), Some(3));
    let mut q = vec![1u32, 2].pair();
    assert_eq!(q.next(), Some((1, 2)));
    assert_eq!(q.next(), None);
    assert_eq!(q.remainder(), None);
}

#[test]
fn error_descriptions() {
    assert_eq!(HexError::BadLength(3).description(), "sha256d hex string non-64 length");
    assert_eq!(HexError::BadCharacter('x').description(), "sha256d bad hex character");
}

#[test]
fn error_messages() {
    assert_eq!(HexError::BadLength(63).to_string(), "bad length 63 for sha256d hex string");
    assert_eq!(HexError::BadLength(0).to_string(), "bad length 0 for sha256d hex string");
    assert_eq!(
        HexError::BadCharacter('z').to_string(),
        "bad character z in sha256d hex string"
    );
}

#[test]
fn pairing_conserves_items() {
    for n in 0..7u32 {
        let items: Vec<u32> = (0..n).collect();
        let mut p = items.clone().pair();
        let mut seen = vec![];
        while let Some((a, b)) = p.next() {
            seen.push(a);
            seen.push(b);
        }
        assert_eq!(seen.len() as u32, 2 * (n / 2));
        if let Some(x) = p.remainder() {
            seen.push(x);
        }
        assert_eq!(seen, items);
    }
}
