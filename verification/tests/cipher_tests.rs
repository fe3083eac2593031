use vigenere::alphabet::DictWrap;
use vigenere::cipher::{
    char_finder, complete_key, decode, decode_web, encode, for_display, index_finder, vig_matcher,
    ErrorCode, VigMatrixWrap,
};

#[test]
fn test_encode() {
    let vig_mat = VigMatrixWrap::new();
    let key = "°¡! RüST íS CóÓL ¡!°";
    let message = "Hello, World!";
    let encoded = encode(message, key, &vig_mat).unwrap();
    assert_eq!(message, decode(&encoded, key, &vig_mat).unwrap());

    let vig_mat = VigMatrixWrap::new();
    let key = "°¡! RüST íS CóÓL ¡!°";
    let message = "Anup Jadhav";
    let encoded = encode(message, key, &vig_mat).unwrap();
    let decoded = decode(&encoded, key, &vig_mat).unwrap();
    assert_eq!(message, decoded);

    let vig_mat = VigMatrixWrap::new();
    let key = "°¡! RüST íS CóÓL ¡!°";
    let message = "!!!!";
    let encoded = encode(message, key, &vig_mat).unwrap();
    assert_eq!(message, decode(&encoded, key, &vig_mat).unwrap());

    let vig_mat = VigMatrixWrap::new();
    let key = "°¡! RüST íS CóÓL ¡!°";
    let message = "WhátisApp+éars to   be the   problem here__°¿¿¿¿¿!!!!++++{{{{{{{}}}}}}}";
    let encoded = encode(message, key, &vig_mat).unwrap();
    assert_eq!(message, decode(&encoded, key, &vig_mat).unwrap());
}

#[test]
fn test_complex() {
    let vig_mat = VigMatrixWrap::new();
    let key = "°¡! RüST íS CóÓL ¡!°";
    let message = r##"´+++´[[[    {{{'''''""""()*&^   
            $2374954904890~~~11939455    
            7+a+e{eíóúúááÉú}"}}}]]]"##;
    let encoded = encode(message, key, &vig_mat).unwrap();
    assert_eq!(message, decode(&encoded, key, &vig_mat).unwrap());
}

#[test]
fn test_alphabet_contents() {
    let dict = DictWrap::new();
    let s = dict.get_string();
    let chars: Vec<char> = s.chars().collect();
    assert_eq!(chars.len(), 192);
    // Codepoint order: 0x20..=0x7E, then 0xA1..=0xFF, then '\n' and '\r'.
    for (i, &c) in chars.iter().enumerate().take(95) {
        assert_eq!(c as u32, 0x20 + i as u32);
    }
    for (i, &c) in chars.iter().enumerate().skip(95).take(95) {
        assert_eq!(c as u32, 0xA1 + (i as u32 - 95));
    }
    assert_eq!(chars[190], '\n');
    assert_eq!(chars[191], '\r');
    // All entries pairwise distinct.
    let mut sorted = chars.clone();
    sorted.sort();
    sorted.dedup();
    assert_eq!(sorted.len(), 192);
}

#[test]
fn test_identity_row() {
    let dict = DictWrap::new();
    let mat = VigMatrixWrap::new();
    assert_eq!(mat.0[0], dict.0);
}

#[test]
fn test_table_bijection() {
    let dict = DictWrap::new();
    let mat = VigMatrixWrap::new();
    let mut alphabet = dict.0.clone();
    alphabet.sort();
    for r in 0..192 {
        let mut row = mat.0[r].clone();
        row.sort();
        assert_eq!(row, alphabet);
    }
    for c in 0..192 {
        let mut col: Vec<char> = (0..192).map(|r| mat.0[r][c]).collect();
        col.sort();
        assert_eq!(col, alphabet);
    }
}

#[test]
fn test_closed_form_rule() {
    let dict = DictWrap::new();
    let mat = VigMatrixWrap::new();
    for &r in &[0usize, 1, 5, 100, 191] {
        for &c in &[0usize, 1, 42, 150, 191] {
            assert_eq!(mat.0[r][c], dict.0[(r + c) % 192]);
        }
    }
}

#[test]
fn test_length_preservation() {
    let mat = VigMatrixWrap::new();
    let msg = "some words, over several symbols!";
    let encoded = encode(msg, "key", &mat).unwrap();
    assert_eq!(encoded.chars().count(), msg.chars().count());
    let decoded = decode(&encoded, "key", &mat).unwrap();
    assert_eq!(decoded.chars().count(), msg.chars().count());
    let empty = encode("", "key", &mat).unwrap();
    assert_eq!(empty, "");
}

#[test]
fn test_complete_key_expansion() {
    assert_eq!(complete_key("KEY", 2), "KE");
    assert_eq!(complete_key("KEY", 3), "KEY");
    assert_eq!(complete_key("KEY", 8), "KEYKEYKE");
    assert_eq!(complete_key("KEY", 0), "");
}

#[test]
fn test_key_doubling() {
    let mat = VigMatrixWrap::new();
    let msg = "The same plaintext, twice the key.";
    let once = encode(msg, "KEY", &mat).unwrap();
    let twice = encode(msg, "KEYKEY", &mat).unwrap();
    assert_eq!(once, twice);
    let longer = encode(msg, "KEYKEYKEYKEYKEYKEYKEYKEYKEYKEYKEYKEYKEYKEY", &mat).unwrap();
    assert_eq!(once, longer);
}

#[test]
fn test_concrete_scenario() {
    let mat = VigMatrixWrap::new();
    // index('K') = 43, index('A') = 33 -> alphabet[76] = 'l';
    // index('E') = 37, index('B') = 34 -> alphabet[71] = 'g'.
    let encoded = encode("AB", "KEY", &mat).unwrap();
    assert_eq!(encoded, "lg");
    assert_eq!(decode("lg", "KEY", &mat).unwrap(), "AB");
}

#[test]
fn test_invalid_message_char() {
    let mat = VigMatrixWrap::new();
    let r = encode("e\u{0007}llo", "key", &mat);
    assert!(matches!(r, Err(ErrorCode::InvalidChar('\u{0007}'))));
}

#[test]
fn test_invalid_key_char() {
    let mat = VigMatrixWrap::new();
    let r = encode("hello", "k\u{0007}y", &mat);
    assert!(matches!(r, Err(ErrorCode::InvalidChar('\u{0007}'))));
}

#[test]
fn test_decode_rejects_invalid_char() {
    let mat = VigMatrixWrap::new();
    // An out-of-alphabet ciphertext symbol is an error, never a default.
    let r = decode("a\u{0001}c", "key", &mat);
    assert!(matches!(r, Err(ErrorCode::InvalidChar('\u{0001}'))));
    let r = decode("abc", "\u{0002}ey", &mat);
    assert!(matches!(r, Err(ErrorCode::InvalidChar('\u{0002}'))));
}

#[test]
fn test_index_finder_and_char_finder() {
    let mat = VigMatrixWrap::new();
    assert!(matches!(index_finder(' ', &mat), Ok(0)));
    assert!(matches!(index_finder('!', &mat), Ok(1)));
    assert!(matches!(index_finder('A', &mat), Ok(33)));
    assert!(matches!(index_finder('\n', &mat), Ok(190)));
    assert!(matches!(index_finder('\r', &mat), Ok(191)));
    assert!(matches!(
        index_finder('\u{0007}', &mat),
        Err(ErrorCode::InvalidChar('\u{0007}'))
    ));
    assert!(matches!(char_finder(0, &mat), Ok(' ')));
    assert!(matches!(char_finder(33, &mat), Ok('A')));
    assert!(matches!(char_finder(191, &mat), Ok('\r')));
    assert!(matches!(
        char_finder(500, &mat),
        Err(ErrorCode::InvalidIndex(500))
    ));
}

#[test]
fn test_vig_matcher_cell() {
    let mat = VigMatrixWrap::new();
    // Row from the key symbol, column from the message symbol.
    assert!(matches!(vig_matcher(&mat, 'A', 'K'), Ok('l')));
    assert!(matches!(vig_matcher(&mat, 'B', 'E'), Ok('g')));
    assert!(matches!(
        vig_matcher(&mat, '\u{0007}', 'K'),
        Err(ErrorCode::InvalidChar('\u{0007}'))
    ));
    assert!(matches!(
        vig_matcher(&mat, 'A', '\u{0007}'),
        Err(ErrorCode::InvalidChar('\u{0007}'))
    ));
}

#[test]
fn test_for_display() {
    assert_eq!(for_display("a  b\n"), "a&nbsp;&nbsp;b<br>");
    assert_eq!(for_display("\r"), "<br>");
    assert_eq!(for_display("plain"), "plain");
    assert_eq!(for_display(""), "");
}

#[test]
fn test_decode_web() {
    let mat = VigMatrixWrap::new();
    let encoded = encode("a  b\nc", "key", &mat).unwrap();
    let shown = decode_web(&encoded, "key", &mat).unwrap();
    assert_eq!(shown, "a&nbsp;&nbsp;b<br>c");
}

#[test]
fn test_round_trip_whole_alphabet() {
    let mat = VigMatrixWrap::new();
    let all = DictWrap::new().get_string();
    let encoded = encode(&all, "°¡! RüST íS CóÓL ¡!°", &mat).unwrap();
    assert_eq!(decode(&encoded, "°¡! RüST íS CóÓL ¡!°", &mat).unwrap(), all);
}
