use classic_ciphers::{
    encrypt, decrypt, CaesarCipher, VigenereCipher, PlayfairCipher, HillCipher, CipherError,
    char_to_index, index_to_char, letter_counts,
};

// ---- alphabet utilities ----

#[test]
fn char_to_index_values() {
    assert_eq!(char_to_index('A'), 0);
    assert_eq!(char_to_index('Z'), 25);
    assert_eq!(char_to_index('a'), 0);
    assert_eq!(char_to_index('z'), 25);
    assert_eq!(char_to_index('!'), -1);
    assert_eq!(char_to_index('0'), -1);
}

#[test]
fn index_to_char_values() {
    assert_eq!(index_to_char(0, true), 'A');
    assert_eq!(index_to_char(25, false), 'z');
    assert_eq!(index_to_char(27, true), 'B');
    assert_eq!(index_to_char(-1, false), 'z');
    assert_eq!(index_to_char(-27, true), 'Z');
}

#[test]
fn letter_counts_hello() {
    let counts = letter_counts("Hello");
    assert_eq!(counts.len(), 26);
    assert_eq!(counts[7], 1); // h
    assert_eq!(counts[4], 1); // e
    assert_eq!(counts[11], 2); // l
    assert_eq!(counts[14], 1); // o
    let total: u64 = counts.iter().sum();
    assert_eq!(total, 5);
}

#[test]
fn letter_counts_ignores_non_letters() {
    let counts = letter_counts("123 !?");
    assert_eq!(counts.iter().sum::<u64>(), 0);
}

// ---- Caesar ----

#[test]
fn caesar_encrypt_basic() {
    assert_eq!(CaesarCipher::encrypt("ABC", "3").unwrap(), "DEF");
    assert_eq!(CaesarCipher::encrypt("XYZ", "3").unwrap(), "ABC");
    assert_eq!(CaesarCipher::encrypt("xyz", "3").unwrap(), "abc");
}

#[test]
fn caesar_preserves_non_letters_and_case() {
    assert_eq!(
        CaesarCipher::encrypt("Hello, World! 123", "5").unwrap(),
        "Mjqqt, Btwqi! 123"
    );
}

#[test]
fn caesar_round_trip() {
    let text = "The quick brown Fox, jumps over 13 lazy dogs!";
    for key in ["0", "1", "7", "25", "26", "-3", "100"] {
        let enc = CaesarCipher::encrypt(text, key).unwrap();
        let dec = CaesarCipher::decrypt(&enc, key).unwrap();
        assert_eq!(dec, text);
    }
}

#[test]
fn caesar_negative_and_large_keys() {
    assert_eq!(CaesarCipher::encrypt("ABC", "-1").unwrap(), "ZAB");
    assert_eq!(CaesarCipher::encrypt("A", "27").unwrap(), "B");
    assert_eq!(CaesarCipher::encrypt("A", "0").unwrap(), "A");
}

#[test]
fn caesar_invalid_key() {
    assert!(matches!(
        CaesarCipher::encrypt("text", "abc"),
        Err(CipherError::InvalidKey(_))
    ));
    assert!(matches!(
        CaesarCipher::decrypt("text", ""),
        Err(CipherError::InvalidKey(_))
    ));
    assert!(matches!(
        CaesarCipher::encrypt("text", "3x"),
        Err(CipherError::InvalidKey(_))
    ));
    assert!(matches!(
        CaesarCipher::encrypt("text", "99999999999"),
        Err(CipherError::InvalidKey(_))
    ));
}

#[test]
fn caesar_error_message() {
    match CaesarCipher::encrypt("text", "abc") {
        Err(e) => assert_eq!(e.message(), "Invalid key: must be a number"),
        Ok(_) => panic!("expected an error"),
    }
}

#[test]
fn caesar_brute_force_candidates() {
    let cands = CaesarCipher::brute_force_candidates("ABC");
    assert_eq!(cands.len(), 26);
    for (i, (shift, text)) in cands.iter().enumerate() {
        assert_eq!(*shift, i as i32);
        assert_eq!(text.len(), 3);
    }
    // Entry i undoes an encryption with shift i.
    assert_eq!(cands[0].1, "ABC");
    assert_eq!(cands[3].1, "XYZ");
    assert_eq!(cands[25].1, "BCD");
}

#[test]
fn caesar_brute_force_candidate_undoes_encryption() {
    let enc = CaesarCipher::encrypt("WEATHER REPORT", "7").unwrap();
    let cands = CaesarCipher::brute_force_candidates(&enc);
    assert_eq!(cands[7].1, "WEATHER REPORT");
}

// ---- Vigenère ----

#[test]
fn vigenere_classic_example() {
    assert_eq!(
        VigenereCipher::encrypt("HELLO WORLD", "KEY").unwrap(),
        "RIJVS UYVJN"
    );
    assert_eq!(
        VigenereCipher::decrypt("RIJVS UYVJN", "KEY").unwrap(),
        "HELLO WORLD"
    );
}

#[test]
fn vigenere_case_preserved() {
    assert_eq!(VigenereCipher::encrypt("hello", "key").unwrap(), "rijvs");
    assert_eq!(VigenereCipher::encrypt("Hello", "KEY").unwrap(), "Rijvs");
}

#[test]
fn vigenere_non_letters_do_not_advance_key() {
    // The key letter consumed by 'B' must be the second one even though
    // a non-letter sits in between.
    assert_eq!(VigenereCipher::encrypt("A!B", "BC").unwrap(), "B!D");
}

#[test]
fn vigenere_round_trip() {
    let text = "Attack at dawn, 04:30 sharp!";
    for key in ["K", "key", "LEMON", "AbCdE"] {
        let enc = VigenereCipher::encrypt(text, key).unwrap();
        let dec = VigenereCipher::decrypt(&enc, key).unwrap();
        assert_eq!(dec, text);
    }
}

#[test]
fn vigenere_invalid_keys() {
    assert!(matches!(
        VigenereCipher::encrypt("text", "abc123"),
        Err(CipherError::InvalidKey(_))
    ));
    assert!(matches!(
        VigenereCipher::encrypt("text", ""),
        Err(CipherError::InvalidKey(_))
    ));
    assert!(matches!(
        VigenereCipher::decrypt("text", "a b"),
        Err(CipherError::InvalidKey(_))
    ));
}

// ---- Playfair ----

#[test]
fn playfair_key_square_layout() {
    let square = PlayfairCipher::create_key_square("PLAYFAIR");
    let expected = [
        ['P', 'L', 'A', 'Y', 'F'],
        ['I', 'R', 'B', 'C', 'D'],
        ['E', 'G', 'H', 'K', 'M'],
        ['N', 'O', 'Q', 'S', 'T'],
        ['U', 'V', 'W', 'X', 'Z'],
    ];
    assert_eq!(square.len(), 5);
    for i in 0..5 {
        assert_eq!(square[i].len(), 5);
        for j in 0..5 {
            assert_eq!(square[i][j], expected[i][j]);
        }
    }
}

#[test]
fn playfair_key_square_no_duplicates_no_j() {
    let square = PlayfairCipher::create_key_square("monarchy");
    let mut seen = Vec::new();
    for row in &square {
        for &c in row {
            assert!(c.is_ascii_uppercase());
            assert_ne!(c, 'J');
            assert!(!seen.contains(&c));
            seen.push(c);
        }
    }
    assert_eq!(seen.len(), 25);
}

#[test]
fn playfair_prepare_text_rules() {
    assert_eq!(PlayfairCipher::prepare_text("HELLO"), "HELXLO");
    assert_eq!(PlayfairCipher::prepare_text("balloon"), "BALXLOON");
    assert_eq!(PlayfairCipher::prepare_text("Jug"), "IUGX");
    assert_eq!(PlayfairCipher::prepare_text("hi there!"), "HITHEREX");
    assert_eq!(PlayfairCipher::prepare_text(""), "");
}

#[test]
fn playfair_find_position() {
    let square = PlayfairCipher::create_key_square("MONARCHY");
    assert_eq!(PlayfairCipher::find_position(&square, 'M'), (0, 0));
    assert_eq!(PlayfairCipher::find_position(&square, 'Z'), (4, 4));
    assert_eq!(PlayfairCipher::find_position(&square, 'Y'), (1, 2));
    // An absent character reports the default position.
    assert_eq!(PlayfairCipher::find_position(&square, 'j'), (0, 0));
}

#[test]
fn playfair_encrypt_classic() {
    assert_eq!(PlayfairCipher::encrypt("HELLO", "MONARCHY").unwrap(), "CFSUPM");
}

#[test]
fn playfair_round_trip() {
    let enc = PlayfairCipher::encrypt("HELLO", "MONARCHY").unwrap();
    assert_eq!(PlayfairCipher::decrypt(&enc, "MONARCHY").unwrap(), "HELLO");
    let enc2 = PlayfairCipher::encrypt("instruments", "playfair example").unwrap();
    assert_eq!(
        PlayfairCipher::decrypt(&enc2, "playfair example").unwrap(),
        "INSTRUMENTS"
    );
}

#[test]
fn playfair_clean_round_trip_is_exact() {
    // Cleaned texts of even length with no doubled letter, no 'X'
    // between equal letters and no trailing 'X' survive exactly.
    for text in ["FRIEND", "SQUARE", "monarch plays"] {
        let enc = PlayfairCipher::encrypt(text, "KEYWORD").unwrap();
        let expected: String = text
            .chars()
            .filter(|c| c.is_ascii_alphabetic())
            .map(|c| {
                let u = c.to_ascii_uppercase();
                if u == 'J' { 'I' } else { u }
            })
            .collect();
        assert_eq!(PlayfairCipher::decrypt(&enc, "KEYWORD").unwrap(), expected);
    }
}

#[test]
fn playfair_decrypt_odd_length_rejected() {
    assert!(matches!(
        PlayfairCipher::decrypt("ABC", "MONARCHY"),
        Err(CipherError::InvalidInput(_))
    ));
}

// ---- Hill ----

#[test]
fn hill_classic_two_by_two() {
    assert_eq!(HillCipher::encrypt("HELP", "3 3 2 5").unwrap(), "HIAT");
    assert_eq!(HillCipher::decrypt("HIAT", "3 3 2 5").unwrap(), "HELP");
}

#[test]
fn hill_encrypt_pads_short_block() {
    assert_eq!(HillCipher::encrypt("HEL", "3 3 2 5").unwrap(), "HIYH");
}

#[test]
fn hill_mod_inverse_values() {
    assert_eq!(HillCipher::mod_inverse(3, 26), Some(9));
    assert_eq!(HillCipher::mod_inverse(2, 26), None);
    assert_eq!(HillCipher::mod_inverse(1, 26), Some(1));
    assert_eq!(HillCipher::mod_inverse(25, 26), Some(25));
    assert_eq!(HillCipher::mod_inverse(0, 26), None);
}

#[test]
fn hill_parse_key_shapes() {
    let m = HillCipher::parse_key("3 3 2 5").unwrap();
    assert_eq!(m, vec![vec![3, 3], vec![2, 5]]);
    // Entries are reduced to canonical residues mod 26.
    let m2 = HillCipher::parse_key("-1 28 3 4").unwrap();
    assert_eq!(m2, vec![vec![25, 2], vec![3, 4]]);
    assert!(matches!(
        HillCipher::parse_key("1 2 3"),
        Err(CipherError::InvalidKey(_))
    ));
    assert!(matches!(
        HillCipher::parse_key("1 2 a 4"),
        Err(CipherError::InvalidKey(_))
    ));
    assert!(matches!(
        HillCipher::parse_key(""),
        Err(CipherError::InvalidKey(_))
    ));
}

#[test]
fn hill_matrix_multiply_block() {
    let m = vec![vec![3, 3], vec![2, 5]];
    let v = vec![7, 4];
    assert_eq!(HillCipher::matrix_multiply(&m, &v), vec![7, 8]);
}

#[test]
fn hill_matrix_inverse_classic() {
    let m = HillCipher::parse_key("3 3 2 5").unwrap();
    let inv = HillCipher::matrix_inverse(&m).unwrap();
    assert_eq!(inv, vec![vec![15, 17], vec![20, 9]]);
}

#[test]
fn hill_matrix_inverse_failures() {
    // Determinant 16 - 24 = -8 ≡ 18 shares a factor with 26.
    let m = HillCipher::parse_key("2 4 6 8").unwrap();
    assert!(matches!(
        HillCipher::matrix_inverse(&m),
        Err(CipherError::InvalidKey(_))
    ));
    // Only 2x2 and 3x3 are supported for inversion.
    let m1 = HillCipher::parse_key("3").unwrap();
    assert!(matches!(
        HillCipher::matrix_inverse(&m1),
        Err(CipherError::InvalidKey(_))
    ));
}

#[test]
fn hill_three_by_three_round_trip() {
    // A classical invertible 3x3 key (det coprime with 26).
    let key = "6 24 1 13 16 10 20 17 15";
    let enc = HillCipher::encrypt("ACT", key).unwrap();
    assert_eq!(enc, "POH");
    assert_eq!(HillCipher::decrypt("POH", key).unwrap(), "ACT");
}

#[test]
fn hill_rejects_bad_text() {
    assert!(matches!(
        HillCipher::encrypt("HI!", "3 3 2 5"),
        Err(CipherError::InvalidInput(_))
    ));
    // Decryption cannot guess padding for a short final block.
    assert!(matches!(
        HillCipher::decrypt("ABC", "3 3 2 5"),
        Err(CipherError::InvalidInput(_))
    ));
}

#[test]
fn hill_one_by_one_encrypts() {
    // A 1x1 key is accepted for encryption: each letter is scaled.
    assert_eq!(HillCipher::encrypt("AB", "3").unwrap(), "AD");
    // ... but not for decryption.
    assert!(matches!(
        HillCipher::decrypt("AD", "3"),
        Err(CipherError::InvalidKey(_))
    ));
}

// ---- dispatch by cipher name ----

#[test]
fn dispatch_selects_ciphers() {
    assert_eq!(encrypt("caesar", "ABC", "3").unwrap(), "DEF");
    assert_eq!(encrypt("CAESAR", "ABC", "3").unwrap(), "DEF");
    assert_eq!(encrypt("CaEsAr", "ABC", "3").unwrap(), "DEF");
    assert_eq!(decrypt("caesar", "DEF", "3").unwrap(), "ABC");
    assert_eq!(encrypt("vigenere", "HELLO", "KEY").unwrap(), "RIJVS");
    assert_eq!(decrypt("vigenere", "RIJVS", "KEY").unwrap(), "HELLO");
    assert_eq!(encrypt("playfair", "HELLO", "MONARCHY").unwrap(), "CFSUPM");
    assert_eq!(decrypt("playfair", "CFSUPM", "MONARCHY").unwrap(), "HELLO");
    assert_eq!(encrypt("hill", "HELP", "3 3 2 5").unwrap(), "HIAT");
    assert_eq!(decrypt("hill", "HIAT", "3 3 2 5").unwrap(), "HELP");
}

#[test]
fn dispatch_unknown_cipher() {
    assert!(matches!(
        encrypt("rot13", "ABC", "3"),
        Err(CipherError::InvalidCipher(_))
    ));
    assert!(matches!(
        decrypt("", "ABC", "3"),
        Err(CipherError::InvalidCipher(_))
    ));
}

// ---- edge cases ----

#[test]
fn empty_texts_round_trip() {
    assert_eq!(CaesarCipher::encrypt("", "5").unwrap(), "");
    assert_eq!(VigenereCipher::encrypt("", "KEY").unwrap(), "");
    assert_eq!(PlayfairCipher::encrypt("", "MONARCHY").unwrap(), "");
    assert_eq!(PlayfairCipher::decrypt("", "MONARCHY").unwrap(), "");
    assert_eq!(HillCipher::encrypt("", "3 3 2 5").unwrap(), "");
    assert_eq!(HillCipher::decrypt("", "3 3 2 5").unwrap(), "");
}

#[test]
fn playfair_trailing_x_is_lossy() {
    // The filler-removal heuristic strips a genuine trailing 'X': the
    // classical algorithm cannot tell it from padding.
    let enc = PlayfairCipher::encrypt("CLIMAX", "MONARCHY").unwrap();
    assert_eq!(PlayfairCipher::decrypt(&enc, "MONARCHY").unwrap(), "CLIMA");
}

#[test]
fn caesar_only_sign_is_invalid() {
    assert!(matches!(
        CaesarCipher::encrypt("text", "-"),
        Err(CipherError::InvalidKey(_))
    ));
    assert!(matches!(
        CaesarCipher::encrypt("text", "+"),
        Err(CipherError::InvalidKey(_))
    ));
    assert_eq!(CaesarCipher::encrypt("ABC", "+3").unwrap(), "DEF");
}

#[test]
fn hill_key_with_extra_whitespace() {
    assert_eq!(HillCipher::encrypt("HELP", "  3\t3\n2 5 ").unwrap(), "HIAT");
    // Unicode whitespace separates tokens too.
    assert_eq!(HillCipher::encrypt("HELP", "3\u{a0}3\u{2003}2 5").unwrap(), "HIAT");
}
