use smooshedmorse::encode::{encode, validate_ascii, word_to_smooshedmerse, word_to_smooshedmorse, EncodeError};

#[test]
fn encode_test_validate() {
    assert!(validate_ascii("Carlotta").is_ok());
    assert!(validate_ascii("supercalifragilistichespiralidoso").is_ok());
    assert!(validate_ascii("S&C").is_err());
    assert!(validate_ascii("S4ndr0").is_err());
    assert!(validate_ascii("AB♡").is_err());
    assert!(validate_ascii("Sandro ").is_err());
    assert!(validate_ascii("S C").is_err());
}

#[test]
fn test_validate_error_kind() {
    let e = validate_ascii("a1b").unwrap_err();
    assert!(matches!(e, EncodeError::NotAsciiAlphabetic));
}

#[test]
fn test_word_to_smooshedmorse() {
    assert!(word_to_smooshedmorse("a ").is_err());
    assert!(word_to_smooshedmorse("b b").is_err());
    assert_eq!(word_to_smooshedmorse("").unwrap(), String::from(""));
    assert_eq!(
        word_to_smooshedmorse("Carlotta").unwrap(),
        String::from("-.-..-.-..-..-----.-")
    )
}

#[test]
fn test_word_to_smooshedmerse() {
    assert!(word_to_smooshedmerse("a ").is_err());
    assert!(word_to_smooshedmerse("b b").is_err());
    assert_eq!(word_to_smooshedmerse("").unwrap(), Vec::<bool>::new());
    assert_eq!(
        word_to_smooshedmerse("Carlotta").unwrap(),
        vec![
            true, false, true, false, false, true, false, true, false, false, true, false,
            false, true, true, true, true, true, false, true
        ]
    );
}

#[test]
fn test_encode() {
    assert_eq!(
        encode("carlotta").unwrap(),
        vec!["-.-..-.-..-..-----.-".to_string()]
    );
    assert_eq!(
        encode("Carlotta").unwrap(),
        vec!["-.-..-.-..-..-----.-".to_string()]
    );
    assert!(
        encode("C3rr3t0").is_err(),
        "Word to be encoded must contain only ASCII alphabetic characters"
    );
    assert!(
        encode("C rr t ").is_err(),
        "Word to be encoded must contain only ASCII alphabetic characters"
    );
}
