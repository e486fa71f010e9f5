use smooshedmorse::morses::{alphabet, char_to_morse, get_morse_code, morse_to_char, validate_morse_str};

#[test]
fn morses_test_validate() {
    assert!(validate_morse_str("-").is_ok());
    assert!(validate_morse_str(".").is_ok());
    assert!(validate_morse_str("-.").is_ok());
    assert!(validate_morse_str(".-.........................--------------------").is_ok());
    assert!(validate_morse_str(".--.-").is_ok());
    assert!(validate_morse_str(".--.- ").is_err());
    assert!(validate_morse_str(".- .-.").is_err());
    assert!(validate_morse_str("a").is_err());
    assert!(validate_morse_str("9").is_err());
    assert!(validate_morse_str("!").is_err());
    assert!(validate_morse_str("-.3-").is_err());
    assert!(validate_morse_str("-♡").is_err());
    assert!(validate_morse_str("_").is_err());
    assert!(validate_morse_str("_.").is_err());
}

#[test]
fn test_get_morse_code() {
    assert!(get_morse_code().len() == 26);
}

#[test]
fn test_get_morse_code_entries() {
    let table = get_morse_code();
    assert_eq!(table[0].0, 'a');
    assert_eq!(table[0].1, ".-".to_string());
    assert_eq!(table[25].0, 'z');
    assert_eq!(table[25].1, "--..".to_string());
}

#[test]
fn test_char_to_morse() {
    assert_eq!(char_to_morse('a'), ".-".to_string());
    assert_eq!(char_to_morse('k'), "-.-".to_string());
    assert_eq!(char_to_morse('z'), "--..".to_string());
    assert_eq!(char_to_morse('S'), "...".to_string());
}

#[test]
fn test_morse_to_char() {
    assert_eq!(morse_to_char("-."), Some('n'));
    assert_eq!(morse_to_char("..."), Some('s'));
    assert_eq!(morse_to_char("---"), Some('o'));
    assert_eq!(morse_to_char("----"), None);
}

#[test]
fn test_alphabet() {
    let letters = alphabet();
    assert_eq!(letters.len(), 26);
    assert_eq!(letters[0], 'a');
    assert_eq!(letters[25], 'z');
}
