use smooshedmorse::merses::{
    char_to_merse, get_merse_code, merse_to_char, merse_to_morse, morse_char_to_merse,
    smooshedmorse_to_merse, MorseError,
};

#[test]
fn test_get_merse_code() {
    assert!(get_merse_code().unwrap().len() == 26);
}

#[test]
fn test_morse_char_to_merse() {
    assert_eq!(morse_char_to_merse(".-").unwrap(), vec![false, true]);
    assert_eq!(
        morse_char_to_merse("..-.").unwrap(),
        vec![false, false, true, false]
    );
    assert_eq!(
        morse_char_to_merse(".---..-.-.-.--").unwrap(),
        vec![
            false, true, true, true, false, false, true, false, true, false, true, false, true,
            true
        ]
    );
}

#[test]
fn test_smooshedmorse_to_merse() {
    assert_eq!(smooshedmorse_to_merse(".-").unwrap(), vec![false, true]);
    assert_eq!(
        smooshedmorse_to_merse("..-.").unwrap(),
        vec![false, false, true, false]
    );
    assert_eq!(
        smooshedmorse_to_merse(".---..-.-.-.--").unwrap(),
        vec![
            false, true, true, true, false, false, true, false, true, false, true, false, true,
            true
        ]
    );
}

#[test]
fn test_invalid_smooshedmorse_to_merse() {
    assert!(smooshedmorse_to_merse(".- -").is_err());
}

#[test]
fn test_invalid_char_reported() {
    let e = morse_char_to_merse(".-x-").unwrap_err();
    assert!(matches!(e, MorseError::InvalidMorseChar('x')));
}

#[test]
fn test_merse_to_char() {
    assert_eq!(
        merse_to_char(vec![true, false, false, false]).unwrap(),
        Some('b')
    );
    assert_eq!(
        merse_to_char(vec![true, false, false, false, false]).unwrap(),
        None
    );
}

#[test]
fn test_char_to_merse() {
    assert_eq!(char_to_merse('b').unwrap(), vec![true, false, false, false]);
    assert_eq!(char_to_merse('i').unwrap(), vec![false, false]);
}

#[test]
fn test_merse_to_morse() {
    assert_eq!(merse_to_morse(&vec![true, false, true]), "-.-".to_string());
    assert_eq!(merse_to_morse(&vec![]), String::new());
}
