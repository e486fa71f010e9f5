use smooshedmorse::decode::{
    all_words_to_smooshedmerse, decode, decode_merse, find_merse_corresponding_words,
};

#[test]
fn test_find_merse_corresponding_words() {
    assert_eq!(
        find_merse_corresponding_words(
            &vec![true, false],
            &vec![
                vec![true, false],
                vec![false, true],
                vec![true, false],
                vec![true, false, true],
                vec![false],
            ]
        ),
        vec![0, 2]
    );
}

#[test]
fn test_all_words_to_smoshedmerse() {
    assert_eq!(
        all_words_to_smooshedmerse(&vec![
            "Lancelot".to_string(),
            "Ginevra".to_string(),
            "a".to_string(),
            "horse".to_string()
        ]),
        vec![
            vec![
                false, true, false, false, false, true, true, false, true, false, true, false,
                false, false, true, false, false, true, true, true, true
            ],
            vec![
                true, true, false, false, false, true, false, false, false, false, false, true,
                false, true, false, false, true
            ],
            vec![false, true],
            vec![
                false, false, false, false, true, true, true, false, true, false, false, false,
                false, false
            ]
        ]
    );
}

#[test]
fn test_decode() {
    let wordlist = vec!["caret".to_string(), "horse".to_string(), "ceca".to_string()];
    assert_eq!(
        decode("-.-..-.-..-", &wordlist).unwrap(),
        vec![String::from("caret"), String::from("ceca")]
    );
}

#[test]
fn test_decode_trims_whitespace() {
    let wordlist = vec!["caret".to_string(), "horse".to_string(), "ceca".to_string()];
    assert_eq!(
        decode("  -.-..-.-..- \n", &wordlist).unwrap(),
        vec![String::from("caret"), String::from("ceca")]
    );
    assert_eq!(
        decode("\u{A0}\u{2003}-.-..-.-..-\u{3000}", &wordlist).unwrap(),
        vec![String::from("caret"), String::from("ceca")]
    );
}

#[test]
fn test_decode_rejects_bad_symbols() {
    let wordlist = vec!["caret".to_string()];
    assert!(decode("-.x-", &wordlist).is_err());
}

#[test]
fn test_decode_merse() {
    let wordlist = vec!["caret".to_string(), "horse".to_string(), "ceca".to_string()];
    assert_eq!(
        decode_merse(
            vec![true, false, true, false, false, true, false, true, false, false, true],
            &wordlist
        )
        .unwrap(),
        vec![String::from("caret"), String::from("ceca")]
    );
}
