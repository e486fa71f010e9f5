use smooshedmorse::encode::word_to_smooshedmerse;
use smooshedmorse::extra1::{count_smooshedmorse, get_higher_counted};
use smooshedmorse::extra2::{count_consecutive_dashes, find_first_with_many_dashes};
use smooshedmorse::extra3::{filter_words_by_lenght, find_balanced, is_balanced};
use smooshedmorse::extra4::{find_palindrome, is_palindrome};

#[test]
fn test_count_smooshedmorse() {
    let counted = count_smooshedmorse(&vec![
        vec![true],
        vec![true, false],
        vec![true, false],
        vec![false, true],
        vec![false, false, false],
        vec![true, false],
        vec![true],
    ]);
    let expected: Vec<(Vec<bool>, u32)> = vec![
        (vec![true], 2),
        (vec![true, false], 3),
        (vec![false, true], 1),
        (vec![false, false, false], 1),
    ];
    assert_eq!(counted, expected);
}

#[test]
fn test_get_higher_counted() {
    let testmap: Vec<(Vec<bool>, u32)> = vec![
        (vec![false, false, false], 1),
        (vec![false, true], 1),
        (vec![true], 2),
        (vec![true, false], 3),
    ];
    assert_eq!(get_higher_counted(testmap), vec![vec![true, false]]);
}

#[test]
fn test_extra1_run() {
    let words = vec!["it".to_string(), "it".to_string(), "me".to_string()];
    assert_eq!(
        smooshedmorse::extra1::run(&words),
        Ok(vec!["..-".to_string()])
    );
}

#[test]
fn test_count_consecutive_dashes() {
    assert_eq!(count_consecutive_dashes(&vec![]), 0);
    assert_eq!(count_consecutive_dashes(&vec![false, false, false]), 0);
    assert_eq!(count_consecutive_dashes(&vec![false, true, false]), 1);
    assert_eq!(
        count_consecutive_dashes(&vec![true, false, true, true, true, false]),
        3
    );
}

#[test]
fn test_find_first_with_many_dashes() {
    assert_eq!(find_first_with_many_dashes(&vec![]), None);
    assert_eq!(
        find_first_with_many_dashes(&vec![vec![false, false], vec![true, false, true]]),
        None
    );
    let mdw: Vec<bool> = vec![
        true, true, true, true, true, true, true, true, true, true, true, true, true, true,
        true,
    ];
    assert_eq!(
        find_first_with_many_dashes(&vec![
            vec![false, false],
            vec![true, false, true],
            vec![
                true, true, true, true, true, true, true, true, true, true, true, true, true,
                true, true,
            ]
        ]),
        Some(&mdw)
    );
}

#[test]
fn test_extra2_run() {
    let words = vec!["cat".to_string(), "ooooo".to_string()];
    assert_eq!(
        smooshedmorse::extra2::run(&words).unwrap(),
        vec!["---------------".to_string()]
    );
}

#[test]
fn test_find_balanced() {
    assert_eq!(
        find_balanced(&vec![
            vec![true],
            vec![true, false, false],
            vec![true, false],
            vec![false],
            vec![true, false, true, false, false, true],
        ]),
        vec![2, 4]
    );
}

#[test]
fn test_is_balanced() {
    assert!(is_balanced(&vec![true, false, true, true, false, false]));
    assert!(is_balanced(&vec![]));
    assert!(!is_balanced(&vec![true, true, true, false, false]));
    assert!(!is_balanced(&vec![true]));
    assert!(!is_balanced(&vec![false]));
}

#[test]
fn test_filter_words_by_lenght() {
    assert_eq!(
        filter_words_by_lenght(
            vec![
                "a".to_string(),
                "bcde".to_string(),
                "tttt".to_string(),
                "sntoaehu".to_string(),
            ],
            4
        ),
        vec!["bcde".to_string(), "tttt".to_string(),]
    );
}

#[test]
fn test_extra3_run() {
    let word = "counterdemonstrations";
    assert_eq!(word.len(), 21);
    let words = vec!["cat".to_string(), word.to_string()];
    let merse = word_to_smooshedmerse(word).unwrap();
    let expected: Vec<String> = if is_balanced(&merse) {
        vec![word.to_string()]
    } else {
        vec![]
    };
    assert_eq!(smooshedmorse::extra3::run(&words).unwrap(), expected);
}

#[test]
fn test_find_palindrome() {
    assert_eq!(
        find_palindrome(&vec![
            vec![true, false],
            vec![true, false, false],
            vec![true, false, true],
            vec![false, true, true, true],
            vec![true, false, false, true],
        ]),
        vec![2, 4]
    );
}

#[test]
fn test_is_palindrome() {
    assert!(is_palindrome(&vec![true, false, true, true, false, true]));
    assert!(is_palindrome(&vec![true, true]));
    assert!(is_palindrome(&vec![false, true, false]));
    assert!(is_palindrome(&vec![false]));
    assert!(is_palindrome(&vec![]));
    assert!(!is_palindrome(&vec![true, true, true, false, false]));
    assert!(!is_palindrome(&vec![false, true]));
}

#[test]
fn test_extra4_run() {
    let word = "faceff";
    assert_eq!(word.len(), 6);
    let words = vec!["ox".to_string(), word.to_string()];
    let merse = word_to_smooshedmerse(word).unwrap();
    let expected: Vec<String> = if is_palindrome(&merse) {
        vec![word.to_string()]
    } else {
        vec![]
    };
    assert_eq!(smooshedmorse::extra4::run(&words).unwrap(), expected);
}
