use smooshedmorse::encode::encode;
use smooshedmorse::merses::smooshedmorse_to_merse;
use smooshedmorse::morses::alphabet;
use smooshedmorse::permutations::{
    chars_to_smooshedmerse, check_for_match, find_permutations, random_alphabet, run,
    smalpha_right_len, validate_smalpha, SearchError, SegmentChars,
};

const EXAMPLE_SMALPHA: &str =
    ".--...-.-.-.....-.--........----.-.-..---.---.--.--.-.-....-..-...-.---..--.----..";

#[test]
fn test_permutations() {
    let a_res = run(Some(EXAMPLE_SMALPHA.to_string())).unwrap()[0].clone();
    let encoded = encode(&a_res).unwrap()[0].clone();
    assert_eq!(encoded, EXAMPLE_SMALPHA);
}

#[test]
fn test_permutations_solution_is_permutation() {
    let a_res = run(Some(EXAMPLE_SMALPHA.to_string())).unwrap()[0].clone();
    let mut letters: Vec<char> = a_res.chars().collect();
    letters.sort_unstable();
    assert_eq!(letters, alphabet());
}

#[test]
fn test_round_trip_identity_alphabet() {
    let plain: String = alphabet().into_iter().collect();
    let target = encode(&plain).unwrap()[0].clone();
    let a_res = run(Some(target.clone())).unwrap()[0].clone();
    assert_eq!(encode(&a_res).unwrap()[0], target);
}

#[test]
fn test_determinism_same_target_same_solution() {
    let first = run(Some(EXAMPLE_SMALPHA.to_string())).unwrap();
    let second = run(Some(EXAMPLE_SMALPHA.to_string())).unwrap();
    assert_eq!(first, second);
}

#[test]
fn test_no_solution_on_unsatisfiable_target() {
    let all_dashes = "-".repeat(smalpha_right_len());
    assert_eq!(
        run(Some(all_dashes)),
        Err(SearchError::NoSolutionFound)
    );
}

#[test]
fn test_validate_smalpha() {
    assert!(validate_smalpha(EXAMPLE_SMALPHA).is_ok());
    assert!(validate_smalpha("").is_err());
    assert!(validate_smalpha(" ").is_err());
    assert!(validate_smalpha("-!.-").is_err());
    assert!(validate_smalpha("-abc-").is_err());
    assert!(validate_smalpha("-..-").is_err());
}

#[test]
fn test_validate_smalpha_error_kinds() {
    assert_eq!(validate_smalpha("-!.-"), Err(SearchError::InvalidSymbol));
    assert_eq!(validate_smalpha("-abc-"), Err(SearchError::InvalidSymbol));
    assert_eq!(validate_smalpha("-..-"), Err(SearchError::WrongLength));
    assert_eq!(validate_smalpha(""), Err(SearchError::WrongLength));
    assert_eq!(run(Some("-..-".to_string())), Err(SearchError::WrongLength));
    assert_eq!(run(Some("x".to_string())), Err(SearchError::InvalidSymbol));
}

#[test]
fn test_smalpha_right_len() {
    assert_eq!(smalpha_right_len(), EXAMPLE_SMALPHA.len());
}

#[test]
fn test_random_alphabet() {
    assert_eq!(random_alphabet().len(), 26);

    let mut r = random_alphabet();
    r.sort_unstable();
    assert_eq!(r, alphabet());
}

#[test]
fn test_chars_to_smooshedmerse() {
    assert_eq!(chars_to_smooshedmerse(&['a']), vec![false, true]);
    assert_eq!(
        chars_to_smooshedmerse(&['a', 'b', 'c']),
        vec![false, true, true, false, false, false, true, false, true, false]
    );
}

#[test]
fn test_check_for_match() {
    let s0 = ['a', 'b', 'c'];
    let s1 = ['d', 'e', 'f'];
    let s2 = ['x', 'y', 'z'];

    let m0 = chars_to_smooshedmerse(&s0);
    let m1 = chars_to_smooshedmerse(&s1);
    let m2 = chars_to_smooshedmerse(&s2);
    let mut chain_m01 = Vec::new();
    chain_m01.extend_from_slice(&m0);
    chain_m01.extend_from_slice(&m1);
    let mut chain_m012 = Vec::new();
    chain_m012.extend_from_slice(&m0);
    chain_m012.extend_from_slice(&m1);
    chain_m012.extend_from_slice(&m2);

    assert!(!check_for_match(&[], 0, &m0));
    assert!(!check_for_match(&[true, false], 0, &m0));
    assert!(check_for_match(&chain_m01, 0, &m0) && check_for_match(&chain_m01, m0.len(), &m1));
    assert!(check_for_match(&chain_m012, 0, &m0) && check_for_match(&chain_m012, m0.len(), &m1));
    assert!(check_for_match(&chain_m012, m0.len() + m1.len(), &m2));
}

#[test]
fn test_find_permutations_matches_target() {
    let merse = smooshedmorse_to_merse(EXAMPLE_SMALPHA).unwrap();
    let solution = find_permutations(&merse, 3).unwrap();
    assert_eq!(chars_to_smooshedmerse(&solution), merse);
}

#[test]
fn test_init_enumerates_all_batches_once() {
    let letters = alphabet();
    let frame = SegmentChars::init(&letters, 3);
    assert_eq!(frame.permutations.len(), 26 * 25 * 24);
    assert_eq!(frame.take.len(), 0);
    assert_eq!(frame.merse_take.len(), 0);
    assert_eq!(frame.left.len(), 0);
    let mut candidates = frame.permutations.clone();
    candidates.sort();
    candidates.dedup();
    assert_eq!(candidates.len(), 26 * 25 * 24);
}
