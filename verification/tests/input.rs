use smooshedmorse::input::{get_config, Config, Method};

#[test]
fn test_get() {
    assert_eq!(
        get_config(&[
            "programname".to_string(),
            "encode".to_string(),
            "Carlotta".to_string()
        ]),
        Ok(Config {
            method: Method::Encode,
            word: Some("Carlotta".to_string())
        })
    );
    assert_eq!(
        get_config(&[
            "programname".to_string(),
            "decode".to_string(),
            "-.-.-.--".to_string()
        ]),
        Ok(Config {
            method: Method::Decode,
            word: Some("-.-.-.--".to_string())
        })
    );
    assert_eq!(
        get_config(&["programname".to_string(), "extra1".to_string()]),
        Ok(Config {
            method: Method::Extra1,
            word: None
        })
    );
    assert_eq!(
        get_config(&["programname".to_string(), "extra2".to_string()]),
        Ok(Config {
            method: Method::Extra2,
            word: None
        })
    );
    assert_eq!(
        get_config(&["programname".to_string(), "extra3".to_string()]),
        Ok(Config {
            method: Method::Extra3,
            word: None
        })
    );
    assert_eq!(
        get_config(&["programname".to_string(), "extra4".to_string()]),
        Ok(Config {
            method: Method::Extra4,
            word: None
        })
    );
    assert!(
        get_config(&["programname".to_string(), "nope".to_string()]).is_err(),
        "Wrong verb argument"
    );
}

#[test]
fn test_get_permutations_verb() {
    assert_eq!(
        get_config(&["programname".to_string(), "permutations".to_string()]),
        Ok(Config {
            method: Method::Permutations,
            word: None
        })
    );
    assert_eq!(
        get_config(&["programname".to_string(), "permutations".to_string(), ".-".to_string()]),
        Ok(Config {
            method: Method::Permutations,
            word: Some(".-".to_string())
        })
    );
    assert_eq!(
        get_config(&[
            "programname".to_string(),
            "permutations".to_string(),
            ".-".to_string(),
            "extra".to_string()
        ]),
        Err("Too many arguments")
    );
    assert_eq!(
        get_config(&["programname".to_string()]),
        Err("Not enough arguments")
    );
    assert_eq!(
        get_config(&["programname".to_string(), "encode".to_string()]),
        Err("Wrong number of arguments, must be 2")
    );
}
