//! Turning command line words into a configuration: a verb picks the
//! method, and the verbs that work on a word take exactly one.
use vstd::prelude::*;

use vstd::string::StringExecFns;

verus! {

#[derive(Debug, PartialEq, Eq, Structural)]
pub enum Method {
    Encode,
    Decode,
    Extra1,
    Extra2,
    Extra3,
    Extra4,
    Permutations,
}

#[derive(Debug)]
pub struct Config {
    pub method: Method,
    pub word: Option<String>,
}

impl PartialEq for Config {
    /// Configurations are equal when the methods match and the words, if
    /// any, hold the same characters.
    fn eq(&self, other: &Config) -> (r: bool) {
        let m = self.method == other.method;
        let w = match (&self.word, &other.word) {
            (Option::None, Option::None) => true,
            (Option::Some(a), Option::Some(b)) => *a == *b,
            _ => false,
        };
        m && w
    }
}

impl vstd::std_specs::cmp::PartialEqSpecImpl for Config {
    open spec fn obeys_eq_spec() -> bool {
        true
    }

    open spec fn eq_spec(&self, other: &Config) -> bool {
        &&& self.method == other.method
        &&& (self.word is None <==> other.word is None)
        &&& (self.word matches Some(a) ==> (other.word matches Some(b) && a@ == b@))
    }
}

/// True when the two strings hold the same characters.
fn str_eq(a: &str, b: &str) -> (r: bool)
    ensures
        r == (a@ == b@),
{
    let sa = String::from_str(a);
    let sb = String::from_str(b);
    sa == sb
}

/// The configuration that the command line words ask for: the first word
/// after the program name picks the method; encoding and decoding take
/// exactly one more word, a permutation search at most one.
pub fn get_config(args: &[String]) -> (r: Result<Config, &'static str>)
    ensures
        args@.len() < 2 ==> (r matches Err(e) && e@ == "Not enough arguments"@),
        args@.len() >= 2 && args@[1]@ == "encode"@ ==> {
            if args@.len() == 3 {
                r matches Ok(c) && c.method == Method::Encode && (c.word matches Some(w) && w@
                    == args@[2]@)
            } else {
                r matches Err(e) && e@ == "Wrong number of arguments, must be 2"@
            }
        },
        args@.len() >= 2 && args@[1]@ == "decode"@ ==> {
            if args@.len() == 3 {
                r matches Ok(c) && c.method == Method::Decode && (c.word matches Some(w) && w@
                    == args@[2]@)
            } else {
                r matches Err(e) && e@ == "Wrong number of arguments, must be 2"@
            }
        },
        args@.len() >= 2 && args@[1]@ == "extra1"@ ==> (r matches Ok(c) && c.method
            == Method::Extra1 && c.word is None),
        args@.len() >= 2 && args@[1]@ == "extra2"@ ==> (r matches Ok(c) && c.method
            == Method::Extra2 && c.word is None),
        args@.len() >= 2 && args@[1]@ == "extra3"@ ==> (r matches Ok(c) && c.method
            == Method::Extra3 && c.word is None),
        args@.len() >= 2 && args@[1]@ == "extra4"@ ==> (r matches Ok(c) && c.method
            == Method::Extra4 && c.word is None),
        args@.len() >= 2 && args@[1]@ == "permutations"@ ==> {
            if args@.len() == 2 {
                r matches Ok(c) && c.method == Method::Permutations && c.word is None
            } else if args@.len() == 3 {
                r matches Ok(c) && c.method == Method::Permutations && (c.word matches Some(w)
                    && w@ == args@[2]@)
            } else {
                r matches Err(e) && e@ == "Too many arguments"@
            }
        },
        args@.len() >= 2 && args@[1]@ != "encode"@ && args@[1]@ != "decode"@ && args@[1]@
            != "extra1"@ && args@[1]@ != "extra2"@ && args@[1]@ != "extra3"@ && args@[1]@
            != "extra4"@ && args@[1]@ != "permutations"@ ==> (r matches Err(e) && e@
            == "Wrong verb argument"@),
{
    proof {
        reveal_strlit("encode");
        reveal_strlit("decode");
        reveal_strlit("extra1");
        reveal_strlit("extra2");
        reveal_strlit("extra3");
        reveal_strlit("extra4");
        reveal_strlit("permutations");
        assert("encode"@[0] == 'e' && "encode"@[1] == 'n');
        assert("decode"@[0] == 'd');
        assert("extra1"@[0] == 'e' && "extra1"@[1] == 'x' && "extra1"@[5] == '1');
        assert("extra2"@[0] == 'e' && "extra2"@[1] == 'x' && "extra2"@[5] == '2');
        assert("extra3"@[0] == 'e' && "extra3"@[1] == 'x' && "extra3"@[5] == '3');
        assert("extra4"@[0] == 'e' && "extra4"@[1] == 'x' && "extra4"@[5] == '4');
        assert("permutations"@[0] == 'p');
        assert("encode"@ != "decode"@);
        assert("encode"@ != "extra1"@);
        assert("encode"@ != "extra2"@);
        assert("encode"@ != "extra3"@);
        assert("encode"@ != "extra4"@);
        assert("encode"@ != "permutations"@);
        assert("decode"@ != "extra1"@);
        assert("decode"@ != "extra2"@);
        assert("decode"@ != "extra3"@);
        assert("decode"@ != "extra4"@);
        assert("decode"@ != "permutations"@);
        assert("extra1"@ != "extra2"@);
        assert("extra1"@ != "extra3"@);
        assert("extra1"@ != "extra4"@);
        assert("extra1"@ != "permutations"@);
        assert("extra2"@ != "extra3"@);
        assert("extra2"@ != "extra4"@);
        assert("extra2"@ != "permutations"@);
        assert("extra3"@ != "extra4"@);
        assert("extra3"@ != "permutations"@);
        assert("extra4"@ != "permutations"@);
    }
    if args.len() < 2 {
        return Err("Not enough arguments");
    }
    let verb = args[1].as_str();
    if str_eq(verb, "encode") {
        if args.len() != 3 {
            return Err("Wrong number of arguments, must be 2");
        }
        Ok(Config { method: Method::Encode, word: Some(args[2].clone()) })
    } else if str_eq(verb, "decode") {
        if args.len() != 3 {
            return Err("Wrong number of arguments, must be 2");
        }
        Ok(Config { method: Method::Decode, word: Some(args[2].clone()) })
    } else if str_eq(verb, "extra1") {
        Ok(Config { method: Method::Extra1, word: None })
    } else if str_eq(verb, "extra2") {
        Ok(Config { method: Method::Extra2, word: None })
    } else if str_eq(verb, "extra3") {
        Ok(Config { method: Method::Extra3, word: None })
    } else if str_eq(verb, "extra4") {
        Ok(Config { method: Method::Extra4, word: None })
    } else if str_eq(verb, "permutations") {
        let w: Option<String> = if args.len() == 3 {
            Some(args[2].clone())
        } else if args.len() == 2 {
            None
        } else {
            return Err("Too many arguments");
        };
        Ok(Config { method: Method::Permutations, word: w })
    } else {
        Err("Wrong verb argument")
    }
}

} // verus!
