//! Encoding words to smooshed morse: the letters' codes run together
//! with no separator.
use vstd::prelude::*;

use crate::merses::{char_to_merse, merse_to_morse};
use crate::model::{
    all_ascii_alpha, is_ascii_alpha, lower_seq, merse_code, morse_of_merse, smooshed, to_lower,
};

verus! {

#[derive(Debug)]
pub enum EncodeError {
    NotAsciiAlphabetic,
}

/// A word can be encoded only if every character is an ASCII letter.
pub fn validate_ascii(word: &str) -> (r: Result<(), EncodeError>)
    ensures
        r is Ok <==> all_ascii_alpha(word@),
        r is Err ==> r == Err::<(), EncodeError>(EncodeError::NotAsciiAlphabetic),
{
    let n = word.unicode_len();
    let mut k: usize = 0;
    while k < n
        invariant
            n == word@.len(),
            0 <= k <= n,
            forall|j: int| 0 <= j < k ==> is_ascii_alpha(#[trigger] word@[j]),
        decreases n - k,
    {
        let ch = word.get_char(k);
        let u = ch as u32;
        if !((u >= 97 && u <= 122) || (u >= 65 && u <= 90)) {
            proof {
                assert(!is_ascii_alpha(word@[k as int]));
            }
            return Err(EncodeError::NotAsciiAlphabetic);
        }
        k = k + 1;
    }
    Ok(())
}

/// The smooshed encoding of a word, as bits.
pub fn word_to_smooshedmerse(word: &str) -> (r: Result<Vec<bool>, EncodeError>)
    ensures
        all_ascii_alpha(word@) ==> (r matches Ok(v) && v@ == smooshed(lower_seq(word@))),
        !all_ascii_alpha(word@) ==> r == Err::<Vec<bool>, EncodeError>(
            EncodeError::NotAsciiAlphabetic,
        ),
{
    match validate_ascii(word) {
        Ok(_) => {},
        Err(e) => {
            return Err(e);
        },
    }
    let n = word.unicode_len();
    let mut encoded: Vec<bool> = Vec::new();
    let mut k: usize = 0;
    while k < n
        invariant
            n == word@.len(),
            0 <= k <= n,
            all_ascii_alpha(word@),
            encoded@ == smooshed(lower_seq(word@.take(k as int))),
        decreases n - k,
    {
        let ch = word.get_char(k);
        let mut bits = match char_to_merse(ch) {
            Ok(v) => v,
            Err(_) => {
                proof {
                    assert(false);
                }
                Vec::new()
            },
        };
        proof {
            crate::model::lemma_smooshed_push(lower_seq(word@.take(k as int)), to_lower(ch));
            assert(lower_seq(word@.take(k + 1)) =~= lower_seq(word@.take(k as int)).push(
                to_lower(ch),
            ));
        }
        encoded.append(&mut bits);
        proof {
            assert(encoded@ =~= smooshed(lower_seq(word@.take(k + 1))));
        }
        k = k + 1;
    }
    proof {
        assert(word@.take(n as int) =~= word@);
    }
    Ok(encoded)
}

/// The smooshed encoding of a word, as a string of dots and dashes.
pub fn word_to_smooshedmorse(word: &str) -> (r: Result<String, EncodeError>)
    ensures
        all_ascii_alpha(word@) ==> (r matches Ok(s) && s@ == morse_of_merse(
            smooshed(lower_seq(word@)),
        )),
        !all_ascii_alpha(word@) ==> r == Err::<String, EncodeError>(
            EncodeError::NotAsciiAlphabetic,
        ),
{
    let merse = match word_to_smooshedmerse(word) {
        Ok(v) => v,
        Err(e) => {
            return Err(e);
        },
    };
    Ok(merse_to_morse(merse.as_slice()))
}

/// Encode a word; the single smooshed morse string is returned in a vector.
pub fn encode(word: &str) -> (r: Result<Vec<String>, EncodeError>)
    ensures
        all_ascii_alpha(word@) ==> (r matches Ok(v) && v@.len() == 1 && v@[0]@ == morse_of_merse(
            smooshed(lower_seq(word@)),
        )),
        !all_ascii_alpha(word@) ==> r == Err::<Vec<String>, EncodeError>(
            EncodeError::NotAsciiAlphabetic,
        ),
{
    let smooshedmerse = match word_to_smooshedmerse(word) {
        Ok(v) => v,
        Err(e) => {
            return Err(e);
        },
    };
    let morse = merse_to_morse(smooshedmerse.as_slice());
    let mut out: Vec<String> = Vec::new();
    out.push(morse);
    Ok(out)
}

} // verus!
