//! The Morse code table at the level of dot/dash character strings.
use vstd::prelude::*;

use crate::merses::{char_to_merse, merse_to_morse, MorseError};
use crate::model::{
    alphabet_spec, decode_morse, decode_morse_from, is_ascii_alpha, morse_code, to_lower,
    valid_morse,
};
use vstd::string::StringExecFns;

verus! {

/// The lowercase alphabet, in order.
pub fn alphabet() -> (r: Vec<char>)
    ensures
        r@ == alphabet_spec(),
{
    let mut v: Vec<char> = Vec::new();
    v.push('a');
    v.push('b');
    v.push('c');
    v.push('d');
    v.push('e');
    v.push('f');
    v.push('g');
    v.push('h');
    v.push('i');
    v.push('j');
    v.push('k');
    v.push('l');
    v.push('m');
    v.push('n');
    v.push('o');
    v.push('p');
    v.push('q');
    v.push('r');
    v.push('s');
    v.push('t');
    v.push('u');
    v.push('v');
    v.push('w');
    v.push('x');
    v.push('y');
    v.push('z');
    proof {
        assert(v@ =~= alphabet_spec());
    }
    v
}

/// Every letter with its morse string, in alphabet order.
pub fn get_morse_code() -> (r: Vec<(char, String)>)
    ensures
        r@.len() == 26,
        forall|i: int|
            0 <= i < 26 ==> (#[trigger] r@[i]).0 == alphabet_spec()[i] && r@[i].1@ == morse_code(
                alphabet_spec()[i],
            ),
{
    let letters = alphabet();
    proof {
        crate::model::lemma_alphabet_facts();
    }
    let mut pairs: Vec<(char, String)> = Vec::new();
    let mut i: usize = 0;
    while i < 26
        invariant
            0 <= i <= 26,
            letters@ == alphabet_spec(),
            alphabet_spec().len() == 26,
            forall|j: int| 0 <= j < 26 ==> crate::model::is_lower_alpha(#[trigger] alphabet_spec()[j]),
            pairs@.len() == i,
            forall|j: int|
                0 <= j < i ==> (#[trigger] pairs@[j]).0 == alphabet_spec()[j] && pairs@[j].1@
                    == morse_code(alphabet_spec()[j]),
        decreases 26 - i,
    {
        let c = letters[i];
        pairs.push((c, char_to_morse(c)));
        i = i + 1;
    }
    pairs
}

/// The morse string of a letter; uppercase letters use their lowercase code.
pub fn char_to_morse(ch: char) -> (r: String)
    requires
        is_ascii_alpha(ch),
    ensures
        r@ == morse_code(to_lower(ch)),
{
    let bits = match char_to_merse(ch) {
        Ok(v) => v,
        Err(_) => {
            proof {
                assert(false);
            }
            Vec::new()
        },
    };
    merse_to_morse(bits.as_slice())
}

/// The letter whose morse string matches, searched in alphabet order.
pub fn morse_to_char(morse_ch: &str) -> (r: Option<char>)
    ensures
        r == decode_morse(morse_ch@),
{
    let target = String::from_str(morse_ch);
    let letters = alphabet();
    proof {
        crate::model::lemma_alphabet_facts();
    }
    let mut i: usize = 0;
    while i < 26
        invariant
            0 <= i <= 26,
            target@ == morse_ch@,
            letters@ == alphabet_spec(),
            alphabet_spec().len() == 26,
            forall|j: int| 0 <= j < 26 ==> crate::model::is_lower_alpha(#[trigger] alphabet_spec()[j]),
            decode_morse_from(morse_ch@, i as int) == decode_morse(morse_ch@),
        decreases 26 - i,
    {
        let c = letters[i];
        let code = char_to_morse(c);
        if code == target {
            return Some(c);
        }
        i = i + 1;
    }
    None
}

/// A valid morse string contains only dots and dashes; the first other
/// character is reported as invalid.
pub fn validate_morse_str(morse_str: &str) -> (r: Result<(), MorseError>)
    ensures
        r is Ok <==> valid_morse(morse_str@),
        !valid_morse(morse_str@) ==> exists|i: int|
            {
                &&& 0 <= i < morse_str@.len()
                &&& !crate::model::is_morse_symbol(morse_str@[i])
                &&& (forall|j: int|
                    0 <= j < i ==> crate::model::is_morse_symbol(#[trigger] morse_str@[j]))
                &&& r matches Err(e) && e == MorseError::InvalidMorseChar(morse_str@[i])
            },
{
    match crate::merses::morse_char_to_merse(morse_str) {
        Ok(_) => Ok(()),
        Err(e) => Err(e),
    }
}

} // verus!
