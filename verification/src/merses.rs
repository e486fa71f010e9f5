//! "merse": memory efficient morse. A dot is `false`, a dash is `true`.
use vstd::prelude::*;

use crate::model::{
    alphabet_spec, decode_merse, decode_merse_from, is_ascii_alpha, is_lower_alpha,
    is_morse_symbol, merse_code, merse_of_morse, morse_of_merse, symbol_of_bit, to_lower,
    valid_morse,
};

verus! {

#[derive(Debug)]
pub enum MorseError {
    InvalidMorseChar(char),
}

/// The merse code of one letter; uppercase letters use their lowercase code.
pub fn char_to_merse(ch: char) -> (r: Result<Vec<bool>, MorseError>)
    requires
        is_ascii_alpha(ch),
    ensures
        r matches Ok(v) && v@ == merse_code(to_lower(ch)),
{
    let bits: Vec<bool> = match ch {
        'a' | 'A' => vec![false, true],
        'b' | 'B' => vec![true, false, false, false],
        'c' | 'C' => vec![true, false, true, false],
        'd' | 'D' => vec![true, false, false],
        'e' | 'E' => vec![false],
        'f' | 'F' => vec![false, false, true, false],
        'g' | 'G' => vec![true, true, false],
        'h' | 'H' => vec![false, false, false, false],
        'i' | 'I' => vec![false, false],
        'j' | 'J' => vec![false, true, true, true],
        'k' | 'K' => vec![true, false, true],
        'l' | 'L' => vec![false, true, false, false],
        'm' | 'M' => vec![true, true],
        'n' | 'N' => vec![true, false],
        'o' | 'O' => vec![true, true, true],
        'p' | 'P' => vec![false, true, true, false],
        'q' | 'Q' => vec![true, true, false, true],
        'r' | 'R' => vec![false, true, false],
        's' | 'S' => vec![false, false, false],
        't' | 'T' => vec![true],
        'u' | 'U' => vec![false, false, true],
        'v' | 'V' => vec![false, false, false, true],
        'w' | 'W' => vec![false, true, true],
        'x' | 'X' => vec![true, false, false, true],
        'y' | 'Y' => vec![true, false, true, true],
        _ => vec![true, true, false, false],
    };
    Ok(bits)
}

/// Read a morse string as bits; the first character that is neither
/// a dot nor a dash is reported as invalid.
pub fn morse_char_to_merse(morse_char: &str) -> (r: Result<Vec<bool>, MorseError>)
    ensures
        valid_morse(morse_char@) ==> (r matches Ok(v) && v@ == merse_of_morse(morse_char@)),
        !valid_morse(morse_char@) ==> exists|i: int|
            {
                &&& 0 <= i < morse_char@.len()
                &&& !is_morse_symbol(morse_char@[i])
                &&& (forall|j: int| 0 <= j < i ==> is_morse_symbol(#[trigger] morse_char@[j]))
                &&& r matches Err(e) && e == MorseError::InvalidMorseChar(morse_char@[i])
            },
{
    let n = morse_char.unicode_len();
    let mut merse_chars: Vec<bool> = Vec::new();
    let mut k: usize = 0;
    while k < n
        invariant
            n == morse_char@.len(),
            0 <= k <= n,
            merse_chars@ == merse_of_morse(morse_char@.take(k as int)),
            forall|j: int| 0 <= j < k ==> is_morse_symbol(#[trigger] morse_char@[j]),
        decreases n - k,
    {
        let ch = morse_char.get_char(k);
        if ch == '.' {
            merse_chars.push(false);
        } else if ch == '-' {
            merse_chars.push(true);
        } else {
            return Err(MorseError::InvalidMorseChar(ch));
        }
        proof {
            assert(morse_char@.take(k + 1) =~= morse_char@.take(k as int).push(ch));
            assert(merse_of_morse(morse_char@.take(k + 1)) =~= merse_of_morse(
                morse_char@.take(k as int),
            ).push(ch == '-'));
        }
        k = k + 1;
    }
    proof {
        assert(morse_char@.take(n as int) =~= morse_char@);
    }
    Ok(merse_chars)
}

/// Print bits as a morse string of dots and dashes.
pub fn merse_to_morse(merse: &[bool]) -> (r: String)
    ensures
        r@ == morse_of_merse(merse@),
{
    let mut morse = String::new();
    let mut k: usize = 0;
    while k < merse.len()
        invariant
            0 <= k <= merse@.len(),
            morse@ == morse_of_merse(merse@.take(k as int)),
        decreases merse@.len() - k,
    {
        let b = merse[k];
        morse.push(if b { '-' } else { '.' });
        proof {
            assert(merse@.take(k + 1) =~= merse@.take(k as int).push(b));
            assert(morse_of_merse(merse@.take(k + 1)) =~= morse_of_merse(
                merse@.take(k as int),
            ).push(symbol_of_bit(b)));
        }
        k = k + 1;
    }
    proof {
        assert(merse@.take(merse@.len() as int) =~= merse@);
    }
    morse
}

/// A smooshed morse word, read as bits.
pub fn smooshedmorse_to_merse(word: &str) -> (r: Result<Vec<bool>, MorseError>)
    ensures
        valid_morse(word@) ==> (r matches Ok(v) && v@ == merse_of_morse(word@)),
        !valid_morse(word@) ==> exists|i: int|
            {
                &&& 0 <= i < word@.len()
                &&& !is_morse_symbol(word@[i])
                &&& (forall|j: int| 0 <= j < i ==> is_morse_symbol(#[trigger] word@[j]))
                &&& r matches Err(e) && e == MorseError::InvalidMorseChar(word@[i])
            },
{
    morse_char_to_merse(word)
}

/// The letter whose merse code matches, searched in alphabet order.
pub fn merse_to_char(merse_ch: Vec<bool>) -> (r: Result<Option<char>, MorseError>)
    ensures
        r matches Ok(d) && d == decode_merse(merse_ch@),
{
    let letters = crate::morses::alphabet();
    let mut i: usize = 0;
    while i < 26
        invariant
            0 <= i <= 26,
            letters@ == alphabet_spec(),
            decode_merse_from(merse_ch@, i as int) == decode_merse(merse_ch@),
        decreases 26 - i,
    {
        let c = letters[i];
        proof {
            crate::model::lemma_alphabet_facts();
        }
        let code = match char_to_merse(c) {
            Ok(v) => v,
            Err(e) => {
                return Err(e);
            },
        };
        if code == merse_ch {
            proof {
                assert(code@ =~= merse_ch@);
            }
            return Ok(Some(c));
        }
        proof {
            assert(code@ != merse_ch@) by {
                if code@ == merse_ch@ {
                    assert(forall|j: int| 0 <= j < code@.len() ==> code@[j] == merse_ch@[j]);
                }
            }
        }
        i = i + 1;
    }
    Ok(None)
}

/// Every letter with its merse code, in alphabet order.
pub fn get_merse_code() -> (r: Result<Vec<(char, Vec<bool>)>, MorseError>)
    ensures
        r matches Ok(v) && v@.len() == 26,
        r matches Ok(v) && forall|i: int|
            0 <= i < 26 ==> (#[trigger] v@[i]).0 == alphabet_spec()[i] && v@[i].1@ == merse_code(
                alphabet_spec()[i],
            ),
{
    let letters = crate::morses::alphabet();
    let mut pairs: Vec<(char, Vec<bool>)> = Vec::new();
    let mut i: usize = 0;
    while i < 26
        invariant
            0 <= i <= 26,
            letters@ == alphabet_spec(),
            pairs@.len() == i,
            forall|j: int|
                0 <= j < i ==> (#[trigger] pairs@[j]).0 == alphabet_spec()[j] && pairs@[j].1@
                    == merse_code(alphabet_spec()[j]),
        decreases 26 - i,
    {
        let c = letters[i];
        proof {
            crate::model::lemma_alphabet_facts();
        }
        let code = match char_to_merse(c) {
            Ok(v) => v,
            Err(e) => {
                return Err(e);
            },
        };
        pairs.push((c, code));
        i = i + 1;
    }
    Ok(pairs)
}

} // verus!
