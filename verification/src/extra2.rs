//! Finding the word whose code has a long run of consecutive dashes.
use vstd::prelude::*;

use crate::decode::{all_words_to_smooshedmerse, word_merse};
use crate::merses::{merse_to_morse, MorseError};
use crate::model::{all_ascii_alpha, morse_of_merse};

verus! {

/// How many dashes in a row the search looks for.
pub const DASHES_NUMBER_SEARCHED: usize = 15;

/// The bits from `i` on, for a length of `n`, are all dashes.
pub open spec fn all_dashes(s: Seq<bool>, i: int, n: int) -> bool {
    forall|k: int| i <= k < i + n ==> s[k]
}

/// The code holds somewhere a run of `n` consecutive dashes.
pub open spec fn has_dash_run(s: Seq<bool>, n: int) -> bool {
    exists|i: int| 0 <= i && i + n <= s.len() && all_dashes(s, i, n)
}

/// The length of the longest run of consecutive dashes.
pub fn count_consecutive_dashes(merse_word: &[bool]) -> (r: usize)
    ensures
        0 <= r <= merse_word@.len(),
        has_dash_run(merse_word@, r as int),
        forall|n: int| has_dash_run(merse_word@, n) ==> n <= r,
{
    let mut count: usize = 0;
    let mut higher_count: usize = 0;
    let mut k: usize = 0;
    proof {
        assert(all_dashes(merse_word@, 0, 0));
    }
    while k < merse_word.len()
        invariant
            0 <= k <= merse_word@.len(),
            count <= k,
            higher_count <= k,
            all_dashes(merse_word@, k - count, count as int),
            count == k || !merse_word@[k - count - 1],
            has_dash_run(merse_word@, higher_count as int),
            count <= higher_count,
            forall|i: int, n: int|
                0 <= i && n >= 0 && i + n <= k && all_dashes(merse_word@, i, n) ==> n
                    <= higher_count,
        decreases merse_word@.len() - k,
    {
        if merse_word[k] {
            count = count + 1;
        } else {
            count = 0;
        }
        if count >= higher_count {
            higher_count = count;
        }
        proof {
            assert(all_dashes(merse_word@, k + 1 - count, count as int));
            assert forall|i: int, n: int|
                0 <= i && n >= 0 && i + n <= k + 1 && all_dashes(
                    merse_word@,
                    i,
                    n,
                ) implies n <= higher_count by {
                if i + n == k + 1 && n > 0 {
                    assert(merse_word@[k as int]);
                    assert(i >= k + 1 - count) by {
                        if i < k + 1 - count {
                            assert(merse_word@[k - count]);
                        }
                    }
                }
            }
        }
        k = k + 1;
    }
    higher_count
}

/// The first code of the list with a run of at least
/// `DASHES_NUMBER_SEARCHED` dashes, if any.
pub fn find_first_with_many_dashes(all_merse_words: &[Vec<bool>]) -> (r: Option<&Vec<bool>>)
    ensures
        r matches Some(w) ==> exists|i: int|
            0 <= i < all_merse_words@.len() && w@ == (#[trigger] all_merse_words@[i])@
                && has_dash_run(all_merse_words@[i]@, DASHES_NUMBER_SEARCHED as int) && (forall|
            j: int,
        |
            0 <= j < i ==> !has_dash_run(
                (#[trigger] all_merse_words@[j])@,
                DASHES_NUMBER_SEARCHED as int,
            )),
        r is None ==> forall|j: int|
            0 <= j < all_merse_words@.len() ==> !has_dash_run(
                (#[trigger] all_merse_words@[j])@,
                DASHES_NUMBER_SEARCHED as int,
            ),
{
    let mut k: usize = 0;
    while k < all_merse_words.len()
        invariant
            0 <= k <= all_merse_words@.len(),
            forall|j: int|
                0 <= j < k ==> !has_dash_run(
                    (#[trigger] all_merse_words@[j])@,
                    DASHES_NUMBER_SEARCHED as int,
                ),
        decreases all_merse_words@.len() - k,
    {
        let word = &all_merse_words[k];
        let run = count_consecutive_dashes(word.as_slice());
        if run >= DASHES_NUMBER_SEARCHED {
            proof {
                let i0 = choose|i: int|
                    0 <= i && i + run <= word@.len() && all_dashes(word@, i, run as int);
                assert(all_dashes(word@, i0, DASHES_NUMBER_SEARCHED as int));
                assert(has_dash_run(word@, DASHES_NUMBER_SEARCHED as int));
                assert(word@ == (all_merse_words@[k as int])@);
            }
            return Some(word);
        }
        k = k + 1;
    }
    None
}

/// Report, as a morse string, the code of the first word of the list
/// whose code runs to at least `DASHES_NUMBER_SEARCHED` dashes in a row.
/// The list must hold such a word.
pub fn run(all_words: &Vec<String>) -> (r: Result<Vec<String>, MorseError>)
    requires
        forall|i: int| 0 <= i < all_words@.len() ==> all_ascii_alpha(#[trigger] all_words@[i]@),
        exists|i: int|
            0 <= i < all_words@.len() && has_dash_run(
                word_merse((#[trigger] all_words@[i])@),
                DASHES_NUMBER_SEARCHED as int,
            ),
    ensures
        r matches Ok(v) && v@.len() == 1 && exists|i: int|
            {
                &&& 0 <= i < all_words@.len()
                &&& has_dash_run(
                    word_merse((#[trigger] all_words@[i])@),
                    DASHES_NUMBER_SEARCHED as int,
                )
                &&& forall|j: int|
                    0 <= j < i ==> !has_dash_run(
                        word_merse((#[trigger] all_words@[j])@),
                        DASHES_NUMBER_SEARCHED as int,
                    )
                &&& v@[0]@ == morse_of_merse(word_merse(all_words@[i]@))
            },
{
    let all_merse_words = all_words_to_smooshedmerse(all_words.as_slice());
    let many_dashes_word: &Vec<bool> = match find_first_with_many_dashes(
        all_merse_words.as_slice(),
    ) {
        Some(w) => w,
        None => {
            proof {
                let i = choose|i: int|
                    0 <= i < all_words@.len() && has_dash_run(
                        word_merse((#[trigger] all_words@[i])@),
                        DASHES_NUMBER_SEARCHED as int,
                    );
                assert(all_merse_words@[i]@ == word_merse(all_words@[i]@));
                assert(false);
            }
            return Err(MorseError::InvalidMorseChar(' '));
        },
    };
    proof {
        let i = choose|i: int|
            0 <= i < all_merse_words@.len() && many_dashes_word@ == (
            #[trigger] all_merse_words@[i])@ && has_dash_run(
                all_merse_words@[i]@,
                DASHES_NUMBER_SEARCHED as int,
            ) && (forall|j: int|
                0 <= j < i ==> !has_dash_run(
                    (#[trigger] all_merse_words@[j])@,
                    DASHES_NUMBER_SEARCHED as int,
                ));
        assert(all_merse_words@[i]@ == word_merse(all_words@[i]@));
        assert(forall|j: int|
            0 <= j < i ==> (#[trigger] all_merse_words@[j])@ == word_merse(all_words@[j]@));
        assert(has_dash_run(word_merse(all_words@[i]@), DASHES_NUMBER_SEARCHED as int));
        assert forall|j: int| 0 <= j < i implies !has_dash_run(
            word_merse((#[trigger] all_words@[j])@),
            DASHES_NUMBER_SEARCHED as int,
        ) by {
            assert((all_merse_words@[j])@ == word_merse(all_words@[j]@));
            assert(!has_dash_run((all_merse_words@[j])@, DASHES_NUMBER_SEARCHED as int));
        }
        assert(many_dashes_word@ == word_merse(all_words@[i]@));
    }
    let morse_many_dashes_word: String = merse_to_morse(many_dashes_word.as_slice());
    let mut out: Vec<String> = Vec::new();
    out.push(morse_many_dashes_word);
    Ok(out)
}

} // verus!
