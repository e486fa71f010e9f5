//! Finding the words whose codes read the same backwards.
use vstd::prelude::*;

use crate::decode::{all_words_to_smooshedmerse, word_merse};
use crate::extra3::{filter_words_by_lenght, lemma_positions_filter, positions_matching};
use crate::merses::MorseError;
use crate::model::all_ascii_alpha;

verus! {

/// Only words of this many letters are considered.
pub const LETTERS_NUMBER: usize = 6;

/// A code is a palindrome when it equals its own reversal.
pub open spec fn palindrome(s: Seq<bool>) -> bool {
    s == s.reverse()
}

/// True when the code reads the same backwards.
pub fn is_palindrome(smooshedmerse: &Vec<bool>) -> (r: bool)
    ensures
        r == palindrome(smooshedmerse@),
{
    let n = smooshedmerse.len();
    let mut k: usize = 0;
    while k < n
        invariant
            n == smooshedmerse@.len(),
            0 <= k <= n,
            forall|j: int| 0 <= j < k ==> #[trigger] smooshedmerse@[j] == smooshedmerse@[n - 1
                - j],
        decreases n - k,
    {
        if smooshedmerse[k] != smooshedmerse[n - 1 - k] {
            proof {
                assert(smooshedmerse@.reverse()[k as int] == smooshedmerse@[n - 1 - k]);
                assert(smooshedmerse@ != smooshedmerse@.reverse());
            }
            return false;
        }
        k = k + 1;
    }
    proof {
        assert(smooshedmerse@ =~= smooshedmerse@.reverse());
    }
    true
}

/// The positions, in order, of the palindrome codes.
pub fn find_palindrome(smooshedmerses: &Vec<Vec<bool>>) -> (r: Vec<usize>)
    ensures
        r@.map_values(|u: usize| u as int) == positions_matching(
            smooshedmerses.deep_view(),
            |s: Seq<bool>| palindrome(s),
        ),
{
    let mut indexes: Vec<usize> = Vec::new();
    let mut k: usize = 0;
    while k < smooshedmerses.len()
        invariant
            0 <= k <= smooshedmerses@.len(),
            smooshedmerses.deep_view().len() == smooshedmerses@.len(),
            forall|i: int|
                0 <= i < smooshedmerses@.len() ==> smooshedmerses.deep_view()[i]
                    == #[trigger] smooshedmerses@[i]@,
            indexes@.map_values(|u: usize| u as int) == positions_matching(
                smooshedmerses.deep_view().take(k as int),
                |s: Seq<bool>| palindrome(s),
            ),
        decreases smooshedmerses@.len() - k,
    {
        proof {
            assert(smooshedmerses.deep_view().take(k + 1).drop_last() =~= smooshedmerses
                .deep_view().take(k as int));
            assert(smooshedmerses.deep_view().take(k + 1).last() == smooshedmerses@[k as int]@);
        }
        if is_palindrome(&smooshedmerses[k]) {
            indexes.push(k);
            proof {
                assert(indexes@.map_values(|u: usize| u as int) =~= positions_matching(
                    smooshedmerses.deep_view().take(k as int),
                    |s: Seq<bool>| palindrome(s),
                ).push(k as int));
            }
        }
        proof {
            assert(indexes@.map_values(|u: usize| u as int) =~= positions_matching(
                smooshedmerses.deep_view().take(k + 1),
                |s: Seq<bool>| palindrome(s),
            ));
        }
        k = k + 1;
    }
    proof {
        assert(smooshedmerses.deep_view().take(smooshedmerses@.len() as int) =~= smooshedmerses
            .deep_view());
    }
    indexes
}

/// Report the words of `LETTERS_NUMBER` letters whose codes are
/// palindromes, in word list order.
pub fn run(all_words: &Vec<String>) -> (r: Result<Vec<String>, MorseError>)
    requires
        forall|i: int| 0 <= i < all_words@.len() ==> all_ascii_alpha(#[trigger] all_words@[i]@),
    ensures
        r matches Ok(v) && v.deep_view() == all_words.deep_view().filter(
            |w: Seq<char>| w.len() == LETTERS_NUMBER,
        ).filter(|w: Seq<char>| palindrome(word_merse(w))),
{
    let filtered_words = filter_words_by_lenght(crate::extra3::clone_words(all_words), LETTERS_NUMBER);
    proof {
        crate::model::lemma_filter_membership(
            all_words.deep_view(),
            |w: Seq<char>| w.len() == LETTERS_NUMBER,
        );
        assert forall|i: int| 0 <= i < filtered_words@.len() implies all_ascii_alpha(
            (#[trigger] filtered_words@[i])@,
        ) by {
            assert(filtered_words.deep_view()[i] == filtered_words@[i]@);
            assert(all_words.deep_view().contains(filtered_words@[i]@));
            let j = choose|j: int|
                0 <= j < all_words.deep_view().len() && all_words.deep_view()[j]
                    == filtered_words@[i]@;
            assert(all_words@[j]@ == filtered_words@[i]@);
        }
    }
    let merse_words = all_words_to_smooshedmerse(filtered_words.as_slice());
    let palindrome_merse: Vec<usize> = find_palindrome(&merse_words);
    let ghost fstrs = filtered_words.deep_view();
    let ghost mp = positions_matching(merse_words.deep_view(), |s: Seq<bool>| palindrome(s));
    proof {
        assert forall|i: int| 0 <= i < fstrs.len() implies merse_words.deep_view()[i] == word_merse(
            #[trigger] fstrs[i],
        ) by {
            assert(merse_words.deep_view()[i] =~= merse_words@[i]@);
            assert(fstrs[i] == filtered_words@[i]@);
        }
        lemma_positions_filter(
            fstrs,
            merse_words.deep_view(),
            |s: Seq<bool>| palindrome(s),
            |w: Seq<char>| palindrome(word_merse(w)),
        );
        assert forall|j: int| 0 <= j < palindrome_merse@.len() implies (
        #[trigger] palindrome_merse@[j]) < fstrs.len() && palindrome_merse@[j] as int == mp[j] by {
            assert(palindrome_merse@.map_values(|u: usize| u as int)[j] == palindrome_merse@[j] as int);
        }
    }
    let mut palindrome_words: Vec<String> = Vec::new();
    let mut k: usize = 0;
    while k < palindrome_merse.len()
        invariant
            0 <= k <= palindrome_merse@.len(),
            palindrome_merse@.len() == mp.len(),
            fstrs == filtered_words.deep_view(),
            fstrs.len() == filtered_words@.len(),
            forall|i: int| 0 <= i < fstrs.len() ==> #[trigger] fstrs[i] == filtered_words@[i]@,
            forall|j: int|
                0 <= j < palindrome_merse@.len() ==> (#[trigger] palindrome_merse@[j])
                    < fstrs.len() && palindrome_merse@[j] as int == mp[j],
            palindrome_words.deep_view() =~= mp.take(k as int).map_values(|u: int| fstrs[u]),
        decreases palindrome_merse@.len() - k,
    {
        let i = palindrome_merse[k];
        palindrome_words.push(filtered_words[i].clone());
        proof {
            assert(mp.take(k + 1).drop_last() =~= mp.take(k as int));
            assert(mp.take(k + 1).map_values(|u: int| fstrs[u]) =~= mp.take(k as int).map_values(
                |u: int| fstrs[u],
            ).push(fstrs[mp[k as int]]));
            assert(palindrome_words.deep_view() =~= mp.take(k + 1).map_values(|u: int| fstrs[u]));
        }
        k = k + 1;
    }
    proof {
        assert(mp.take(mp.len() as int) =~= mp);
        assert(palindrome_words.deep_view() == fstrs.filter(
            |w: Seq<char>| palindrome(word_merse(w)),
        ));
        assert(fstrs == all_words.deep_view().filter(|w: Seq<char>| w.len() == LETTERS_NUMBER));
    }
    Ok(palindrome_words)
}

} // verus!
