//! Finding the perfectly balanced words: codes with as many dots as dashes.
use vstd::prelude::*;

use crate::decode::{all_words_to_smooshedmerse, word_merse};
use crate::merses::MorseError;
use crate::model::all_ascii_alpha;

verus! {

/// Only words of this many letters are considered.
pub const LETTERS_NUMBER: usize = 21;

/// How many dashes a code holds.
pub open spec fn count_true(s: Seq<bool>) -> nat {
    s.filter(|x: bool| x).len()
}

/// A code is perfectly balanced when its dots and dashes are equally many.
pub open spec fn balanced(s: Seq<bool>) -> bool {
    2 * count_true(s) == s.len()
}

/// The positions, in order, of the codes that satisfy the predicate.
pub open spec fn positions_matching(words: Seq<Seq<bool>>, pred: spec_fn(Seq<bool>) -> bool) -> Seq<
    int,
>
    decreases words.len(),
{
    if words.len() == 0 {
        Seq::empty()
    } else {
        let rest = positions_matching(words.drop_last(), pred);
        if pred(words.last()) {
            rest.push(words.len() - 1)
        } else {
            rest
        }
    }
}

/// Collecting the words at the matching positions of their codes is
/// filtering the word list by the predicate on the encoding.
pub proof fn lemma_positions_filter(
    strs: Seq<Seq<char>>,
    merses: Seq<Seq<bool>>,
    pred: spec_fn(Seq<bool>) -> bool,
    wpred: spec_fn(Seq<char>) -> bool,
)
    requires
        strs.len() == merses.len(),
        forall|i: int| 0 <= i < strs.len() ==> merses[i] == word_merse(#[trigger] strs[i]),
        forall|w: Seq<char>| #[trigger] wpred(w) == pred(word_merse(w)),
    ensures
        positions_matching(merses, pred).map_values(|u: int| strs[u]) == strs.filter(wpred),
        forall|k: int|
            0 <= k < positions_matching(merses, pred).len() ==> 0 <= #[trigger] positions_matching(
                merses,
                pred,
            )[k] < strs.len(),
    decreases strs.len(),
{
    reveal(Seq::filter);
    if strs.len() == 0 {
        assert(positions_matching(merses, pred).map_values(|u: int| strs[u]) =~= strs.filter(
            wpred,
        ));
    } else {
        lemma_positions_filter(strs.drop_last(), merses.drop_last(), pred, wpred);
        let rest = positions_matching(merses.drop_last(), pred);
        assert(rest.map_values(|u: int| strs.drop_last()[u]) == strs.drop_last().filter(wpred));
        assert(rest.map_values(|u: int| strs[u]) =~= rest.map_values(
            |u: int| strs.drop_last()[u],
        ));
        assert(wpred(strs.last()) == pred(merses.last()));
        if pred(merses.last()) {
            assert(positions_matching(merses, pred) == rest.push(merses.len() - 1));
            assert(positions_matching(merses, pred).map_values(|u: int| strs[u]) =~= strs.filter(
                wpred,
            ));
        } else {
            assert(positions_matching(merses, pred).map_values(|u: int| strs[u]) =~= strs.filter(
                wpred,
            ));
        }
    }
}

/// The words of exactly the given letter count, in order.
pub fn filter_words_by_lenght(words: Vec<String>, letters: usize) -> (r: Vec<String>)
    ensures
        r.deep_view() == words.deep_view().filter(|w: Seq<char>| w.len() == letters),
{
    let mut given_lenght_words: Vec<String> = Vec::new();
    let mut k: usize = 0;
    while k < words.len()
        invariant
            0 <= k <= words@.len(),
            words.deep_view().len() == words@.len(),
            forall|i: int|
                0 <= i < words@.len() ==> words.deep_view()[i] == #[trigger] words@[i]@,
            given_lenght_words.deep_view() =~= words.deep_view().take(k as int).filter(
                |w: Seq<char>| w.len() == letters,
            ),
        decreases words@.len() - k,
    {
        let word = &words[k];
        let letterscount: usize = word.as_str().unicode_len();
        proof {
            reveal(Seq::filter);
            assert(words.deep_view().take(k + 1).drop_last() =~= words.deep_view().take(k as int));
            assert(words.deep_view().take(k + 1).last() == words@[k as int]@);
        }
        if letterscount == letters {
            given_lenght_words.push(word.clone());
        }
        k = k + 1;
    }
    proof {
        assert(words.deep_view().take(words@.len() as int) =~= words.deep_view());
    }
    given_lenght_words
}

/// True when the code has as many dots as dashes.
pub fn is_balanced(smooshedmerse: &[bool]) -> (r: bool)
    ensures
        r == balanced(smooshedmerse@),
{
    let mut dotcount: usize = 0;
    let mut dashcount: usize = 0;
    let mut k: usize = 0;
    while k < smooshedmerse.len()
        invariant
            0 <= k <= smooshedmerse@.len(),
            dashcount == count_true(smooshedmerse@.take(k as int)),
            dotcount + dashcount == k,
        decreases smooshedmerse@.len() - k,
    {
        proof {
            reveal(Seq::filter);
            assert(smooshedmerse@.take(k + 1).drop_last() =~= smooshedmerse@.take(k as int));
            assert(smooshedmerse@.take(k + 1).last() == smooshedmerse@[k as int]);
        }
        if smooshedmerse[k] {
            dashcount = dashcount + 1;
        } else {
            dotcount = dotcount + 1;
        }
        k = k + 1;
    }
    proof {
        assert(smooshedmerse@.take(smooshedmerse@.len() as int) =~= smooshedmerse@);
    }
    dotcount == dashcount
}

/// The positions, in order, of the balanced codes.
pub fn find_balanced(smooshedmerses: &[Vec<bool>]) -> (r: Vec<usize>)
    ensures
        r@.map_values(|u: usize| u as int) == positions_matching(
            smooshedmerses.deep_view(),
            |s: Seq<bool>| balanced(s),
        ),
{
    let mut indexes: Vec<usize> = Vec::new();
    let mut k: usize = 0;
    while k < smooshedmerses.len()
        invariant
            0 <= k <= smooshedmerses@.len(),
            smooshedmerses.deep_view().len() == smooshedmerses@.len(),
            forall|i: int|
                0 <= i < smooshedmerses@.len() ==> smooshedmerses.deep_view()[i]
                    == #[trigger] smooshedmerses@[i]@,
            indexes@.map_values(|u: usize| u as int) == positions_matching(
                smooshedmerses.deep_view().take(k as int),
                |s: Seq<bool>| balanced(s),
            ),
        decreases smooshedmerses@.len() - k,
    {
        proof {
            assert(smooshedmerses.deep_view().take(k + 1).drop_last() =~= smooshedmerses
                .deep_view().take(k as int));
            assert(smooshedmerses.deep_view().take(k + 1).last() == smooshedmerses@[k as int]@);
        }
        if is_balanced(smooshedmerses[k].as_slice()) {
            indexes.push(k);
            proof {
                assert(indexes@.map_values(|u: usize| u as int) =~= positions_matching(
                    smooshedmerses.deep_view().take(k as int),
                    |s: Seq<bool>| balanced(s),
                ).push(k as int));
            }
        }
        proof {
            assert(indexes@.map_values(|u: usize| u as int) =~= positions_matching(
                smooshedmerses.deep_view().take(k + 1),
                |s: Seq<bool>| balanced(s),
            ));
        }
        k = k + 1;
    }
    proof {
        assert(smooshedmerses.deep_view().take(smooshedmerses@.len() as int) =~= smooshedmerses
            .deep_view());
    }
    indexes
}

/// Report the words of `LETTERS_NUMBER` letters whose codes are perfectly
/// balanced, in word list order.
pub fn run(all_words: &Vec<String>) -> (r: Result<Vec<String>, MorseError>)
    requires
        forall|i: int| 0 <= i < all_words@.len() ==> all_ascii_alpha(#[trigger] all_words@[i]@),
    ensures
        r matches Ok(v) && v.deep_view() == all_words.deep_view().filter(
            |w: Seq<char>| w.len() == LETTERS_NUMBER,
        ).filter(|w: Seq<char>| balanced(word_merse(w))),
{
    let filtered_words = filter_words_by_lenght(clone_words(all_words), LETTERS_NUMBER);
    proof {
        crate::model::lemma_filter_membership(
            all_words.deep_view(),
            |w: Seq<char>| w.len() == LETTERS_NUMBER,
        );
        assert forall|i: int| 0 <= i < filtered_words@.len() implies all_ascii_alpha(
            (#[trigger] filtered_words@[i])@,
        ) by {
            assert(filtered_words.deep_view()[i] == filtered_words@[i]@);
            assert(all_words.deep_view().contains(filtered_words@[i]@));
            let j = choose|j: int|
                0 <= j < all_words.deep_view().len() && all_words.deep_view()[j]
                    == filtered_words@[i]@;
            assert(all_words@[j]@ == filtered_words@[i]@);
        }
    }
    let merse_words = all_words_to_smooshedmerse(filtered_words.as_slice());
    let balanced_merse: Vec<usize> = find_balanced(merse_words.as_slice());
    let ghost fstrs = filtered_words.deep_view();
    let ghost mp = positions_matching(merse_words.deep_view(), |s: Seq<bool>| balanced(s));
    proof {
        assert forall|i: int| 0 <= i < fstrs.len() implies merse_words.deep_view()[i] == word_merse(
            #[trigger] fstrs[i],
        ) by {
            assert(merse_words.deep_view()[i] =~= merse_words@[i]@);
            assert(fstrs[i] == filtered_words@[i]@);
        }
        lemma_positions_filter(
            fstrs,
            merse_words.deep_view(),
            |s: Seq<bool>| balanced(s),
            |w: Seq<char>| balanced(word_merse(w)),
        );
        assert forall|j: int| 0 <= j < balanced_merse@.len() implies (
        #[trigger] balanced_merse@[j]) < fstrs.len() && balanced_merse@[j] as int == mp[j] by {
            assert(balanced_merse@.map_values(|u: usize| u as int)[j] == balanced_merse@[j] as int);
        }
    }
    let mut balanced_words: Vec<String> = Vec::new();
    let mut k: usize = 0;
    while k < balanced_merse.len()
        invariant
            0 <= k <= balanced_merse@.len(),
            balanced_merse@.len() == mp.len(),
            fstrs == filtered_words.deep_view(),
            fstrs.len() == filtered_words@.len(),
            forall|i: int| 0 <= i < fstrs.len() ==> #[trigger] fstrs[i] == filtered_words@[i]@,
            forall|j: int|
                0 <= j < balanced_merse@.len() ==> (#[trigger] balanced_merse@[j]) < fstrs.len()
                    && balanced_merse@[j] as int == mp[j],
            balanced_words.deep_view() =~= mp.take(k as int).map_values(|u: int| fstrs[u]),
        decreases balanced_merse@.len() - k,
    {
        let i = balanced_merse[k];
        balanced_words.push(filtered_words[i].clone());
        proof {
            assert(mp.take(k + 1).drop_last() =~= mp.take(k as int));
            assert(mp.take(k + 1).map_values(|u: int| fstrs[u]) =~= mp.take(k as int).map_values(
                |u: int| fstrs[u],
            ).push(fstrs[mp[k as int]]));
            assert(balanced_words.deep_view() =~= mp.take(k + 1).map_values(|u: int| fstrs[u]));
        }
        k = k + 1;
    }
    proof {
        assert(mp.take(mp.len() as int) =~= mp);
        assert(balanced_words.deep_view() == fstrs.filter(
            |w: Seq<char>| balanced(word_merse(w)),
        ));
        assert(fstrs == all_words.deep_view().filter(|w: Seq<char>| w.len() == LETTERS_NUMBER));
        assert(balanced_words.deep_view() == all_words.deep_view().filter(
            |w: Seq<char>| w.len() == LETTERS_NUMBER,
        ).filter(|w: Seq<char>| balanced(word_merse(w))));
    }
    Ok(balanced_words)
}

/// A copy of the word list.
pub(crate) fn clone_words(words: &Vec<String>) -> (r: Vec<String>)
    ensures
        r@.len() == words@.len(),
        forall|i: int| 0 <= i < words@.len() ==> #[trigger] r@[i]@ == words@[i]@,
        r.deep_view() == words.deep_view(),
{
    let mut out: Vec<String> = Vec::new();
    let mut k: usize = 0;
    while k < words.len()
        invariant
            0 <= k <= words@.len(),
            out@.len() == k,
            forall|i: int| 0 <= i < k ==> #[trigger] out@[i]@ == words@[i]@,
        decreases words@.len() - k,
    {
        out.push(words[k].clone());
        k = k + 1;
    }
    proof {
        assert(out.deep_view() =~= words.deep_view());
    }
    out
}

} // verus!
