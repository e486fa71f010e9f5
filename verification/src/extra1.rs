//! Finding the codes that stand for the most words: every word of the
//! list is encoded, equal codes are counted, and the codes of the highest
//! count are reported as morse strings.
use vstd::prelude::*;

use crate::decode::{all_words_to_smooshedmerse, word_merse};
use crate::merses::merse_to_morse;
use crate::model::{all_ascii_alpha, morse_of_merse};

verus! {

/// How often the code occurs in the list.
pub open spec fn count_of(s: Seq<Seq<bool>>, x: Seq<bool>) -> nat
    decreases s.len(),
{
    if s.len() == 0 {
        0
    } else {
        count_of(s.drop_last(), x) + if s.last() == x {
            1nat
        } else {
            0nat
        }
    }
}

/// The distinct codes of the list, each at its first occurrence, in order.
pub open spec fn firsts(s: Seq<Seq<bool>>) -> Seq<Seq<bool>>
    decreases s.len(),
{
    if s.len() == 0 {
        Seq::empty()
    } else {
        let rest = firsts(s.drop_last());
        if s.drop_last().contains(s.last()) {
            rest
        } else {
            rest.push(s.last())
        }
    }
}

/// The count map of the list: every distinct code, in first-occurrence
/// order, with how often it occurs.
pub open spec fn counted_pairs(ws: Seq<Seq<bool>>) -> Seq<(Seq<bool>, nat)> {
    firsts(ws).map_values(|k: Seq<bool>| (k, count_of(ws, k)))
}

/// The highest count among the pairs.
pub open spec fn pairs_max(cpairs: Seq<(Seq<bool>, nat)>) -> nat
    decreases cpairs.len(),
{
    if cpairs.len() == 0 {
        0
    } else {
        let m = pairs_max(cpairs.drop_last());
        if cpairs.last().1 > m {
            cpairs.last().1
        } else {
            m
        }
    }
}

/// The keys whose count is exactly `m`, in pair order.
pub open spec fn keys_with_count(cpairs: Seq<(Seq<bool>, nat)>, m: nat) -> Seq<Seq<bool>>
    decreases cpairs.len(),
{
    if cpairs.len() == 0 {
        Seq::empty()
    } else {
        let rest = keys_with_count(cpairs.drop_last(), m);
        if cpairs.last().1 == m {
            rest.push(cpairs.last().0)
        } else {
            rest
        }
    }
}

/// The keys of the highest count, in pair order.
pub open spec fn higher_keys(cpairs: Seq<(Seq<bool>, nat)>) -> Seq<Seq<bool>> {
    keys_with_count(cpairs, pairs_max(cpairs))
}

/// The first occurrences hold each code of the list exactly once.
proof fn lemma_firsts(s: Seq<Seq<bool>>)
    ensures
        firsts(s).no_duplicates(),
        forall|x: Seq<bool>| firsts(s).contains(x) <==> s.contains(x),
    decreases s.len(),
{
    if s.len() == 0 {
    } else {
        let rest = s.drop_last();
        lemma_firsts(rest);
        assert forall|x: Seq<bool>| s.contains(x) implies rest.contains(x) || s.last() == x by {
            let i = choose|i: int| 0 <= i < s.len() && s[i] == x;
            if i < s.len() - 1 {
                assert(rest[i] == x);
            }
        }
        assert forall|x: Seq<bool>| rest.contains(x) implies s.contains(x) by {
            let i = choose|i: int| 0 <= i < rest.len() && rest[i] == x;
            assert(s[i] == x);
        }
        assert(s.contains(s.last()));
        if !rest.contains(s.last()) {
            let f = firsts(rest);
            assert(!f.contains(s.last()));
            assert(forall|i: int, j: int|
                0 <= i < j < f.push(s.last()).len() ==> f.push(s.last())[i] != f.push(s.last())[j]);
            assert forall|x: Seq<bool>| firsts(s).contains(x) implies s.contains(x) by {
                let i = choose|i: int| 0 <= i < firsts(s).len() && firsts(s)[i] == x;
                if i < firsts(s).len() - 1 {
                    assert(f[i] == x);
                }
            }
            assert forall|x: Seq<bool>| s.contains(x) implies firsts(s).contains(x) by {
                if rest.contains(x) {
                    let i = choose|i: int| 0 <= i < f.len() && f[i] == x;
                    assert(firsts(s)[i] == x);
                } else {
                    assert(firsts(s).last() == x);
                }
            }
        }
    }
}

/// Appending one code raises its count by one and no other.
proof fn lemma_count_push(s: Seq<Seq<bool>>, y: Seq<bool>, x: Seq<bool>)
    ensures
        y == x ==> count_of(s.push(y), x) == count_of(s, x) + 1,
        y != x ==> count_of(s.push(y), x) == count_of(s, x),
{
    assert(s.push(y).drop_last() =~= s);
    assert(s.push(y).last() == y);
}

/// A code that never occurs has count zero.
proof fn lemma_count_zero(s: Seq<Seq<bool>>, x: Seq<bool>)
    requires
        !s.contains(x),
    ensures
        count_of(s, x) == 0,
    decreases s.len(),
{
    if s.len() > 0 {
        assert(s.contains(s.last())) by {
            assert(s[s.len() - 1] == s.last());
        }
        assert forall|i: int| 0 <= i < s.drop_last().len() implies s.drop_last()[i] != x by {
            assert(s[i] == s.drop_last()[i]);
        }
        lemma_count_zero(s.drop_last(), x);
    }
}

/// A count never exceeds the list's length.
proof fn lemma_count_le_len(s: Seq<Seq<bool>>, x: Seq<bool>)
    ensures
        count_of(s, x) <= s.len(),
    decreases s.len(),
{
    if s.len() > 0 {
        lemma_count_le_len(s.drop_last(), x);
    }
}

/// Count every distinct code of the list: the result holds each code at
/// its first occurrence, in order, with how often it occurs in the whole
/// list.
pub fn count_smooshedmorse(all_merse_words: &[Vec<bool>]) -> (r: Vec<(Vec<bool>, u32)>)
    requires
        all_merse_words@.len() <= u32::MAX,
    ensures
        r@.map_values(|pr: (Vec<bool>, u32)| pr.0@) == firsts(all_merse_words.deep_view()),
        forall|p: int|
            0 <= p < r@.len() ==> (#[trigger] r@[p]).1 as nat == count_of(
                all_merse_words.deep_view(),
                r@[p].0@,
            ),
{
    let ghost ws = all_merse_words.deep_view();
    let mut map: Vec<(Vec<bool>, u32)> = Vec::new();
    let mut k: usize = 0;
    while k < all_merse_words.len()
        invariant
            ws == all_merse_words.deep_view(),
            ws.len() == all_merse_words@.len(),
            all_merse_words@.len() <= u32::MAX,
            forall|i: int| 0 <= i < ws.len() ==> #[trigger] ws[i] == all_merse_words@[i]@,
            0 <= k <= ws.len(),
            map@.map_values(|pr: (Vec<bool>, u32)| pr.0@) == firsts(ws.take(k as int)),
            forall|p: int|
                0 <= p < map@.len() ==> (#[trigger] map@[p]).1 as nat == count_of(
                    ws.take(k as int),
                    map@[p].0@,
                ) && map@[p].1 >= 1,
        decreases ws.len() - k,
    {
        let w = &all_merse_words[k];
        proof {
            lemma_firsts(ws.take(k as int));
            assert(ws.take(k + 1).drop_last() =~= ws.take(k as int));
            assert(ws.take(k + 1) =~= ws.take(k as int).push(w@));
        }
        let mut found: bool = false;
        let mut at: usize = 0;
        let mut j: usize = 0;
        while j < map.len()
            invariant
                0 <= j <= map@.len(),
                !found ==> forall|q: int| 0 <= q < j ==> (#[trigger] map@[q]).0@ != w@,
                found ==> at < map@.len() && map@[at as int].0@ == w@,
            ensures
                found ==> at < map@.len() && map@[at as int].0@ == w@,
                !found ==> forall|q: int| 0 <= q < map@.len() ==> (#[trigger] map@[q]).0@ != w@,
            decreases map@.len() - j,
        {
            let eq = vec_bool_eq(&map[j].0, w);
            if eq {
                found = true;
                at = j;
                break ;
            }
            j = j + 1;
        }
        let ghost keys = map@.map_values(|pr: (Vec<bool>, u32)| pr.0@);
        proof {
            if found {
                assert(keys[at as int] == w@);
                assert(keys.contains(w@));
                assert(ws.take(k as int).contains(w@));
            } else {
                assert forall|x: Seq<bool>| ws.take(k as int).contains(x) implies keys.contains(
                    x,
                ) by {
                    assert(firsts(ws.take(k as int)).contains(x));
                }
                if ws.take(k as int).contains(w@) {
                    let q = choose|q: int| 0 <= q < keys.len() && keys[q] == w@;
                    assert(map@[q].0@ == w@);
                    assert(false);
                }
            }
        }
        if found {
            let key = map[at].0.clone();
            let cnt = map[at].1;
            proof {
                lemma_count_le_len(ws.take(k as int), map@[at as int].0@);
                assert(cnt < u32::MAX);
                assert(key@ == w@);
            }
            map[at] = (key, cnt + 1);
            proof {
                assert(map@.map_values(|pr: (Vec<bool>, u32)| pr.0@) =~= keys);
                assert(firsts(ws.take(k + 1)) == firsts(ws.take(k as int)));
                assert forall|p: int| 0 <= p < map@.len() implies (#[trigger] map@[p]).1 as nat
                    == count_of(ws.take(k + 1), map@[p].0@) && map@[p].1 >= 1 by {
                    lemma_count_push(ws.take(k as int), w@, map@[p].0@);
                    if p != at {
                        assert(keys[p] != keys[at as int]) by {
                            assert(keys.no_duplicates());
                        }
                    }
                }
            }
        } else {
            let key = vstd::slice::slice_to_vec(w.as_slice());
            proof {
                assert(key@ == w@);
                assert(!ws.take(k as int).contains(w@));
                lemma_count_zero(ws.take(k as int), w@);
                assert(firsts(ws.take(k + 1)) == firsts(ws.take(k as int)).push(w@));
            }
            map.push((key, 1));
            proof {
                assert(map@.map_values(|pr: (Vec<bool>, u32)| pr.0@) =~= keys.push(w@));
                assert forall|p: int| 0 <= p < map@.len() implies (#[trigger] map@[p]).1 as nat
                    == count_of(ws.take(k + 1), map@[p].0@) && map@[p].1 >= 1 by {
                    lemma_count_push(ws.take(k as int), w@, map@[p].0@);
                    if p < map@.len() - 1 {
                        assert(keys[p] != w@) by {
                            assert(keys.contains(keys[p]));
                            assert(ws.take(k as int).contains(keys[p]));
                        }
                    }
                }
            }
        }
        k = k + 1;
    }
    proof {
        assert(ws.take(ws.len() as int) =~= ws);
    }
    map
}

/// Bitwise equality of two codes.
fn vec_bool_eq(a: &Vec<bool>, b: &Vec<bool>) -> (r: bool)
    ensures
        r == (a@ == b@),
{
    if a.len() != b.len() {
        proof {
            assert(a@ != b@);
        }
        return false;
    }
    let mut k: usize = 0;
    while k < a.len()
        invariant
            a@.len() == b@.len(),
            0 <= k <= a@.len(),
            forall|j: int| 0 <= j < k ==> a@[j] == b@[j],
        decreases a@.len() - k,
    {
        if a[k] != b[k] {
            proof {
                assert(a@ != b@);
            }
            return false;
        }
        k = k + 1;
    }
    proof {
        assert(a@ =~= b@);
    }
    true
}

/// The keys of the highest count, in map order.
pub fn get_higher_counted(merse_count_map: Vec<(Vec<bool>, u32)>) -> (r: Vec<Vec<bool>>)
    ensures
        r.deep_view() == higher_keys(
            merse_count_map@.map_values(|pr: (Vec<bool>, u32)| (pr.0@, pr.1 as nat)),
        ),
{
    let ghost cpairs = merse_count_map@.map_values(|pr: (Vec<bool>, u32)| (pr.0@, pr.1 as nat));
    let mut higher_count: u32 = 0;
    let mut higher_codes: Vec<Vec<bool>> = Vec::new();
    let mut k: usize = 0;
    while k < merse_count_map.len()
        invariant
            cpairs == merse_count_map@.map_values(|pr: (Vec<bool>, u32)| (pr.0@, pr.1 as nat)),
            cpairs.len() == merse_count_map@.len(),
            forall|i: int|
                0 <= i < cpairs.len() ==> #[trigger] cpairs[i] == (
                    merse_count_map@[i].0@,
                    merse_count_map@[i].1 as nat,
                ),
            0 <= k <= cpairs.len(),
            higher_count as nat == pairs_max(cpairs.take(k as int)),
            higher_codes.deep_view() == keys_with_count(
                cpairs.take(k as int),
                higher_count as nat,
            ),
        decreases cpairs.len() - k,
    {
        proof {
            assert(cpairs.take(k + 1).drop_last() =~= cpairs.take(k as int));
            assert(cpairs.take(k + 1) =~= cpairs.take(k as int).push(cpairs[k as int]));
        }
        let c = merse_count_map[k].1;
        if c > higher_count {
            higher_count = c;
            higher_codes = Vec::new();
            proof {
                lemma_pairs_max_bound(cpairs.take(k as int));
                lemma_keys_with_count_empty(cpairs.take(k as int), c as nat);
                assert(higher_codes.deep_view() =~= keys_with_count(
                    cpairs.take(k as int),
                    higher_count as nat,
                ));
            }
        }
        proof {
            lemma_keys_with_count_push(
                cpairs.take(k as int),
                cpairs[k as int],
                higher_count as nat,
            );
        }
        if c == higher_count {
            let key = merse_count_map[k].0.clone();
            let ghost prev = higher_codes.deep_view();
            proof {
                assert(key@ =~= merse_count_map@[k as int].0@);
            }
            higher_codes.push(key);
            proof {
                assert(cpairs[k as int].1 == higher_count as nat);
                assert(higher_codes.deep_view() =~~= prev.push(cpairs[k as int].0));
                assert(higher_codes.deep_view() =~= keys_with_count(
                    cpairs.take(k + 1),
                    higher_count as nat,
                ));
            }
        } else {
            proof {
                assert(cpairs[k as int].1 != higher_count as nat);
                assert(pairs_max(cpairs.take(k + 1)) == pairs_max(cpairs.take(k as int)));
                assert(higher_codes.deep_view() =~= keys_with_count(
                    cpairs.take(k + 1),
                    higher_count as nat,
                ));
            }
        }
        k = k + 1;
    }
    proof {
        assert(cpairs.take(cpairs.len() as int) =~= cpairs);
    }
    higher_codes
}

/// No key is reported for a count that no pair has.
proof fn lemma_keys_with_count_empty(cpairs: Seq<(Seq<bool>, nat)>, m: nat)
    requires
        forall|i: int| 0 <= i < cpairs.len() ==> (#[trigger] cpairs[i]).1 != m,
    ensures
        keys_with_count(cpairs, m) == Seq::<Seq<bool>>::empty(),
    decreases cpairs.len(),
{
    if cpairs.len() > 0 {
        assert(cpairs[cpairs.len() - 1].1 != m);
        assert forall|i: int| 0 <= i < cpairs.drop_last().len() implies (
        #[trigger] cpairs.drop_last()[i]).1 != m by {
            assert(cpairs[i] == cpairs.drop_last()[i]);
        }
        lemma_keys_with_count_empty(cpairs.drop_last(), m);
    }
}

/// Appending one pair appends its key exactly when its count is `m`.
proof fn lemma_keys_with_count_push(cpairs: Seq<(Seq<bool>, nat)>, pr: (Seq<bool>, nat), m: nat)
    ensures
        pr.1 == m ==> keys_with_count(cpairs.push(pr), m) == keys_with_count(cpairs, m).push(pr.0),
        pr.1 != m ==> keys_with_count(cpairs.push(pr), m) == keys_with_count(cpairs, m),
{
    assert(cpairs.push(pr).drop_last() =~= cpairs);
    assert(cpairs.push(pr).last() == pr);
}

/// Every pair's count is at most the highest.
proof fn lemma_pairs_max_bound(cpairs: Seq<(Seq<bool>, nat)>)
    ensures
        forall|i: int| 0 <= i < cpairs.len() ==> (#[trigger] cpairs[i]).1 <= pairs_max(cpairs),
    decreases cpairs.len(),
{
    if cpairs.len() > 0 {
        lemma_pairs_max_bound(cpairs.drop_last());
        assert forall|i: int| 0 <= i < cpairs.len() implies (#[trigger] cpairs[i]).1 <= pairs_max(
            cpairs,
        ) by {
            if i < cpairs.len() - 1 {
                assert(cpairs.drop_last()[i] == cpairs[i]);
            }
        }
    }
}

/// Report, as morse strings, the codes that encode the most words of the
/// list: every distinct code with the highest count, in first-occurrence
/// order.
pub fn run(all_words: &Vec<String>) -> (r: Result<Vec<String>, &'static str>)
    requires
        forall|i: int| 0 <= i < all_words@.len() ==> all_ascii_alpha(#[trigger] all_words@[i]@),
        all_words@.len() <= u32::MAX,
    ensures
        r matches Ok(v) && v.deep_view() == higher_keys(
            counted_pairs(all_words.deep_view().map_values(|w: Seq<char>| word_merse(w))),
        ).map_values(|c: Seq<bool>| morse_of_merse(c)),
{
    let all_merse_words = all_words_to_smooshedmerse(all_words.as_slice());
    let ghost ws = all_merse_words.deep_view();
    proof {
        assert(ws =~= all_words.deep_view().map_values(|w: Seq<char>| word_merse(w))) by {
            assert forall|i: int| 0 <= i < ws.len() implies ws[i] == word_merse(
                all_words.deep_view()[i],
            ) by {
                assert(ws[i] =~= all_merse_words@[i]@);
                assert(all_words.deep_view()[i] == all_words@[i]@);
            }
        }
    }
    let counted = count_smooshedmorse(all_merse_words.as_slice());
    let most_frequent = get_higher_counted(counted);
    proof {
        assert(counted@.map_values(|pr: (Vec<bool>, u32)| (pr.0@, pr.1 as nat)) =~~= counted_pairs(
            ws,
        )) by {
            let cp = counted@.map_values(|pr: (Vec<bool>, u32)| (pr.0@, pr.1 as nat));
            let keys = counted@.map_values(|pr: (Vec<bool>, u32)| pr.0@);
            assert(keys == firsts(ws));
            assert forall|i: int| 0 <= i < cp.len() implies cp[i] == (
            firsts(ws)[i],
            count_of(ws, firsts(ws)[i]),
            ) by {
                assert(keys[i] == counted@[i].0@);
            }
        }
    }
    let mut morse_most_frequent: Vec<String> = Vec::new();
    let mut k: usize = 0;
    while k < most_frequent.len()
        invariant
            0 <= k <= most_frequent@.len(),
            morse_most_frequent.deep_view() =~= most_frequent.deep_view().take(
                k as int,
            ).map_values(|c: Seq<bool>| morse_of_merse(c)),
            most_frequent.deep_view().len() == most_frequent@.len(),
            forall|i: int|
                0 <= i < most_frequent@.len() ==> most_frequent.deep_view()[i]
                    == #[trigger] most_frequent@[i]@,
        decreases most_frequent@.len() - k,
    {
        let m = merse_to_morse(most_frequent[k].as_slice());
        let ghost prev = morse_most_frequent.deep_view();
        morse_most_frequent.push(m);
        proof {
            assert(morse_most_frequent.deep_view() =~= prev.push(
                morse_of_merse(most_frequent@[k as int]@),
            ));
            assert(most_frequent.deep_view().take(k + 1).drop_last() =~= most_frequent.deep_view()
                .take(k as int));
            assert(most_frequent.deep_view().take(k + 1)[k as int] == most_frequent@[k as int]@);
            assert(morse_most_frequent.deep_view() =~= most_frequent.deep_view().take(
                k + 1,
            ).map_values(|c: Seq<bool>| morse_of_merse(c)));
        }
        k = k + 1;
    }
    proof {
        assert(most_frequent.deep_view().take(most_frequent.deep_view().len() as int)
            =~= most_frequent.deep_view());
    }
    Ok(morse_most_frequent)
}

} // verus!
