//! Recovering an alphabet permutation from its smooshed morse encoding.
//!
//! The code table is not prefix-free, so the target cannot be decoded left
//! to right; a backtracking search over a stack of segment frames tries
//! ordered batches of letters until the whole target is matched.
use vstd::prelude::*;

use crate::merses::{char_to_merse, smooshedmorse_to_merse};
use crate::model::{
    alphabet_spec, is_lower_alpha, merse_of_morse, morse_of_merse, smooshed, to_lower,
    valid_morse,
};
use crate::morses::{alphabet, validate_morse_str};
use crate::trusted::shuffle_chars;

verus! {

/// Letters moved per search level; a tuning knob, not a correctness
/// parameter.
pub const INCREMENT: u8 = 3;

#[derive(Debug, PartialEq, Eq, Structural)]
pub enum SearchError {
    /// The target holds a character that is neither a dot nor a dash.
    InvalidSymbol,
    /// The target's length is not the length of a full alphabet encoding.
    WrongLength,
    /// The search exhausted every candidate without matching the target;
    /// an expected outcome, not a fault.
    NoSolutionFound,
}

/// An ordered batch of distinct letters drawn from a pool.
pub open spec fn is_selection_of(take: Seq<char>, pool: Seq<char>) -> bool {
    &&& take.no_duplicates()
    &&& forall|i: int| 0 <= i < take.len() ==> pool.contains(#[trigger] take[i])
}

/// One search level: a pool of unplaced letters and the candidate batches
/// not yet tried at this level.
pub struct SegmentChars {
    pub take: Vec<char>,
    pub merse_take: Vec<bool>,
    pub left: Vec<char>,
    pub source: Vec<char>,
    pub perm_size: usize,
    pub permutations: Vec<Vec<char>>,
}

/// The frame's pool is a duplicate-free sequence of lowercase letters and
/// every untried candidate is a batch of `perm_size` letters from it.
pub open spec fn segment_wf(s: SegmentChars) -> bool {
    &&& s.source@.no_duplicates()
    &&& (forall|i: int| 0 <= i < s.source@.len() ==> is_lower_alpha(#[trigger] s.source@[i]))
    &&& s.perm_size <= s.source@.len()
    &&& (forall|j: int|
        0 <= j < s.permutations@.len() ==> is_selection_of(
            (#[trigger] s.permutations@[j])@,
            s.source@,
        ) && s.permutations@[j]@.len() == s.perm_size)
}

/// The live take of a frame: the batch is a selection from the pool, its
/// encoding and the leftover pool are in step with it.
pub open spec fn segment_take_wf(s: SegmentChars) -> bool {
    &&& is_selection_of(s.take@, s.source@)
    &&& s.merse_take@ == smooshed(s.take@)
    &&& s.left@ == s.source@.filter(|c: char| !s.take@.contains(c))
}

/// Two disjoint duplicate-free sequences concatenate to a duplicate-free
/// sequence whose members are the union of theirs.
proof fn lemma_disjoint_concat(a: Seq<char>, b: Seq<char>)
    requires
        a.no_duplicates(),
        b.no_duplicates(),
        forall|x: char| !(a.contains(x) && b.contains(x)),
    ensures
        (a + b).no_duplicates(),
        forall|x: char| (a + b).contains(x) <==> a.contains(x) || b.contains(x),
{
    assert forall|x: char| a.contains(x) || b.contains(x) implies (a + b).contains(x) by {
        if a.contains(x) {
            let i = choose|i: int| 0 <= i < a.len() && a[i] == x;
            assert((a + b)[i] == x);
        } else {
            let i = choose|i: int| 0 <= i < b.len() && b[i] == x;
            assert((a + b)[a.len() + i] == x);
        }
    }
    assert forall|i: int, j: int| 0 <= i < j < (a + b).len() implies (a + b)[i] != (a + b)[j] by {
        if i < a.len() && j >= a.len() {
            assert(a.contains(a[i]));
            assert(b.contains(b[j - a.len()]));
        }
    }
}

/// The views of a list of batches.
pub open spec fn views_of(s: Seq<Vec<char>>) -> Seq<Seq<char>> {
    s.map_values(|v: Vec<char>| v@)
}

/// Every ordered batch of `k` distinct letters from the pool, in the
/// order the generator produces them: batches led by an earlier pool
/// letter come first.
pub open spec fn sels(pool: Seq<char>, k: nat) -> Seq<Seq<char>>
    decreases k, pool.len() + 1,
{
    if k == 0 {
        seq![Seq::<char>::empty()]
    } else {
        sels_from(pool, k, 0)
    }
}

/// The batches of `sels` whose leading letter is at position `i` of the
/// pool or later.
pub open spec fn sels_from(pool: Seq<char>, k: nat, i: int) -> Seq<Seq<char>>
    decreases k, pool.len() - i,
{
    if k == 0 || i < 0 || i >= pool.len() {
        Seq::empty()
    } else {
        let head = pool[i];
        sels(pool.remove(i), (k - 1) as nat).map_values(|s: Seq<char>| seq![head] + s)
            + sels_from(pool, k, i + 1)
    }
}

/// The batch size of a level: the increment, capped by the pool.
pub open spec fn batch_size(pool_len: nat, inc: nat) -> nat {
    if inc > pool_len {
        pool_len
    } else {
        inc
    }
}

/// How many ordered batches of `k` distinct elements an `n`-element pool
/// offers: the falling factorial `n * (n-1) * ... * (n-k+1)`.
pub open spec fn perm_count(n: nat, k: nat) -> nat
    decreases k,
{
    if k == 0 {
        1
    } else if n == 0 {
        0
    } else {
        n * perm_count((n - 1) as nat, (k - 1) as nat)
    }
}

/// A pool smaller than the batch offers no batch.
proof fn lemma_perm_count_zero(n: nat, k: nat)
    requires
        k > n,
    ensures
        perm_count(n, k) == 0,
    decreases k,
{
    if n > 0 {
        lemma_perm_count_zero((n - 1) as nat, (k - 1) as nat);
        assert(n * perm_count((n - 1) as nat, (k - 1) as nat) == 0) by (nonlinear_arith)
            requires
                perm_count((n - 1) as nat, (k - 1) as nat) == 0,
        ;
    }
}

/// A level offers exactly the falling-factorial number of candidates.
proof fn lemma_sels_len(pool: Seq<char>, k: nat)
    ensures
        sels(pool, k).len() == perm_count(pool.len(), k),
    decreases k, pool.len() + 1,
{
    if k > 0 {
        if pool.len() == 0 {
            assert(sels_from(pool, k, 0) =~= Seq::<Seq<char>>::empty());
        } else {
            lemma_sels_from_len(pool, k, 0);
        }
    }
}

/// The candidates led by letter `i` or later number `(n - i)` times the
/// count of one tail level.
proof fn lemma_sels_from_len(pool: Seq<char>, k: nat, i: int)
    requires
        1 <= k,
        0 <= i <= pool.len(),
        pool.len() >= 1,
    ensures
        sels_from(pool, k, i).len() == (pool.len() - i) * perm_count(
            (pool.len() - 1) as nat,
            (k - 1) as nat,
        ),
    decreases k, pool.len() - i,
{
    let pc = perm_count((pool.len() - 1) as nat, (k - 1) as nat);
    if i == pool.len() {
        assert((pool.len() - i) * pc == 0) by (nonlinear_arith)
            requires
                i == pool.len(),
        ;
    } else {
        lemma_sels_len(pool.remove(i), (k - 1) as nat);
        lemma_sels_from_len(pool, k, i + 1);
        let a = pool.len() - i;
        assert(a * pc == pc + (a - 1) * pc) by (nonlinear_arith)
            requires
                a >= 1,
        ;
    }
}

/// No level offers the same batch twice.
proof fn lemma_sels_nodup(pool: Seq<char>, k: nat)
    requires
        pool.no_duplicates(),
        k <= pool.len(),
    ensures
        sels(pool, k).no_duplicates(),
    decreases k, pool.len() + 1,
{
    if k > 0 {
        lemma_sels_from_nodup(pool, k, 0);
    }
}

/// The candidates led by letter `i` or later are pairwise distinct, each
/// `k` letters long, and each led by a pool letter at position `i` or
/// later.
proof fn lemma_sels_from_nodup(pool: Seq<char>, k: nat, i: int)
    requires
        pool.no_duplicates(),
        1 <= k <= pool.len(),
    ensures
        sels_from(pool, k, i).no_duplicates(),
        forall|j: int|
            0 <= j < sels_from(pool, k, i).len() ==> (#[trigger] sels_from(pool, k, i)[j]).len()
                == k && exists|t: int| i <= t < pool.len() && sels_from(pool, k, i)[j][0] == pool[t],
    decreases k, pool.len() - i,
{
    if 0 <= i < pool.len() {
        let head = pool[i];
        let rp = pool.remove(i);
        pool.remove_ensures(i);
        assert(rp.no_duplicates()) by {
            assert(forall|u: int, v: int| 0 <= u < v < rp.len() ==> rp[u] != rp[v]);
        }
        lemma_sels_nodup(rp, (k - 1) as nat);
        lemma_sels_from_wf(pool, k, i);
        let subs = sels(rp, (k - 1) as nat);
        let blk = subs.map_values(|s: Seq<char>| seq![head] + s);
        assert forall|p: int, q: int| 0 <= p < q < blk.len() implies blk[p] != blk[q] by {
            assert(blk[p] == seq![head] + subs[p]);
            assert(blk[q] == seq![head] + subs[q]);
            if blk[p] == blk[q] {
                assert(subs[p] =~= subs[q]) by {
                    assert(forall|u: int|
                        0 <= u < subs[p].len() ==> subs[p][u] == (seq![head] + subs[p])[u + 1]
                            && subs[q][u] == (seq![head] + subs[q])[u + 1]);
                }
            }
        }
        assert(blk.no_duplicates());
        assert(forall|j: int| 0 <= j < blk.len() ==> (#[trigger] blk[j])[0] == head);
        if i + 1 < pool.len() {
            lemma_sels_from_nodup(pool, k, i + 1);
        } else {
            assert(sels_from(pool, k, i + 1) =~= Seq::<Seq<char>>::empty());
        }
        let tail = sels_from(pool, k, i + 1);
        assert(sels_from(pool, k, i) == blk + tail);
        assert forall|p: int, q: int|
            0 <= p < q < sels_from(pool, k, i).len() implies sels_from(pool, k, i)[p]
            != sels_from(pool, k, i)[q] by {
            if p < blk.len() && q >= blk.len() {
                assert(sels_from(pool, k, i)[p] == blk[p]);
                assert(sels_from(pool, k, i)[q] == tail[q - blk.len()]);
                let t = choose|t: int|
                    i + 1 <= t < pool.len() && tail[q - blk.len()][0] == pool[t];
                assert(pool[t] != pool[i]) by {
                    assert(forall|u: int, v: int|
                        0 <= u < v < pool.len() ==> pool[u] != pool[v]);
                }
                assert(blk[p][0] == head);
            } else if q < blk.len() {
                assert(blk[p] != blk[q]);
            } else {
                assert(tail[p - blk.len()] != tail[q - blk.len()]);
            }
        }
        assert forall|j: int| 0 <= j < sels_from(pool, k, i).len() implies (
        #[trigger] sels_from(pool, k, i)[j]).len() == k && exists|t: int|
            i <= t < pool.len() && sels_from(pool, k, i)[j][0] == pool[t] by {
            if j < blk.len() {
                assert(sels_from(pool, k, i)[j] == blk[j]);
                assert(blk[j][0] == pool[i]);
                assert(blk[j].len() == 1 + subs[j].len());
                assert(is_selection_of(sels_from(pool, k, i)[j], pool) && sels_from(
                    pool,
                    k,
                    i,
                )[j].len() == k);
            } else {
                assert(sels_from(pool, k, i)[j] == tail[j - blk.len()]);
                let t = choose|t: int| i + 1 <= t < pool.len() && tail[j - blk.len()][0] == pool[t];
                assert(sels_from(pool, k, i)[j][0] == pool[t]);
            }
        }
    }
}

/// The candidate enumeration of a level is non-repeating and exhaustive
/// in number: over a duplicate-free pool of `n` letters it lists
/// `n!/(n-k)!` pairwise distinct batches (15600 for `n == 26`, `k == 3`).
pub proof fn lemma_sels_enumeration(pool: Seq<char>, k: nat)
    requires
        pool.no_duplicates(),
    ensures
        sels(pool, k).no_duplicates(),
        sels(pool, k).len() == perm_count(pool.len(), k),
{
    lemma_sels_len(pool, k);
    if k == 0 {
    } else if k <= pool.len() {
        lemma_sels_nodup(pool, k);
    } else {
        lemma_perm_count_zero(pool.len(), k);
        assert(sels(pool, k).len() == 0);
    }
}

/// The batch's code occupies the target bits starting at `offset`; a
/// batch that would run past the end never matches.
pub open spec fn match_at(input: Seq<bool>, offset: int, code: Seq<bool>) -> bool {
    &&& offset + code.len() <= input.len()
    &&& input.subrange(offset, offset + code.len()) == code
}

/// What one search level returns, given the batches it still has to try:
/// candidates are taken from the back of the list; the first one whose
/// code matches and whose leftover pool can be placed in turn is kept.
pub open spec fn solve_cands(
    cands: Seq<Seq<char>>,
    pool: Seq<char>,
    input: Seq<bool>,
    offset: int,
    inc: nat,
) -> Option<Seq<char>>
    decreases pool.len(), cands.len(),
{
    if cands.len() == 0 {
        None
    } else {
        let b = cands.last();
        let code = smooshed(b);
        let left = pool.filter(|c: char| !b.contains(c));
        if match_at(input, offset, code) {
            if left.len() == 0 {
                if offset + code.len() == input.len() {
                    Some(b)
                } else {
                    solve_cands(cands.drop_last(), pool, input, offset, inc)
                }
            } else {
                if left.len() < pool.len() {
                    match solve(left, input, offset + code.len(), inc) {
                        Some(s) => Some(b + s),
                        None => solve_cands(cands.drop_last(), pool, input, offset, inc),
                    }
                } else {
                    None
                }
            }
        } else {
            solve_cands(cands.drop_last(), pool, input, offset, inc)
        }
    }
}

/// What the search returns on a pool: one level over every batch of
/// `batch_size` letters. The result is a function of pool, target and
/// increment alone: the search is deterministic.
pub open spec fn solve(pool: Seq<char>, input: Seq<bool>, offset: int, inc: nat) -> Option<
    Seq<char>,
>
    decreases pool.len(), sels(pool, batch_size(pool.len(), inc)).len() + 1,
{
    solve_cands(sels(pool, batch_size(pool.len(), inc)), pool, input, offset, inc)
}

/// A prefix and the matching suffix of a duplicate-free sequence are
/// duplicate-free and split its members.
proof fn lemma_split_perm(p: Seq<char>, k: int)
    requires
        p.no_duplicates(),
        0 <= k <= p.len(),
    ensures
        p.take(k).no_duplicates(),
        p.skip(k).no_duplicates(),
        forall|x: char| p.take(k).contains(x) ==> p.contains(x),
        forall|x: char| p.skip(k).contains(x) <==> p.contains(x) && !p.take(k).contains(x),
{
    assert forall|x: char| p.take(k).contains(x) implies p.contains(x) by {
        let t = choose|t: int| 0 <= t < k && p.take(k)[t] == x;
        assert(p[t] == x);
    }
    assert forall|x: char| p.skip(k).contains(x) implies p.contains(x) && !p.take(k).contains(
        x,
    ) by {
        let t = choose|t: int| 0 <= t < p.skip(k).len() && p.skip(k)[t] == x;
        assert(p[k + t] == x);
        if p.take(k).contains(x) {
            let u = choose|u: int| 0 <= u < k && p.take(k)[u] == x;
            assert(p[u] == p[k + t]);
        }
    }
    assert forall|x: char| p.contains(x) && !p.take(k).contains(x) implies p.skip(k).contains(
        x,
    ) by {
        let t = choose|t: int| 0 <= t < p.len() && p[t] == x;
        if t < k {
            assert(p.take(k)[t] == x);
        } else {
            assert(p.skip(k)[t - k] == x);
        }
    }
}

/// A batch found among the candidates led by a later pool letter is also
/// among the candidates of the whole level.
proof fn lemma_sels_from_lift(pool: Seq<char>, k: nat, i: int, b: Seq<char>)
    requires
        0 <= i,
        sels_from(pool, k, i).contains(b),
    ensures
        sels_from(pool, k, 0).contains(b),
    decreases i,
{
    if i > 0 {
        assert(sels_from(pool, k, i).len() > 0);
        assert(k != 0 && i < pool.len());
        let head = pool[i - 1];
        let blk = sels(pool.remove(i - 1), (k - 1) as nat).map_values(
            |s: Seq<char>| seq![head] + s,
        );
        assert(sels_from(pool, k, i - 1) == blk + sels_from(pool, k, i));
        let j = choose|j: int| 0 <= j < sels_from(pool, k, i).len() && sels_from(pool, k, i)[j]
            == b;
        assert(sels_from(pool, k, i - 1)[blk.len() + j] == b);
        lemma_sels_from_lift(pool, k, i - 1, b);
    }
}

/// The candidate enumeration is exhaustive: every ordered batch of `k`
/// distinct pool letters is a candidate.
pub proof fn lemma_sels_complete(pool: Seq<char>, k: nat, b: Seq<char>)
    requires
        pool.no_duplicates(),
        b.no_duplicates(),
        b.len() == k,
        k <= pool.len(),
        forall|i: int| 0 <= i < b.len() ==> pool.contains(#[trigger] b[i]),
    ensures
        sels(pool, k).contains(b),
    decreases k,
{
    if k == 0 {
        assert(b =~= Seq::<char>::empty());
        assert(sels(pool, 0)[0] == b);
    } else {
        let b0 = b[0];
        assert(pool.contains(b0));
        let i = choose|i: int| 0 <= i < pool.len() && pool[i] == b0;
        let rest = b.skip(1);
        let rp = pool.remove(i);
        pool.remove_ensures(i);
        assert(rest.no_duplicates()) by {
            assert(forall|u: int, v: int| 0 <= u < v < rest.len() ==> rest[u] != rest[v]);
        }
        assert forall|u: int| 0 <= u < rest.len() implies rp.contains(#[trigger] rest[u]) by {
            assert(rest[u] == b[u + 1]);
            assert(pool.contains(b[u + 1]));
            let t = choose|t: int| 0 <= t < pool.len() && pool[t] == b[u + 1];
            assert(b[u + 1] != b0);
            assert(t != i);
            if t < i {
                assert(rp[t] == pool[t]);
            } else {
                assert(rp[t - 1] == pool[t]);
            }
        }
        assert(rp.no_duplicates()) by {
            assert(forall|u: int, v: int| 0 <= u < v < rp.len() ==> rp[u] != rp[v]);
        }
        lemma_sels_complete(rp, (k - 1) as nat, rest);
        let head = pool[i];
        let blk = sels(rp, (k - 1) as nat).map_values(|s: Seq<char>| seq![head] + s);
        let j = choose|j: int|
            0 <= j < sels(rp, (k - 1) as nat).len() && #[trigger] sels(rp, (k - 1) as nat)[j]
                == rest;
        assert(blk[j] == seq![head] + rest);
        assert(seq![head] + rest =~= b);
        assert(sels_from(pool, k, i) == blk + sels_from(pool, k, i + 1));
        assert(sels_from(pool, k, i)[j] == b);
        assert(sels_from(pool, k, i).contains(b));
        lemma_sels_from_lift(pool, k, i, b);
        assert(sels(pool, k) == sels_from(pool, k, 0));
    }
}

/// Every candidate of a level is a batch of exactly `k` distinct pool
/// letters.
proof fn lemma_sels_wf(pool: Seq<char>, k: nat)
    requires
        pool.no_duplicates(),
        k <= pool.len(),
    ensures
        forall|j: int|
            0 <= j < sels(pool, k).len() ==> is_selection_of(#[trigger] sels(pool, k)[j], pool)
                && sels(pool, k)[j].len() == k,
    decreases k, pool.len() + 1,
{
    if k == 0 {
        assert(sels(pool, 0)[0] =~= Seq::<char>::empty());
        assert(sels(pool, 0).len() == 1);
        assert(Seq::<char>::empty().no_duplicates());
        assert(is_selection_of(sels(pool, 0)[0], pool));
    } else {
        lemma_sels_from_wf(pool, k, 0);
        assert(sels(pool, k) == sels_from(pool, k, 0));
    }
}

/// The same, for the candidates led by letter `i` of the pool or later.
proof fn lemma_sels_from_wf(pool: Seq<char>, k: nat, i: int)
    requires
        pool.no_duplicates(),
        1 <= k <= pool.len(),
    ensures
        forall|j: int|
            0 <= j < sels_from(pool, k, i).len() ==> is_selection_of(
                #[trigger] sels_from(pool, k, i)[j],
                pool,
            ) && sels_from(pool, k, i)[j].len() == k,
    decreases k, pool.len() - i,
{
    if 0 <= i < pool.len() {
        let head = pool[i];
        let rp = pool.remove(i);
        pool.remove_ensures(i);
        assert(rp.no_duplicates()) by {
            assert(forall|u: int, v: int| 0 <= u < v < rp.len() ==> rp[u] != rp[v]);
        }
        assert(forall|x: char| rp.contains(x) ==> pool.contains(x)) by {
            assert(forall|u: int| 0 <= u < rp.len() ==> pool.contains(#[trigger] rp[u]));
        }
        assert(!rp.contains(head)) by {
            assert(forall|u: int, v: int| 0 <= u < v < pool.len() ==> pool[u] != pool[v]);
        }
        lemma_sels_wf(rp, (k - 1) as nat);
        lemma_sels_from_wf(pool, k, i + 1);
        let blk = sels(rp, (k - 1) as nat).map_values(|s: Seq<char>| seq![head] + s);
        assert forall|j: int| 0 <= j < blk.len() implies is_selection_of(
            #[trigger] blk[j],
            pool,
        ) && blk[j].len() == k by {
            let s = sels(rp, (k - 1) as nat)[j];
            assert(is_selection_of(s, rp) && s.len() == k - 1);
            assert(blk[j] == seq![head] + s);
            assert(forall|x: char| seq![head].contains(x) ==> x == head);
            lemma_disjoint_concat(seq![head], s);
            assert forall|u: int| 0 <= u < blk[j].len() implies pool.contains(
                #[trigger] blk[j][u],
            ) by {
                if u == 0 {
                    assert(blk[j][0] == head);
                    assert(pool.contains(head));
                } else {
                    assert(blk[j][u] == s[u - 1]);
                    assert(rp.contains(s[u - 1]));
                }
            }
        }
        assert(sels_from(pool, k, i) == blk + sels_from(pool, k, i + 1));
        assert forall|j: int| 0 <= j < sels_from(pool, k, i).len() implies is_selection_of(
            #[trigger] sels_from(pool, k, i)[j],
            pool,
        ) && sels_from(pool, k, i)[j].len() == k by {
            if j < blk.len() {
                assert(sels_from(pool, k, i)[j] == blk[j]);
            } else {
                assert(sels_from(pool, k, i)[j] == sels_from(pool, k, i + 1)[j - blk.len()]);
            }
        }
    }
}

/// Whatever the search returns is right, at any increment: a batch
/// sequence that uses the whole pool exactly once and encodes to the rest
/// of the target.
pub proof fn lemma_solve_sound(pool: Seq<char>, input: Seq<bool>, offset: int, inc: nat)
    requires
        pool.no_duplicates(),
        0 <= offset <= input.len(),
    ensures
        solve(pool, input, offset, inc) matches Some(q) ==> q.no_duplicates() && q.to_set()
            == pool.to_set() && smooshed(q) == input.skip(offset),
    decreases pool.len(), sels(pool, batch_size(pool.len(), inc)).len() + 1,
{
    lemma_sels_wf(pool, batch_size(pool.len(), inc));
    lemma_solve_cands_sound(sels(pool, batch_size(pool.len(), inc)), pool, input, offset, inc);
}

/// The same, for one level over any list of well-formed batches.
proof fn lemma_solve_cands_sound(
    cands: Seq<Seq<char>>,
    pool: Seq<char>,
    input: Seq<bool>,
    offset: int,
    inc: nat,
)
    requires
        pool.no_duplicates(),
        0 <= offset <= input.len(),
        forall|j: int| 0 <= j < cands.len() ==> is_selection_of(#[trigger] cands[j], pool),
    ensures
        solve_cands(cands, pool, input, offset, inc) matches Some(q) ==> q.no_duplicates()
            && q.to_set() == pool.to_set() && smooshed(q) == input.skip(offset),
    decreases pool.len(), cands.len(),
{
    broadcast use vstd::set::group_set_axioms;

    if cands.len() > 0 {
        let b = cands.last();
        assert(is_selection_of(b, pool));
        let code = smooshed(b);
        let left = pool.filter(|c: char| !b.contains(c));
        crate::model::lemma_filter_membership(pool, |c: char| !b.contains(c));
        if match_at(input, offset, code) {
            if left.len() == 0 {
                if offset + code.len() == input.len() {
                    assert forall|x: char| pool.contains(x) implies b.contains(x) by {
                        if !b.contains(x) {
                            assert(left.contains(x));
                        }
                    }
                    assert(b.to_set() =~= pool.to_set()) by {
                        assert forall|x: char| b.to_set().contains(x) == pool.to_set().contains(
                            x,
                        ) by {
                            assert(b.to_set().contains(x) == b.contains(x));
                            assert(pool.to_set().contains(x) == pool.contains(x));
                        }
                    }
                    assert(smooshed(b) =~= input.skip(offset));
                } else {
                    lemma_solve_cands_sound(cands.drop_last(), pool, input, offset, inc);
                }
            } else {
                if left.len() < pool.len() {
                    lemma_solve_sound(left, input, offset + code.len(), inc);
                    match solve(left, input, offset + code.len(), inc) {
                        Some(s) => {
                            let q = b + s;
                            assert(forall|x: char| !(b.contains(x) && s.contains(x))) by {
                                assert forall|x: char| s.contains(x) implies !b.contains(x) by {
                                    assert(s.to_set().contains(x) == s.contains(x));
                                    assert(left.to_set().contains(x) == left.contains(x));
                                    assert(left.contains(x));
                                }
                            }
                            lemma_disjoint_concat(b, s);
                            assert(q.to_set() =~= pool.to_set()) by {
                                assert forall|x: char| q.to_set().contains(x) == pool.to_set()
                                    .contains(x) by {
                                    assert(q.to_set().contains(x) == q.contains(x));
                                    assert(pool.to_set().contains(x) == pool.contains(x));
                                    assert(s.to_set().contains(x) == s.contains(x));
                                    assert(left.to_set().contains(x) == left.contains(x));
                                    assert(q.contains(x) <==> b.contains(x) || s.contains(x));
                                }
                            }
                            crate::model::lemma_smooshed_add(b, s);
                            assert(smooshed(q) =~= input.skip(offset)) by {
                                assert(smooshed(s) == input.skip(offset + code.len()));
                                assert(input.subrange(offset, offset + code.len()) == code);
                            }
                        },
                        None => {
                            lemma_solve_cands_sound(cands.drop_last(), pool, input, offset, inc);
                        },
                    }
                }
            }
        } else {
            lemma_solve_cands_sound(cands.drop_last(), pool, input, offset, inc);
        }
    }
}

/// The search never misses, at any increment of one or more: if some
/// ordering of the pool's letters encodes to the rest of the target, the
/// level finds a solution.
pub proof fn lemma_solve_complete(
    pool: Seq<char>,
    input: Seq<bool>,
    offset: int,
    inc: nat,
    p: Seq<char>,
)
    requires
        inc >= 1,
        pool.no_duplicates(),
        p.no_duplicates(),
        p.to_set() == pool.to_set(),
        0 <= offset <= input.len(),
        smooshed(p) == input.skip(offset),
    ensures
        solve(pool, input, offset, inc) is Some,
    decreases pool.len(), sels(pool, batch_size(pool.len(), inc)).len() + 1,
{
    broadcast use vstd::set::group_set_axioms;

    p.unique_seq_to_set();
    pool.unique_seq_to_set();
    assert forall|x: char| p.contains(x) <==> pool.contains(x) by {
        assert(p.to_set().contains(x) == p.contains(x));
        assert(pool.to_set().contains(x) == pool.contains(x));
    }
    assert(p.len() == pool.len());
    let k = batch_size(pool.len(), inc);
    if pool.len() == 0 {
        assert(p.len() == 0);
        assert(smooshed(p) =~= Seq::<bool>::empty());
        assert(input.skip(offset).len() == 0);
        assert(offset == input.len());
        let cands = sels(pool, 0);
        assert(k == 0);
        assert(cands.len() == 1);
        let b = cands.last();
        assert(b =~= Seq::<char>::empty());
        assert(smooshed(b) =~= Seq::<bool>::empty());
        assert(match_at(input, offset, smooshed(b))) by {
            assert(input.subrange(offset, offset) =~= Seq::<bool>::empty());
        }
        reveal(Seq::filter);
        assert(pool.filter(|c: char| !b.contains(c)).len() == 0);
        assert(solve_cands(cands, pool, input, offset, inc) == Some(b));
    } else {
        assert(1 <= k <= pool.len());
        let bstar = p.take(k as int);
        lemma_split_perm(p, k as int);
        assert forall|i: int| 0 <= i < bstar.len() implies pool.contains(#[trigger] bstar[i]) by {
            assert(bstar.contains(bstar[i]));
            assert(p.contains(bstar[i]));
        }
        lemma_sels_complete(pool, k, bstar);
        lemma_sels_wf(pool, k);
        lemma_solve_cands_complete(sels(pool, k), pool, input, offset, inc, p);
    }
}

/// Trying a list of well-formed batches that still holds the witness
/// ordering's first batch never ends empty-handed.
proof fn lemma_solve_cands_complete(
    cands: Seq<Seq<char>>,
    pool: Seq<char>,
    input: Seq<bool>,
    offset: int,
    inc: nat,
    p: Seq<char>,
)
    requires
        inc >= 1,
        pool.no_duplicates(),
        1 <= pool.len(),
        p.no_duplicates(),
        p.to_set() == pool.to_set(),
        p.len() == pool.len(),
        0 <= offset <= input.len(),
        smooshed(p) == input.skip(offset),
        forall|j: int|
            0 <= j < cands.len() ==> is_selection_of(#[trigger] cands[j], pool) && cands[j].len()
                == batch_size(pool.len(), inc),
        cands.contains(p.take(batch_size(pool.len(), inc) as int)),
    ensures
        solve_cands(cands, pool, input, offset, inc) is Some,
    decreases pool.len(), cands.len(),
{
    broadcast use vstd::set::group_set_axioms;

    let k = batch_size(pool.len(), inc);
    let bstar = p.take(k as int);
    lemma_split_perm(p, k as int);
    p.unique_seq_to_set();
    pool.unique_seq_to_set();
    assert forall|x: char| p.contains(x) <==> pool.contains(x) by {
        assert(p.to_set().contains(x) == p.contains(x));
        assert(pool.to_set().contains(x) == pool.contains(x));
    }
    assert(cands.len() > 0);
    let b = cands.last();
    assert(is_selection_of(b, pool) && b.len() == k);
    let code = smooshed(b);
    let left = pool.filter(|c: char| !b.contains(c));
    crate::model::lemma_filter_membership(pool, |c: char| !b.contains(c));
    assert(left.len() < pool.len()) by {
        assert(b.contains(b[0]));
        assert(pool.contains(b[0]));
        let ti = choose|ti: int| 0 <= ti < pool.len() && pool[ti] == b[0];
        assert(!(!b.contains(pool[ti])));
    }
    let ptail = p.skip(k as int);
    lemma_smooshed_add_split(p, k as int);
    assert(smooshed(p) == smooshed(bstar) + smooshed(ptail));
    assert(match_at(input, offset, smooshed(bstar))) by {
        assert(input.skip(offset).len() == input.len() - offset);
        assert(offset + smooshed(bstar).len() <= input.len());
        assert(input.subrange(offset, offset + smooshed(bstar).len()) =~= smooshed(bstar)) by {
            assert forall|t: int| 0 <= t < smooshed(bstar).len() implies input[offset + t]
                == smooshed(bstar)[t] by {
                assert(input.skip(offset)[t] == input[offset + t]);
                assert(smooshed(p)[t] == smooshed(bstar)[t]);
            }
        }
    }
    if !match_at(input, offset, code) {
        assert(b != bstar);
        lemma_drop_last_keeps(cands, bstar);
        lemma_solve_cands_complete(cands.drop_last(), pool, input, offset, inc, p);
    } else {
        if left.len() == 0 {
            if offset + code.len() == input.len() {
                assert(solve_cands(cands, pool, input, offset, inc) == Some(b));
            } else {
                assert(b != bstar) by {
                    if b == bstar {
                        assert(pool.to_set().subset_of(b.to_set())) by {
                            assert forall|x: char| pool.to_set().contains(x) implies b.to_set()
                                .contains(x) by {
                                assert(pool.contains(x));
                                assert(!(!b.contains(x)));
                            }
                        }
                        b.unique_seq_to_set();
                        vstd::set_lib::lemma_len_subset(pool.to_set(), b.to_set());
                        assert(k == pool.len());
                        assert(bstar =~= p);
                        assert(code.len() == input.len() - offset);
                    }
                }
                lemma_drop_last_keeps(cands, bstar);
                lemma_solve_cands_complete(cands.drop_last(), pool, input, offset, inc, p);
            }
        } else {
            assert(0 < left.len() < pool.len());
            if b == bstar {
                assert forall|x: char| left.contains(x) <==> ptail.contains(x) by {
                    assert(left.contains(x) <==> pool.contains(x) && !b.contains(x));
                }
                assert(left.to_set() =~= ptail.to_set()) by {
                    assert forall|x: char| left.to_set().contains(x) == ptail.to_set().contains(
                        x,
                    ) by {
                        assert(left.to_set().contains(x) == left.contains(x));
                        assert(ptail.to_set().contains(x) == ptail.contains(x));
                    }
                }
                assert(smooshed(ptail) == input.skip(offset + code.len())) by {
                    assert(input.skip(offset).skip(code.len() as int) =~= input.skip(
                        offset + code.len(),
                    ));
                    assert(smooshed(ptail) =~= input.skip(offset).skip(code.len() as int)) by {
                        assert forall|t: int| 0 <= t < smooshed(ptail).len() implies smooshed(
                            ptail,
                        )[t] == input.skip(offset)[code.len() + t] by {
                            assert(smooshed(p)[code.len() + t] == smooshed(ptail)[t]);
                        }
                    }
                }
                assert(offset + code.len() <= input.len());
                lemma_solve_complete(left, input, offset + code.len(), inc, ptail);
                assert(solve(left, input, offset + code.len(), inc) is Some);
            } else {
                if solve(left, input, offset + code.len(), inc) is Some {
                } else {
                    lemma_drop_last_keeps(cands, bstar);
                    lemma_solve_cands_complete(cands.drop_last(), pool, input, offset, inc, p);
                }
            }
        }
    }
}

/// A batch other than the last stays when the last is dropped.
proof fn lemma_drop_last_keeps(cands: Seq<Seq<char>>, b: Seq<char>)
    requires
        cands.contains(b),
        cands.last() != b,
    ensures
        cands.drop_last().contains(b),
{
    let jj = choose|jj: int| 0 <= jj < cands.len() && cands[jj] == b;
    assert(jj < cands.len() - 1);
    assert(cands.drop_last()[jj] == b);
}

/// A sequence splits at `k` into a prefix and suffix whose codes
/// concatenate to its code.
proof fn lemma_smooshed_add_split(p: Seq<char>, k: int)
    requires
        0 <= k <= p.len(),
    ensures
        smooshed(p) == smooshed(p.take(k)) + smooshed(p.skip(k)),
{
    assert(p =~= p.take(k) + p.skip(k));
    crate::model::lemma_smooshed_add(p.take(k), p.skip(k));
}

/// The merse codes of a batch of letters, concatenated.
pub fn chars_to_smooshedmerse(chars: &[char]) -> (r: Vec<bool>)
    requires
        forall|i: int| 0 <= i < chars@.len() ==> is_lower_alpha(#[trigger] chars@[i]),
    ensures
        r@ == smooshed(chars@),
{
    let mut encoded: Vec<bool> = Vec::new();
    let mut k: usize = 0;
    while k < chars.len()
        invariant
            forall|i: int| 0 <= i < chars@.len() ==> is_lower_alpha(#[trigger] chars@[i]),
            0 <= k <= chars@.len(),
            encoded@ == smooshed(chars@.take(k as int)),
        decreases chars@.len() - k,
    {
        let ch = chars[k];
        let mut bits = match char_to_merse(ch) {
            Ok(v) => v,
            Err(_) => {
                proof {
                    assert(false);
                }
                Vec::new()
            },
        };
        proof {
            crate::model::lemma_smooshed_push(chars@.take(k as int), ch);
            assert(to_lower(ch) == ch);
            assert(chars@.take(k + 1) =~= chars@.take(k as int).push(ch));
        }
        encoded.append(&mut bits);
        k = k + 1;
    }
    proof {
        assert(chars@.take(chars@.len() as int) =~= chars@);
    }
    encoded
}

/// Every ordered batch of `k` distinct letters drawn from the pool.
fn gen_selections(pool: &Vec<char>, k: usize) -> (r: Vec<Vec<char>>)
    requires
        k <= pool@.len(),
        pool@.no_duplicates(),
    ensures
        forall|j: int|
            0 <= j < r@.len() ==> is_selection_of((#[trigger] r@[j])@, pool@) && r@[j]@.len()
                == k,
        views_of(r@) == sels(pool@, k as nat),
    decreases k,
{
    let mut out: Vec<Vec<char>> = Vec::new();
    if k == 0 {
        out.push(Vec::new());
        proof {
            assert(views_of(out@) =~~= sels(pool@, 0));
        }
        return out;
    }
    let mut i: usize = 0;
    while i < pool.len()
        invariant
            1 <= k <= pool@.len(),
            pool@.no_duplicates(),
            0 <= i <= pool@.len(),
            forall|j: int|
                0 <= j < out@.len() ==> is_selection_of((#[trigger] out@[j])@, pool@) && out@[j]@.len()
                    == k,
            views_of(out@) + sels_from(pool@, k as nat, i as int) == sels(pool@, k as nat),
        decreases pool@.len() - i,
    {
        let head = pool[i];
        let mut rest_pool: Vec<char> = Vec::new();
        let mut t: usize = 0;
        while t < pool.len()
            invariant
                0 <= i < pool@.len(),
                pool@.no_duplicates(),
                0 <= t <= pool@.len(),
                rest_pool@ == if t <= i {
                    pool@.take(t as int)
                } else {
                    pool@.take(i as int) + pool@.subrange(i + 1, t as int)
                },
            decreases pool@.len() - t,
        {
            if t != i {
                rest_pool.push(pool[t]);
            }
            proof {
                if t + 1 <= i {
                    assert(pool@.take(t + 1) =~= pool@.take(t as int).push(pool@[t as int]));
                } else if t == i {
                    assert((pool@.take(i as int) + pool@.subrange(i + 1, i + 1)) =~= pool@.take(
                        i as int,
                    ));
                } else {
                    assert((pool@.take(i as int) + pool@.subrange(i + 1, t + 1)) =~= (pool@.take(
                        i as int,
                    ) + pool@.subrange(i + 1, t as int)).push(pool@[t as int]));
                }
            }
            t = t + 1;
        }
        proof {
            assert(rest_pool@ =~= pool@.remove(i as int));
            pool@.remove_ensures(i as int);
            assert(rest_pool@.no_duplicates()) by {
                assert(forall|p: int, q: int|
                    0 <= p < q < rest_pool@.len() ==> rest_pool@[p] != rest_pool@[q]);
            }
            assert(forall|x: char| rest_pool@.contains(x) ==> pool@.contains(x)) by {
                assert(forall|p: int|
                    0 <= p < rest_pool@.len() ==> pool@.contains(#[trigger] rest_pool@[p]));
            }
            assert(!rest_pool@.contains(pool@[i as int])) by {
                assert(forall|p: int, q: int|
                    0 <= p < q < pool@.len() ==> pool@[p] != pool@[q]);
            }
        }
        let subs = gen_selections(&rest_pool, k - 1);
        let ghost out_start = views_of(out@);
        let mut j: usize = 0;
        while j < subs.len()
            invariant
                0 <= i < pool@.len(),
                head == pool@[i as int],
                pool@.contains(head),
                !rest_pool@.contains(head),
                forall|x: char| rest_pool@.contains(x) ==> pool@.contains(x),
                forall|jj: int|
                    0 <= jj < subs@.len() ==> is_selection_of((#[trigger] subs@[jj])@, rest_pool@)
                        && subs@[jj]@.len() == k - 1,
                1 <= k,
                0 <= j <= subs@.len(),
                forall|jj: int|
                    0 <= jj < out@.len() ==> is_selection_of((#[trigger] out@[jj])@, pool@)
                        && out@[jj]@.len() == k,
                views_of(out@) == out_start + views_of(subs@).take(j as int).map_values(
                    |s: Seq<char>| seq![head] + s,
                ),
            decreases subs@.len() - j,
    {
            let mut cand: Vec<char> = Vec::new();
            cand.push(head);
            let mut sc = subs[j].clone();
            proof {
                assert(sc@ == subs@[j as int]@);
            }
            cand.append(&mut sc);
            proof {
                let s = subs@[j as int]@;
                assert(cand@ =~= seq![head] + s);
                lemma_disjoint_concat(seq![head], s);
            }
            let ghost prev = views_of(out@);
            out.push(cand);
            proof {
                assert(views_of(out@) =~= prev.push(cand@));
                assert(views_of(subs@)[j as int] == subs@[j as int]@);
                assert(views_of(subs@).take(j + 1) =~= views_of(subs@).take(j as int).push(
                    subs@[j as int]@,
                ));
                assert(views_of(subs@).take(j + 1).map_values(|s: Seq<char>| seq![head] + s)
                    =~= views_of(subs@).take(j as int).map_values(
                    |s: Seq<char>| seq![head] + s,
                ).push(seq![head] + subs@[j as int]@));
                assert(views_of(out@) =~= out_start + views_of(subs@).take(j + 1).map_values(
                    |s: Seq<char>| seq![head] + s,
                ));
            }
            j = j + 1;
        }
        proof {
            assert(views_of(subs@).take(subs@.len() as int) =~= views_of(subs@));
            assert(views_of(subs@) == sels(rest_pool@, (k - 1) as nat));
            assert(rest_pool@ == pool@.remove(i as int));
            assert(views_of(out@) == out_start + sels(pool@.remove(i as int), (
            k - 1) as nat).map_values(|s: Seq<char>| seq![head] + s));
            assert(sels_from(pool@, k as nat, i as int) == sels(pool@.remove(i as int), (
            k - 1) as nat).map_values(|s: Seq<char>| seq![head] + s) + sels_from(
                pool@,
                k as nat,
                i + 1,
            ));
            assert(views_of(out@) + sels_from(pool@, k as nat, i + 1) =~= out_start + sels_from(
                pool@,
                k as nat,
                i as int,
            ));
        }
        i = i + 1;
    }
    proof {
        assert(sels_from(pool@, k as nat, pool@.len() as int) =~= Seq::<Seq<char>>::empty());
        assert(views_of(out@) =~= views_of(out@) + sels_from(pool@, k as nat, pool@.len() as int));
    }
    out
}

impl SegmentChars {
    /// A fresh frame over the given pool: no batch taken yet, every
    /// candidate of `min(perm_size, pool size)` letters still to try.
    pub fn init(chars: &[char], perm_size: usize) -> (r: SegmentChars)
        requires
            chars@.no_duplicates(),
            forall|i: int| 0 <= i < chars@.len() ==> is_lower_alpha(#[trigger] chars@[i]),
        ensures
            segment_wf(r),
            r.source@ == chars@,
            r.perm_size == batch_size(chars@.len(), perm_size as nat),
            r.take@.len() == 0,
            r.merse_take@.len() == 0,
            r.left@.len() == 0,
            views_of(r.permutations@) == sels(chars@, r.perm_size as nat),
            views_of(r.permutations@).no_duplicates(),
            r.permutations@.len() == perm_count(chars@.len(), r.perm_size as nat),
    {
        let perm_size = if perm_size > chars.len() {
            chars.len()
        } else {
            perm_size
        };
        let source = vstd::slice::slice_to_vec(chars);
        let permutations = gen_selections(&source, perm_size);
        proof {
            lemma_sels_enumeration(chars@, perm_size as nat);
            assert(views_of(permutations@).len() == permutations@.len());
        }
        SegmentChars {
            source,
            perm_size,
            take: Vec::new(),
            merse_take: Vec::new(),
            left: Vec::new(),
            permutations,
        }
    }

    /// The pool minus the taken batch, in pool order.
    pub fn get_left(&self, source: &[char], taken: &[char]) -> (r: Vec<char>)
        ensures
            r@ == source@.filter(|c: char| !taken@.contains(c)),
    {
        let mut difference: Vec<char> = Vec::new();
        let mut k: usize = 0;
        while k < source.len()
            invariant
                0 <= k <= source@.len(),
                difference@ == source@.take(k as int).filter(|c: char| !taken@.contains(c)),
            decreases source@.len() - k,
        {
            let item = source[k];
            proof {
                reveal(Seq::filter);
                assert(source@.take(k + 1).drop_last() =~= source@.take(k as int));
                assert(source@.take(k + 1).last() == source@[k as int]);
            }
            if !contains_char(taken, item) {
                difference.push(item);
            }
            k = k + 1;
        }
        proof {
            assert(source@.take(source@.len() as int) =~= source@);
        }
        difference
    }

    /// Advance to the next untried batch; an empty take signals that this
    /// frame is exhausted.
    pub fn new_perm(&mut self)
        requires
            segment_wf(*old(self)),
        ensures
            segment_wf(*final(self)),
            segment_take_wf(*final(self)),
            final(self).source@ == old(self).source@,
            final(self).perm_size == old(self).perm_size,
            old(self).permutations@.len() == 0 ==> final(self).take@.len() == 0
                && final(self).permutations@.len() == 0,
            old(self).permutations@.len() > 0 ==> final(self).take@
                == old(self).permutations@.last()@ && final(self).take@.len()
                == old(self).perm_size && final(self).permutations@
                == old(self).permutations@.drop_last(),
            old(self).permutations@.len() > 0 && views_of(
                old(self).permutations@,
            ).no_duplicates() ==> views_of(final(self).permutations@).no_duplicates()
                && !views_of(final(self).permutations@).contains(final(self).take@),
    {
        let next = self.permutations.pop();
        self.take = match next {
            Some(p) => p,
            None => Vec::new(),
        };
        proof {
            assert(is_selection_of(self.take@, self.source@));
            assert forall|i: int| 0 <= i < self.take@.len() implies is_lower_alpha(
                #[trigger] self.take@[i],
            ) by {
                assert(self.source@.contains(self.take@[i]));
                let t = choose|t: int|
                    0 <= t < self.source@.len() && self.source@[t] == self.take@[i];
                assert(is_lower_alpha(self.source@[t]));
            }
        }
        self.merse_take = chars_to_smooshedmerse(self.take.as_slice());
        let left = self.get_left(self.source.as_slice(), self.take.as_slice());
        self.left = left;
        proof {
            let before = views_of(old(self).permutations@);
            if old(self).permutations@.len() > 0 && before.no_duplicates() {
                assert(views_of(self.permutations@) =~= before.drop_last());
                assert(views_of(self.permutations@).no_duplicates()) by {
                    assert(forall|p: int, q: int|
                        0 <= p < q < before.drop_last().len() ==> before.drop_last()[p]
                            != before.drop_last()[q]);
                }
                assert(self.take@ == before.last());
                if views_of(self.permutations@).contains(self.take@) {
                    let j = choose|j: int|
                        0 <= j < before.drop_last().len() && before.drop_last()[j] == self.take@;
                    assert(before[j] == before[before.len() - 1]);
                    assert(false);
                }
            }
        }
    }
}

/// True when the slice is one of the characters.
fn contains_char(s: &[char], c: char) -> (r: bool)
    ensures
        r == s@.contains(c),
{
    let mut k: usize = 0;
    while k < s.len()
        invariant
            0 <= k <= s@.len(),
            forall|j: int| 0 <= j < k ==> s@[j] != c,
        decreases s@.len() - k,
    {
        if s[k] == c {
            return true;
        }
        k = k + 1;
    }
    false
}

/// True when the batch's code occupies the target bits starting at
/// `offset`; a batch that would run past the end never matches.
pub fn check_for_match(input: &[bool], offset: usize, code: &[bool]) -> (r: bool)
    ensures
        r == match_at(input@, offset as int, code@),
{
    if offset > input.len() || input.len() - offset < code.len() {
        return false;
    }
    let end: usize = offset + code.len();
    let mut k: usize = 0;
    while k < code.len()
        invariant
            end == offset + code@.len(),
            offset + code@.len() <= input@.len(),
            0 <= k <= code@.len(),
            forall|j: int| 0 <= j < k ==> input@[offset + j] == code@[j],
        decreases code@.len() - k,
    {
        if input[offset + k] != code[k] {
            proof {
                assert(input@.subrange(offset as int, offset as int + code@.len())[k as int]
                    != code@[k as int]);
            }
            return false;
        }
        k = k + 1;
    }
    proof {
        assert(input@.subrange(offset as int, offset as int + code@.len()) =~= code@);
    }
    true
}

/// One search level: try every untried batch of the pool at the given bit
/// offset; on a match, recurse into the leftover pool. A returned batch
/// sequence uses the whole pool and encodes exactly the rest of the target.
pub fn algo(input: &[bool], increment: usize, pool: &Vec<char>, offset: usize) -> (r: Option<
    Vec<char>,
>)
    requires
        increment >= 1,
        1 <= pool@.len(),
        pool@.no_duplicates(),
        forall|i: int| 0 <= i < pool@.len() ==> is_lower_alpha(#[trigger] pool@[i]),
        offset <= input@.len(),
    ensures
        r matches Some(s) ==> s@.no_duplicates() && s@.to_set() == pool@.to_set() && smooshed(s@)
            == input@.skip(offset as int),
        r matches Some(s) ==> solve(pool@, input@, offset as int, increment as nat) == Some(s@),
        r is None ==> solve(pool@, input@, offset as int, increment as nat) is None,
    decreases pool@.len(),
{
    let mut frame = SegmentChars::init(pool.as_slice(), increment);
    loop
        invariant
            increment >= 1,
            1 <= pool@.len(),
            pool@.no_duplicates(),
            forall|i: int| 0 <= i < pool@.len() ==> is_lower_alpha(#[trigger] pool@[i]),
            offset <= input@.len(),
            segment_wf(frame),
            frame.source@ == pool@,
            frame.perm_size >= 1,
            solve_cands(
                views_of(frame.permutations@),
                pool@,
                input@,
                offset as int,
                increment as nat,
            ) == solve(pool@, input@, offset as int, increment as nat),
        decreases frame.permutations@.len(),
    {
        let ghost cands = views_of(frame.permutations@);
        frame.new_perm();
        proof {
            if cands.len() > 0 {
                assert(views_of(frame.permutations@) =~= cands.drop_last());
                assert(cands.last() == frame.take@);
            }
        }
        if frame.take.len() == 0 {
            proof {
                assert(cands.len() == 0);
                assert(solve(pool@, input@, offset as int, increment as nat) is None);
            }
            return None;
        }
        let ghost b = cands.last();
        proof {
            assert(cands.len() > 0);
            assert(b == frame.take@);
            assert(smooshed(b) == frame.merse_take@);
            assert(pool@.filter(|c: char| !b.contains(c)) == frame.left@);
        }
        let code_len = frame.merse_take.len();
        if check_for_match(input, offset, frame.merse_take.as_slice()) {
            let input_len = input.len();
            proof {
                crate::model::lemma_filter_membership(
                    frame.source@,
                    |c: char| !frame.take@.contains(c),
                );
            }
            if frame.left.len() == 0 {
                if offset + code_len == input_len {
                    proof {
                        assert(forall|x: char|
                            frame.source@.contains(x) ==> frame.take@.contains(x));
                        assert(frame.take@.to_set() =~= pool@.to_set());
                        assert(smooshed(frame.take@) =~= input@.skip(offset as int));
                        assert(solve_cands(
                            cands,
                            pool@,
                            input@,
                            offset as int,
                            increment as nat,
                        ) == Some(b));
                    }
                    return Some(frame.take);
                } else {
                    proof {
                        assert(solve_cands(cands, pool@, input@, offset as int, increment as nat)
                            == solve_cands(
                            cands.drop_last(),
                            pool@,
                            input@,
                            offset as int,
                            increment as nat,
                        ));
                    }
                }
            } else {
                proof {
                    assert(frame.left@.len() < frame.source@.len()) by {
                        assert(frame.left@.len() > 0);
                        let w = frame.left@[0];
                        assert(frame.left@.contains(w));
                        assert(frame.take@.len() >= 1);
                        let t0 = frame.take@[0];
                        assert(frame.source@.contains(t0));
                        let ti = choose|ti: int|
                            0 <= ti < frame.source@.len() && frame.source@[ti] == t0;
                        assert(!(!frame.take@.contains(frame.source@[ti])));
                    }
                    assert(forall|i: int|
                        0 <= i < frame.left@.len() ==> is_lower_alpha(#[trigger] frame.left@[i]))
                        by {
                        assert(forall|i: int|
                            0 <= i < frame.left@.len() ==> frame.source@.contains(
                                #[trigger] frame.left@[i],
                            ));
                    }
                }
                let sub_result = algo(input, increment, &frame.left, offset + code_len);
                proof {
                    assert(frame.left@.len() < pool@.len());
                    if sub_result is Some {
                        assert(solve_cands(cands, pool@, input@, offset as int, increment as nat)
                            == Some(b + sub_result->0@));
                    } else {
                        assert(solve(frame.left@, input@, offset + code_len, increment as nat)
                            is None);
                        assert(solve_cands(cands, pool@, input@, offset as int, increment as nat)
                            == solve_cands(
                            cands.drop_last(),
                            pool@,
                            input@,
                            offset as int,
                            increment as nat,
                        ));
                    }
                }
                match sub_result {
                    Some(sub) => {
                        let mut result = frame.take;
                        let ghost take_seq = result@;
                        let ghost sub_seq = sub@;
                        let mut sub_mut = sub;
                        result.append(&mut sub_mut);
                        proof {
                            broadcast use vstd::set::group_set_axioms;

                            assert(result@ == take_seq + sub_seq);
                            let left_seq = frame.left@;
                            assert forall|x: char| sub_seq.contains(x) <==> left_seq.contains(
                                x,
                            ) by {
                                assert(sub_seq.to_set().contains(x) == sub_seq.contains(x));
                                assert(left_seq.to_set().contains(x) == left_seq.contains(x));
                                assert(sub_seq.to_set() == left_seq.to_set());
                            }
                            assert(forall|x: char|
                                !(take_seq.contains(x) && sub_seq.contains(x))) by {
                                assert(forall|x: char|
                                    left_seq.contains(x) ==> !take_seq.contains(x));
                            }
                            lemma_disjoint_concat(take_seq, sub_seq);
                            assert(result@.to_set() =~= pool@.to_set()) by {
                                assert(forall|x: char|
                                    result@.contains(x) <==> take_seq.contains(x)
                                        || sub_seq.contains(x));
                                assert(forall|x: char|
                                    left_seq.contains(x) <==> (frame.source@.contains(x)
                                        && !take_seq.contains(x)));
                                assert(forall|x: char|
                                    take_seq.contains(x) ==> frame.source@.contains(x));
                            }
                            crate::model::lemma_smooshed_add(take_seq, sub_seq);
                            assert(smooshed(result@) =~= input@.skip(offset as int)) by {
                                assert(smooshed(take_seq) == input@.subrange(
                                    offset as int,
                                    offset + smooshed(take_seq).len(),
                                ));
                                assert(smooshed(sub_seq) == input@.skip(
                                    offset + smooshed(take_seq).len(),
                                ));
                            }
                        }
                        return Some(result);
                    },
                    None => {},
                }
            }
        } else {
            proof {
                assert(solve_cands(cands, pool@, input@, offset as int, increment as nat)
                    == solve_cands(
                    cands.drop_last(),
                    pool@,
                    input@,
                    offset as int,
                    increment as nat,
                ));
            }
        }
    }
}

/// Search for an alphabet permutation whose smooshed encoding is the
/// target, moving `increment` letters per level.
pub fn find_permutations(merse_alpha_perm: &[bool], increment: u8) -> (r: Option<Vec<char>>)
    requires
        increment >= 1,
    ensures
        r matches Some(s) ==> s@.no_duplicates() && s@.to_set() == alphabet_spec().to_set()
            && s@.len() == 26 && smooshed(s@) == merse_alpha_perm@,
        r matches Some(s) ==> solve(alphabet_spec(), merse_alpha_perm@, 0, increment as nat)
            == Some(s@),
        r is None ==> solve(alphabet_spec(), merse_alpha_perm@, 0, increment as nat) is None,
{
    let letters = alphabet();
    proof {
        crate::model::lemma_alphabet_facts();
    }
    let r = algo(merse_alpha_perm, increment as usize, &letters, 0);
    match &r {
        Some(s) => {
            proof {
                assert(merse_alpha_perm@.skip(0) =~= merse_alpha_perm@);
                s@.unique_seq_to_set();
                alphabet_spec().unique_seq_to_set();
            }
        },
        None => {},
    }
    r
}

/// The length of the smooshed encoding of the whole alphabet: the only
/// length a valid target can have.
pub fn smalpha_right_len() -> (r: usize)
    ensures
        r == smooshed(alphabet_spec()).len(),
{
    let letters = alphabet();
    proof {
        crate::model::lemma_alphabet_facts();
    }
    let encoded = chars_to_smooshedmerse(letters.as_slice());
    encoded.len()
}

/// A target is admitted exactly when it is all dots and dashes and as long
/// as a full alphabet encoding; the symbol check runs first.
pub fn validate_smalpha(smalpha: &str) -> (r: Result<(), SearchError>)
    ensures
        r is Ok <==> valid_morse(smalpha@) && smalpha@.len() == smooshed(alphabet_spec()).len(),
        r == Err::<(), SearchError>(SearchError::InvalidSymbol) <==> !valid_morse(smalpha@),
        r == Err::<(), SearchError>(SearchError::WrongLength) <==> valid_morse(smalpha@)
            && smalpha@.len() != smooshed(alphabet_spec()).len(),
{
    match validate_morse_str(smalpha) {
        Ok(_) => {},
        Err(_) => {
            return Err(SearchError::InvalidSymbol);
        },
    }
    if smalpha.unicode_len() != smalpha_right_len() {
        return Err(SearchError::WrongLength);
    }
    Ok(())
}

/// A uniformly shuffled alphabet.
pub fn random_alphabet() -> (r: Vec<char>)
    ensures
        r@.to_multiset() == alphabet_spec().to_multiset(),
        r@.len() == 26,
        forall|i: int| 0 <= i < r@.len() ==> is_lower_alpha(#[trigger] r@[i]),
        r@.no_duplicates(),
{
    let mut letters = alphabet();
    proof {
        crate::model::lemma_alphabet_facts();
    }
    shuffle_chars(&mut letters);
    proof {
        letters@.to_multiset_ensures();
        alphabet_spec().to_multiset_ensures();
        assert forall|i: int| 0 <= i < letters@.len() implies is_lower_alpha(
            #[trigger] letters@[i],
        ) by {
            assert(letters@.to_multiset().contains(letters@[i]));
            assert(alphabet_spec().contains(letters@[i]));
        }
        alphabet_spec().lemma_multiset_has_no_duplicates();
        letters@.lemma_multiset_has_no_duplicates_conv();
    }
    letters
}

/// Recover one permutation of the alphabet whose smooshed encoding is the
/// target; with no target given, a random permutation's encoding is solved
/// as a demonstration. A solution uses every letter exactly once and
/// encodes back to the target. For a given target the outcome is the value
/// of the `solve` model, so two runs on the same target return the same
/// answer, and a target the validator admits is answered with
/// `NoSolutionFound` exactly when the model finds no permutation.
pub fn run(smooshed_alphabet_permutation: Option<String>) -> (r: Result<Vec<String>, SearchError>)
    ensures
        smooshed_alphabet_permutation matches Some(target) ==> {
            &&& (r matches Ok(v) ==> v@.len() == 1 && v@[0]@.len() == 26 && v@[0]@.no_duplicates()
                && v@[0]@.to_set() == alphabet_spec().to_set() && smooshed(v@[0]@)
                == merse_of_morse(target@))
            &&& (r matches Ok(v) ==> solve(
                alphabet_spec(),
                merse_of_morse(target@),
                0,
                INCREMENT as nat,
            ) == Some(v@[0]@))
            &&& (r is Ok <==> valid_morse(target@) && target@.len() == smooshed(
                alphabet_spec(),
            ).len() && solve(alphabet_spec(), merse_of_morse(target@), 0, INCREMENT as nat)
                is Some)
            &&& (r == Err::<Vec<String>, SearchError>(SearchError::InvalidSymbol) <==> !valid_morse(
                target@,
            ))
            &&& (r == Err::<Vec<String>, SearchError>(SearchError::WrongLength) <==> valid_morse(
                target@,
            ) && target@.len() != smooshed(alphabet_spec()).len())
            &&& (r == Err::<Vec<String>, SearchError>(SearchError::NoSolutionFound) <==> valid_morse(
                target@,
            ) && target@.len() == smooshed(alphabet_spec()).len() && solve(
                alphabet_spec(),
                merse_of_morse(target@),
                0,
                INCREMENT as nat,
            ) is None)
        },
        smooshed_alphabet_permutation is None ==> {
            &&& r is Ok
            &&& (r matches Ok(v) ==> v@.len() == 1 && v@[0]@.len() == 26 && v@[0]@.no_duplicates()
                && v@[0]@.to_set() == alphabet_spec().to_set())
        },
{
    let merse: Vec<bool> = match smooshed_alphabet_permutation {
        Some(smalpha) => {
            match validate_smalpha(smalpha.as_str()) {
                Ok(_) => {},
                Err(e) => {
                    return Err(e);
                },
            }
            match smooshedmorse_to_merse(smalpha.as_str()) {
                Ok(v) => v,
                Err(_) => {
                    proof {
                        assert(false);
                    }
                    Vec::new()
                },
            }
        },
        None => {
            let random_perm = random_alphabet();
            proof {
                broadcast use vstd::set::group_set_axioms;

                random_perm@.to_multiset_ensures();
                alphabet_spec().to_multiset_ensures();
                assert(random_perm@.to_set() =~= alphabet_spec().to_set()) by {
                    assert forall|x: char|
                        random_perm@.to_set().contains(x) == alphabet_spec().to_set().contains(
                            x,
                        ) by {
                        assert(random_perm@.to_set().contains(x) == random_perm@.contains(x));
                        assert(alphabet_spec().to_set().contains(x) == alphabet_spec().contains(
                            x,
                        ));
                        assert(random_perm@.contains(x) <==> random_perm@.to_multiset().count(x)
                            > 0);
                        assert(alphabet_spec().contains(x) <==> alphabet_spec().to_multiset()
                            .count(x) > 0);
                    }
                }
                lemma_round_trip(random_perm@, INCREMENT as nat);
            }
            chars_to_smooshedmerse(random_perm.as_slice())
        },
    };
    match find_permutations(merse.as_slice(), INCREMENT) {
        Some(perm) => {
            let word = chars_to_string(perm.as_slice());
            let mut out: Vec<String> = Vec::new();
            out.push(word);
            Ok(out)
        },
        None => Err(SearchError::NoSolutionFound),
    }
}

/// The round trip law: the smooshed encoding of any permutation of the
/// alphabet is a well-formed target — all dots and dashes, of the one
/// right length, reading back to the same bits — and the search model
/// always finds a permutation for it. Together with the contract of
/// `run`, searching such a target returns a permutation whose encoding
/// is the target itself.
pub proof fn lemma_round_trip(p: Seq<char>, inc: nat)
    requires
        inc >= 1,
        p.no_duplicates(),
        p.to_set() == alphabet_spec().to_set(),
    ensures
        valid_morse(morse_of_merse(smooshed(p))),
        merse_of_morse(morse_of_merse(smooshed(p))) == smooshed(p),
        smooshed(p).len() == smooshed(alphabet_spec()).len(),
        solve(alphabet_spec(), smooshed(p), 0, inc) is Some,
        solve(alphabet_spec(), smooshed(p), 0, inc) matches Some(q) ==> q.no_duplicates()
            && q.to_set() == alphabet_spec().to_set() && smooshed(q) == smooshed(p),
{
    crate::model::lemma_merse_morse_round_trip(smooshed(p));
    crate::model::lemma_alphabet_facts();
    crate::model::lemma_nodup_same_set_multiset(p, alphabet_spec());
    crate::model::lemma_smooshed_len_multiset(p, alphabet_spec());
    assert(smooshed(p).skip(0) =~= smooshed(p));
    lemma_solve_complete(alphabet_spec(), smooshed(p), 0, inc, p);
    lemma_solve_sound(alphabet_spec(), smooshed(p), 0, inc);
}

/// The letters of the batch, joined into a string.
fn chars_to_string(chars: &[char]) -> (r: String)
    ensures
        r@ == chars@,
{
    let mut s = String::new();
    let mut k: usize = 0;
    while k < chars.len()
        invariant
            0 <= k <= chars@.len(),
            s@ == chars@.take(k as int),
        decreases chars@.len() - k,
    {
        s.push(chars[k]);
        proof {
            assert(chars@.take(k + 1) =~= chars@.take(k as int).push(chars@[k as int]));
        }
        k = k + 1;
    }
    proof {
        assert(chars@.take(chars@.len() as int) =~= chars@);
    }
    s
}

} // verus!
