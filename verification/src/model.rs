//! The mathematical model: the Morse code table over the lowercase
//! alphabet, dot = `false` / dash = `true` bit sequences ("merse"),
//! and the smooshed (separator-free) encoding of letter sequences.
use vstd::prelude::*;

verus! {

/// The lowercase alphabet, in order.
pub open spec fn alphabet_spec() -> Seq<char> {
    seq![
        'a', 'b', 'c', 'd', 'e', 'f', 'g', 'h', 'i', 'j', 'k', 'l', 'm',
        'n', 'o', 'p', 'q', 'r', 's', 't', 'u', 'v', 'w', 'x', 'y', 'z',
    ]
}

pub open spec fn is_lower_alpha(c: char) -> bool {
    'a' <= c && c <= 'z'
}

pub open spec fn is_upper_alpha(c: char) -> bool {
    'A' <= c && c <= 'Z'
}

pub open spec fn is_ascii_alpha(c: char) -> bool {
    is_lower_alpha(c) || is_upper_alpha(c)
}

/// Lowercase a single ASCII letter; other characters are unchanged.
pub open spec fn to_lower(c: char) -> char {
    if is_upper_alpha(c) {
        ((c as u32) + 32) as char
    } else {
        c
    }
}

/// The Morse code of a lowercase letter, as bits: dot = false, dash = true.
pub open spec fn merse_code(c: char) -> Seq<bool> {
    if c == 'a' { seq![false, true] }
    else if c == 'b' { seq![true, false, false, false] }
    else if c == 'c' { seq![true, false, true, false] }
    else if c == 'd' { seq![true, false, false] }
    else if c == 'e' { seq![false] }
    else if c == 'f' { seq![false, false, true, false] }
    else if c == 'g' { seq![true, true, false] }
    else if c == 'h' { seq![false, false, false, false] }
    else if c == 'i' { seq![false, false] }
    else if c == 'j' { seq![false, true, true, true] }
    else if c == 'k' { seq![true, false, true] }
    else if c == 'l' { seq![false, true, false, false] }
    else if c == 'm' { seq![true, true] }
    else if c == 'n' { seq![true, false] }
    else if c == 'o' { seq![true, true, true] }
    else if c == 'p' { seq![false, true, true, false] }
    else if c == 'q' { seq![true, true, false, true] }
    else if c == 'r' { seq![false, true, false] }
    else if c == 's' { seq![false, false, false] }
    else if c == 't' { seq![true] }
    else if c == 'u' { seq![false, false, true] }
    else if c == 'v' { seq![false, false, false, true] }
    else if c == 'w' { seq![false, true, true] }
    else if c == 'x' { seq![true, false, false, true] }
    else if c == 'y' { seq![true, false, true, true] }
    else if c == 'z' { seq![true, true, false, false] }
    else { Seq::empty() }
}

/// The smooshed encoding: the codes of the letters, concatenated in order.
pub open spec fn smooshed(s: Seq<char>) -> Seq<bool>
    decreases s.len(),
{
    if s.len() == 0 {
        Seq::empty()
    } else {
        merse_code(s[0]) + smooshed(s.skip(1))
    }
}

/// A morse symbol is a dot or a dash.
pub open spec fn is_morse_symbol(c: char) -> bool {
    c == '.' || c == '-'
}

pub open spec fn valid_morse(s: Seq<char>) -> bool {
    forall|i: int| 0 <= i < s.len() ==> is_morse_symbol(#[trigger] s[i])
}

pub open spec fn bit_of_symbol(c: char) -> bool {
    c == '-'
}

pub open spec fn symbol_of_bit(b: bool) -> char {
    if b { '-' } else { '.' }
}

/// Read a morse character string as bits.
pub open spec fn merse_of_morse(s: Seq<char>) -> Seq<bool> {
    s.map_values(|c: char| bit_of_symbol(c))
}

/// Print bits as a morse character string.
pub open spec fn morse_of_merse(s: Seq<bool>) -> Seq<char> {
    s.map_values(|b: bool| symbol_of_bit(b))
}

/// The Morse code of a lowercase letter, as dot/dash characters.
pub open spec fn morse_code(c: char) -> Seq<char> {
    morse_of_merse(merse_code(c))
}

/// A word, lowercased letter by letter.
pub open spec fn lower_seq(s: Seq<char>) -> Seq<char> {
    s.map_values(|c: char| to_lower(c))
}

/// The first letter at or after position `i` of the alphabet whose merse
/// code is `v`, if any.
pub open spec fn decode_merse_from(v: Seq<bool>, i: int) -> Option<char>
    decreases 26 - i,
{
    if i < 0 || i >= 26 {
        None
    } else if merse_code(alphabet_spec()[i]) == v {
        Some(alphabet_spec()[i])
    } else {
        decode_merse_from(v, i + 1)
    }
}

/// The first letter of the alphabet whose merse code is `v`, if any.
pub open spec fn decode_merse(v: Seq<bool>) -> Option<char> {
    decode_merse_from(v, 0)
}

/// The first letter at or after position `i` of the alphabet whose morse
/// string is `s`, if any.
pub open spec fn decode_morse_from(s: Seq<char>, i: int) -> Option<char>
    decreases 26 - i,
{
    if i < 0 || i >= 26 {
        None
    } else if morse_code(alphabet_spec()[i]) == s {
        Some(alphabet_spec()[i])
    } else {
        decode_morse_from(s, i + 1)
    }
}

/// The first letter of the alphabet whose morse string is `s`, if any.
pub open spec fn decode_morse(s: Seq<char>) -> Option<char> {
    decode_morse_from(s, 0)
}

/// Concatenating letter sequences concatenates their encodings.
pub proof fn lemma_smooshed_add(a: Seq<char>, b: Seq<char>)
    ensures
        smooshed(a + b) == smooshed(a) + smooshed(b),
    decreases a.len(),
{
    if a.len() == 0 {
        assert(a + b =~= b);
        assert(smooshed(a) + smooshed(b) =~= smooshed(b));
    } else {
        lemma_smooshed_add(a.skip(1), b);
        assert((a + b).skip(1) =~= a.skip(1) + b);
        assert(smooshed(a + b) =~= smooshed(a) + smooshed(b));
    }
}

/// Appending one letter appends its code.
pub proof fn lemma_smooshed_push(s: Seq<char>, c: char)
    ensures
        smooshed(s.push(c)) == smooshed(s) + merse_code(c),
{
    assert(s.push(c) =~= s + seq![c]);
    lemma_smooshed_add(s, seq![c]);
    assert(seq![c].skip(1) =~= Seq::<char>::empty());
    assert(smooshed(seq![c].skip(1)) =~= Seq::<bool>::empty());
    assert(smooshed(seq![c]) =~= merse_code(c));
}

/// Filtering keeps exactly the members that satisfy the predicate,
/// introduces no duplicate, and drops every member that fails it.
pub proof fn lemma_filter_membership<A>(s: Seq<A>, pred: spec_fn(A) -> bool)
    ensures
        forall|x: A| s.filter(pred).contains(x) <==> s.contains(x) && pred(x),
        s.no_duplicates() ==> s.filter(pred).no_duplicates(),
        forall|i: int| 0 <= i < s.len() && !pred(s[i]) ==> s.filter(pred).len() < s.len(),
    decreases s.len(),
{
    reveal(Seq::filter);
    broadcast use vstd::seq_lib::group_seq_lib_default;

    if s.len() == 0 {
        assert forall|x: A| s.filter(pred).contains(x) implies s.contains(x) && pred(x) by {}
    } else {
        let rest = s.drop_last();
        lemma_filter_membership(rest, pred);
        assert forall|x: A| s.contains(x) && pred(x) implies s.filter(pred).contains(x) by {
            let i = choose|i: int| 0 <= i < s.len() && s[i] == x;
            if i < s.len() - 1 {
                assert(rest[i] == x);
                assert(rest.contains(x));
                let j = choose|j: int| 0 <= j < rest.filter(pred).len() && rest.filter(pred)[j]
                    == x;
                assert(s.filter(pred)[j] == x);
            } else {
                assert(s.filter(pred).last() == x);
            }
        }
        assert forall|x: A| s.filter(pred).contains(x) implies s.contains(x) && pred(x) by {
            let j = choose|j: int| 0 <= j < s.filter(pred).len() && s.filter(pred)[j] == x;
            if pred(s.last()) && j == s.filter(pred).len() - 1 {
                assert(s.contains(s.last()));
            } else {
                assert(rest.filter(pred)[j] == x);
                assert(rest.contains(x));
                let i = choose|i: int| 0 <= i < rest.len() && rest[i] == x;
                assert(s[i] == x);
            }
        }
        if s.no_duplicates() {
            assert(rest.no_duplicates());
            if pred(s.last()) {
                assert(!rest.contains(s.last()));
                assert(!rest.filter(pred).contains(s.last()));
                assert(s.filter(pred) == rest.filter(pred).push(s.last()));
                assert(s.filter(pred).no_duplicates()) by {
                    let f = rest.filter(pred);
                    assert(forall|i: int, j: int|
                        0 <= i < j < f.push(s.last()).len() ==> f.push(s.last())[i] != f.push(
                            s.last(),
                        )[j]);
                }
            }
        }
        assert forall|i: int| 0 <= i < s.len() && !pred(s[i]) implies s.filter(pred).len()
            < s.len() by {
            if i == s.len() - 1 {
                rest.lemma_filter_len(pred);
            } else {
                assert(!pred(rest[i]));
                rest.lemma_filter_len(pred);
            }
        }
    }
}

/// All characters of the word are ASCII letters.
pub open spec fn all_ascii_alpha(s: Seq<char>) -> bool {
    forall|i: int| 0 <= i < s.len() ==> is_ascii_alpha(#[trigger] s[i])
}

/// Taking one letter out shortens the encoding by that letter's code.
pub proof fn lemma_smooshed_remove(s: Seq<char>, i: int)
    requires
        0 <= i < s.len(),
    ensures
        smooshed(s).len() == smooshed(s.remove(i)).len() + merse_code(s[i]).len(),
{
    assert(s =~= s.take(i) + (seq![s[i]] + s.skip(i + 1)));
    lemma_smooshed_add(s.take(i), seq![s[i]] + s.skip(i + 1));
    lemma_smooshed_add(seq![s[i]], s.skip(i + 1));
    assert(seq![s[i]].skip(1) =~= Seq::<char>::empty());
    assert(smooshed(seq![s[i]].skip(1)) =~= Seq::<bool>::empty());
    assert(smooshed(seq![s[i]]) =~= merse_code(s[i]));
    assert(s.remove(i) =~= s.take(i) + s.skip(i + 1));
    lemma_smooshed_add(s.take(i), s.skip(i + 1));
}

/// Letter sequences with the same letters, however ordered, encode to the
/// same number of bits.
pub proof fn lemma_smooshed_len_multiset(a: Seq<char>, b: Seq<char>)
    requires
        a.to_multiset() == b.to_multiset(),
    ensures
        smooshed(a).len() == smooshed(b).len(),
    decreases a.len(),
{
    a.to_multiset_ensures();
    b.to_multiset_ensures();
    if a.len() == 0 {
        assert(b.len() == 0);
    } else {
        let x = a.last();
        assert(a.contains(x));
        assert(a.to_multiset().count(x) > 0);
        assert(b.contains(x));
        let i = choose|i: int| 0 <= i < b.len() && b[i] == x;
        a.drop_last().to_multiset_ensures();
        assert(a.drop_last().push(x) =~= a);
        assert(a.drop_last().push(x).to_multiset() =~= a.drop_last().to_multiset().insert(x));
        assert(a.drop_last().to_multiset().insert(x) =~= a.to_multiset());
        assert(b.remove(i).to_multiset() =~= b.to_multiset().remove(x));
        assert(a.drop_last().to_multiset() =~= b.remove(i).to_multiset()) by {
            assert forall|y: char| true implies a.drop_last().to_multiset().count(y) == b.remove(
                i,
            ).to_multiset().count(y) by {
                if y == x {
                    assert(a.drop_last().to_multiset().insert(x).count(x) == a.drop_last()
                        .to_multiset().count(x) + 1);
                } else {
                    assert(a.drop_last().to_multiset().insert(x).count(y) == a.drop_last()
                        .to_multiset().count(y));
                }
            }
        }
        lemma_smooshed_len_multiset(a.drop_last(), b.remove(i));
        lemma_smooshed_remove(b, i);
        assert(a.drop_last() =~= a.remove(a.len() - 1));
        lemma_smooshed_remove(a, a.len() - 1);
    }
}

/// Duplicate-free sequences with the same members hold the same letters.
pub proof fn lemma_nodup_same_set_multiset(a: Seq<char>, b: Seq<char>)
    requires
        a.no_duplicates(),
        b.no_duplicates(),
        a.to_set() == b.to_set(),
    ensures
        a.to_multiset() == b.to_multiset(),
{
    broadcast use vstd::set::group_set_axioms;

    a.to_multiset_ensures();
    b.to_multiset_ensures();
    a.lemma_multiset_has_no_duplicates();
    b.lemma_multiset_has_no_duplicates();
    assert forall|x: char| true implies a.to_multiset().count(x) == b.to_multiset().count(
        x,
    ) by {
        assert(a.to_set().contains(x) == a.contains(x));
        assert(b.to_set().contains(x) == b.contains(x));
        if a.contains(x) {
            assert(a.to_multiset().count(x) == 1);
            assert(b.to_multiset().count(x) == 1);
        } else {
            assert(a.to_multiset().count(x) == 0) by {
                if a.to_multiset().count(x) > 0 {
                    assert(a.contains(x));
                }
            }
            assert(b.to_multiset().count(x) == 0) by {
                if b.to_multiset().count(x) > 0 {
                    assert(b.contains(x));
                }
            }
        }
    }
    assert(a.to_multiset() =~= b.to_multiset());
}

/// Rendering bits as dots and dashes and reading them back is the
/// identity, and the rendering is a valid morse string.
pub proof fn lemma_merse_morse_round_trip(s: Seq<bool>)
    ensures
        valid_morse(morse_of_merse(s)),
        merse_of_morse(morse_of_merse(s)) == s,
{
    assert(merse_of_morse(morse_of_merse(s)) =~= s);
}

pub proof fn lemma_alphabet_facts()
    ensures
        alphabet_spec().len() == 26,
        alphabet_spec().no_duplicates(),
        forall|i: int| 0 <= i < 26 ==> is_lower_alpha(#[trigger] alphabet_spec()[i]),
{
}

} // verus!
