//! Decoding a smooshed morse word against a word list: every word of the
//! list whose encoding matches is reported, in list order.
use vstd::prelude::*;

use crate::merses::{smooshedmorse_to_merse, MorseError};
use crate::model::{all_ascii_alpha, lower_seq, merse_of_morse, smooshed, valid_morse};
use crate::morses::validate_morse_str;

verus! {

/// The smooshed encoding of a word, as a spec value.
pub open spec fn word_merse(w: Seq<char>) -> Seq<bool> {
    smooshed(lower_seq(w))
}

/// Whitespace, as trimmed from the ends of the input: the characters
/// with the Unicode White_Space property.
pub open spec fn is_space(c: char) -> bool {
    ||| c == ' '
    ||| ('\u{9}' <= c && c <= '\u{D}')
    ||| c == '\u{85}'
    ||| c == '\u{A0}'
    ||| c == '\u{1680}'
    ||| ('\u{2000}' <= c && c <= '\u{200A}')
    ||| c == '\u{2028}'
    ||| c == '\u{2029}'
    ||| c == '\u{202F}'
    ||| c == '\u{205F}'
    ||| c == '\u{3000}'
}

/// True when the character is trimmed from the input's ends.
fn is_space_char(c: char) -> (r: bool)
    ensures
        r == is_space(c),
{
    let u = c as u32;
    u == 0x20 || (0x9 <= u && u <= 0xD) || u == 0x85 || u == 0xA0 || u == 0x1680 || (0x2000 <= u
        && u <= 0x200A) || u == 0x2028 || u == 0x2029 || u == 0x202F || u == 0x205F || u == 0x3000
}

pub open spec fn trim_front(s: Seq<char>) -> Seq<char>
    decreases s.len(),
{
    if s.len() > 0 && is_space(s[0]) {
        trim_front(s.skip(1))
    } else {
        s
    }
}

pub open spec fn trim_back(s: Seq<char>) -> Seq<char>
    decreases s.len(),
{
    if s.len() > 0 && is_space(s.last()) {
        trim_back(s.drop_last())
    } else {
        s
    }
}

/// The input with whitespace removed from both ends.
pub open spec fn trim_spec(s: Seq<char>) -> Seq<char> {
    trim_back(trim_front(s))
}

proof fn lemma_trim_front_skip(s: Seq<char>, a: int)
    requires
        0 <= a <= s.len(),
        forall|j: int| 0 <= j < a ==> is_space(#[trigger] s[j]),
        a == s.len() || !is_space(s[a]),
    ensures
        trim_front(s) == s.skip(a),
    decreases a,
{
    if a == 0 {
        assert(s.skip(0) =~= s);
    } else {
        lemma_trim_front_skip(s.skip(1), a - 1);
        assert(s.skip(1).skip(a - 1) =~= s.skip(a));
    }
}

proof fn lemma_trim_back_take(s: Seq<char>, b: int)
    requires
        0 <= b <= s.len(),
        forall|j: int| b <= j < s.len() ==> is_space(#[trigger] s[j]),
        b == 0 || !is_space(s[b - 1]),
    ensures
        trim_back(s) == s.take(b),
    decreases s.len() - b,
{
    if b == s.len() {
        assert(s.take(b) =~= s);
    } else {
        lemma_trim_back_take(s.drop_last(), b);
        assert(s.drop_last().take(b) =~= s.take(b));
    }
}

/// The input with surrounding whitespace removed.
fn trim_whitespace(s: &str) -> (r: &str)
    ensures
        r@ == trim_spec(s@),
{
    let n = s.unicode_len();
    let mut a: usize = 0;
    while a < n
        invariant
            n == s@.len(),
            0 <= a <= n,
            forall|j: int| 0 <= j < a ==> is_space(#[trigger] s@[j]),
        ensures
            a == n || !is_space(s@[a as int]),
        decreases n - a,
    {
        let ch = s.get_char(a);
        if !is_space_char(ch) {
            break ;
        }
        a = a + 1;
    }
    if a == n {
        proof {
            lemma_trim_front_skip(s@, a as int);
            assert(s@.skip(n as int) =~= Seq::<char>::empty());
            assert(trim_back(Seq::<char>::empty()) =~= Seq::<char>::empty());
            assert(s@.subrange(n as int, n as int) =~= Seq::<char>::empty());
        }
        return s.substring_char(n, n);
    }
    let mut b: usize = n;
    while b > a
        invariant
            n == s@.len(),
            0 <= a < n,
            a < b <= n,
            !is_space(s@[a as int]),
            forall|j: int| b <= j < n ==> is_space(#[trigger] s@[j]),
        ensures
            a < b <= n,
            !is_space(s@[b - 1]),
            forall|j: int| b <= j < n ==> is_space(#[trigger] s@[j]),
        decreases b,
    {
        let ch = s.get_char(b - 1);
        if !is_space_char(ch) {
            break ;
        }
        b = b - 1;
    }
    proof {
        lemma_trim_front_skip(s@, a as int);
        assert(b > a);
        assert(!is_space(s@[b - 1]));
        lemma_trim_back_take(s@.skip(a as int), b - a);
        assert(s@.skip(a as int).take(b - a) =~= s@.subrange(a as int, b as int));
    }
    s.substring_char(a, b)
}

/// The positions, in order, of the list entries equal to the target.
pub open spec fn matching_positions(words: Seq<Seq<bool>>, target: Seq<bool>) -> Seq<int>
    decreases words.len(),
{
    if words.len() == 0 {
        Seq::empty()
    } else {
        let rest = matching_positions(words.drop_last(), target);
        if words.last() == target {
            rest.push(words.len() - 1)
        } else {
            rest
        }
    }
}

/// Collecting the words at the matching positions is filtering the list.
proof fn lemma_matching_positions_filter(
    strs: Seq<Seq<char>>,
    merses: Seq<Seq<bool>>,
    target: Seq<bool>,
)
    requires
        strs.len() == merses.len(),
        forall|i: int| 0 <= i < strs.len() ==> merses[i] == word_merse(#[trigger] strs[i]),
    ensures
        matching_positions(merses, target).map_values(|u: int| strs[u]) == strs.filter(
            |w: Seq<char>| word_merse(w) == target,
        ),
        forall|k: int|
            0 <= k < matching_positions(merses, target).len() ==> 0 <= #[trigger] matching_positions(
                merses,
                target,
            )[k] < strs.len(),
    decreases strs.len(),
{
    reveal(Seq::filter);
    let pred = |w: Seq<char>| word_merse(w) == target;
    if strs.len() == 0 {
        assert(matching_positions(merses, target).map_values(|u: int| strs[u]) =~= strs.filter(
            pred,
        ));
    } else {
        lemma_matching_positions_filter(strs.drop_last(), merses.drop_last(), target);
        let rest = matching_positions(merses.drop_last(), target);
        assert(rest.map_values(|u: int| strs.drop_last()[u]) == strs.drop_last().filter(pred));
        assert(rest.map_values(|u: int| strs[u]) =~= rest.map_values(
            |u: int| strs.drop_last()[u],
        ));
        if merses.last() == target {
            assert(pred(strs.last()));
            assert(matching_positions(merses, target) == rest.push(merses.len() - 1));
            assert(matching_positions(merses, target).map_values(|u: int| strs[u]) =~= strs.filter(
                pred,
            ));
        } else {
            assert(!pred(strs.last()));
            assert(matching_positions(merses, target).map_values(|u: int| strs[u]) =~= strs.filter(
                pred,
            ));
        }
    }
}

/// Every word of the list, encoded to smooshed merse. Every list word must
/// be made of ASCII letters only.
pub fn all_words_to_smooshedmerse(all_words: &[String]) -> (r: Vec<Vec<bool>>)
    requires
        forall|i: int| 0 <= i < all_words@.len() ==> all_ascii_alpha(#[trigger] all_words@[i]@),
    ensures
        r@.len() == all_words@.len(),
        forall|i: int| 0 <= i < r@.len() ==> #[trigger] r@[i]@ == word_merse(all_words@[i]@),
{
    let mut all_merse_words: Vec<Vec<bool>> = Vec::new();
    let mut k: usize = 0;
    while k < all_words.len()
        invariant
            forall|i: int| 0 <= i < all_words@.len() ==> all_ascii_alpha(#[trigger] all_words@[i]@),
            0 <= k <= all_words@.len(),
            all_merse_words@.len() == k,
            forall|i: int|
                0 <= i < k ==> #[trigger] all_merse_words@[i]@ == word_merse(all_words@[i]@),
        decreases all_words@.len() - k,
    {
        let merse_word: Vec<bool> = match crate::encode::word_to_smooshedmerse(
            all_words[k].as_str(),
        ) {
            Ok(v) => v,
            Err(_) => {
                proof {
                    assert(false);
                }
                Vec::new()
            },
        };
        all_merse_words.push(merse_word);
        k = k + 1;
    }
    all_merse_words
}

/// The positions of the encoded list entries equal to the target word.
pub fn find_merse_corresponding_words(merse_word: &[bool], all_merse_words: &[Vec<bool>]) -> (r:
    Vec<usize>)
    ensures
        r@.map_values(|u: usize| u as int) == matching_positions(
            all_merse_words.deep_view(),
            merse_word@,
        ),
{
    let mut indexes: Vec<usize> = Vec::new();
    let mut k: usize = 0;
    while k < all_merse_words.len()
        invariant
            0 <= k <= all_merse_words@.len(),
            all_merse_words.deep_view().len() == all_merse_words@.len(),
            forall|i: int|
                0 <= i < all_merse_words@.len() ==> all_merse_words.deep_view()[i]
                    == #[trigger] all_merse_words@[i]@,
            indexes@.map_values(|u: usize| u as int) == matching_positions(
                all_merse_words.deep_view().take(k as int),
                merse_word@,
            ),
        decreases all_merse_words@.len() - k,
    {
        let word = &all_merse_words[k];
        proof {
            assert(all_merse_words.deep_view().take(k + 1).drop_last() =~= all_merse_words
                .deep_view().take(k as int));
            assert(all_merse_words.deep_view().take(k + 1).last() == all_merse_words@[k as int]@);
        }
        if slice_bool_eq(word.as_slice(), merse_word) {
            indexes.push(k);
            proof {
                assert(indexes@.map_values(|u: usize| u as int) =~= matching_positions(
                    all_merse_words.deep_view().take(k as int),
                    merse_word@,
                ).push(k as int));
            }
        }
        proof {
            assert(indexes@.map_values(|u: usize| u as int) =~= matching_positions(
                all_merse_words.deep_view().take(k + 1),
                merse_word@,
            ));
        }
        k = k + 1;
    }
    proof {
        assert(all_merse_words.deep_view().take(all_merse_words@.len() as int) =~= all_merse_words
            .deep_view());
    }
    indexes
}

/// Bitwise equality of two bool slices.
fn slice_bool_eq(a: &[bool], b: &[bool]) -> (r: bool)
    ensures
        r == (a@ == b@),
{
    if a.len() != b.len() {
        proof {
            assert(a@ != b@);
        }
        return false;
    }
    let mut k: usize = 0;
    while k < a.len()
        invariant
            a@.len() == b@.len(),
            0 <= k <= a@.len(),
            forall|j: int| 0 <= j < k ==> a@[j] == b@[j],
        decreases a@.len() - k,
    {
        if a[k] != b[k] {
            proof {
                assert(a@ != b@);
            }
            return false;
        }
        k = k + 1;
    }
    proof {
        assert(a@ =~= b@);
    }
    true
}

/// The words of the list, in order, whose smooshed merse encoding equals
/// the given one.
pub fn decode_merse(smooshedmerse_word: Vec<bool>, all_words: &Vec<String>) -> (r: Result<
    Vec<String>,
    MorseError,
>)
    requires
        forall|i: int| 0 <= i < all_words@.len() ==> all_ascii_alpha(#[trigger] all_words@[i]@),
    ensures
        r matches Ok(v) && v.deep_view() == all_words.deep_view().filter(
            |w: Seq<char>| word_merse(w) == smooshedmerse_word@,
        ),
{
    let all_merse_words = all_words_to_smooshedmerse(all_words.as_slice());
    let corresponding_positions: Vec<usize> = find_merse_corresponding_words(
        smooshedmerse_word.as_slice(),
        all_merse_words.as_slice(),
    );
    let ghost strs = all_words.deep_view();
    let ghost mp = matching_positions(all_merse_words.deep_view(), smooshedmerse_word@);
    proof {
        assert(strs.len() == all_words@.len());
        assert forall|i: int| 0 <= i < strs.len() implies all_merse_words.deep_view()[i]
            == word_merse(#[trigger] strs[i]) by {
            assert(all_merse_words.deep_view()[i] =~= all_merse_words@[i]@);
            assert(strs[i] == all_words@[i]@);
        }
        lemma_matching_positions_filter(
            strs,
            all_merse_words.deep_view(),
            smooshedmerse_word@,
        );
        assert(corresponding_positions@.map_values(|u: usize| u as int) == mp);
        assert forall|j: int| 0 <= j < corresponding_positions@.len() implies (
        #[trigger] corresponding_positions@[j]) < strs.len() && corresponding_positions@[j] as int
            == mp[j] by {
            assert(corresponding_positions@.map_values(|u: usize| u as int)[j]
                == corresponding_positions@[j] as int);
        }
    }
    let mut res: Vec<String> = Vec::new();
    let mut k: usize = 0;
    while k < corresponding_positions.len()
        invariant
            0 <= k <= corresponding_positions@.len(),
            corresponding_positions@.len() == mp.len(),
            strs == all_words.deep_view(),
            strs.len() == all_words@.len(),
            forall|i: int| 0 <= i < strs.len() ==> #[trigger] strs[i] == all_words@[i]@,
            forall|j: int|
                0 <= j < corresponding_positions@.len() ==> (
                #[trigger] corresponding_positions@[j]) < strs.len()
                    && corresponding_positions@[j] as int == mp[j],
            res.deep_view() =~= mp.take(k as int).map_values(|u: int| strs[u]),
        decreases corresponding_positions@.len() - k,
    {
        let i = corresponding_positions[k];
        res.push(all_words[i].clone());
        proof {
            assert(mp.take(k + 1).drop_last() =~= mp.take(k as int));
            assert(mp.take(k + 1).map_values(|u: int| strs[u]) =~= mp.take(k as int).map_values(
                |u: int| strs[u],
            ).push(strs[mp[k as int]]));
            assert(res.deep_view() =~= mp.take(k + 1).map_values(|u: int| strs[u]));
        }
        k = k + 1;
    }
    proof {
        assert(mp.take(mp.len() as int) =~= mp);
        assert(res.deep_view() == all_words.deep_view().filter(
            |w: Seq<char>| word_merse(w) == smooshedmerse_word@,
        ));
    }
    Ok(res)
}

/// Decode a smooshed morse word against the word list: the input is
/// trimmed, must be a valid morse string, and every list word whose
/// encoding matches is returned in list order.
pub fn decode(smooshedmorse_word: &str, all_words: &Vec<String>) -> (r: Result<
    Vec<String>,
    MorseError,
>)
    requires
        forall|i: int| 0 <= i < all_words@.len() ==> all_ascii_alpha(#[trigger] all_words@[i]@),
    ensures
        valid_morse(trim_spec(smooshedmorse_word@)) ==> (r matches Ok(v) && v.deep_view()
            == all_words.deep_view().filter(
            |w: Seq<char>| word_merse(w) == merse_of_morse(trim_spec(smooshedmorse_word@)),
        )),
        !valid_morse(trim_spec(smooshedmorse_word@)) ==> r is Err,
{
    let trimmed = trim_whitespace(smooshedmorse_word);
    match validate_morse_str(trimmed) {
        Ok(_) => {},
        Err(e) => {
            return Err(e);
        },
    }
    let merse_word = match smooshedmorse_to_merse(trimmed) {
        Ok(v) => v,
        Err(e) => {
            return Err(e);
        },
    };
    decode_merse(merse_word, all_words)
}

} // verus!
