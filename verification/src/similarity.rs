//! Fuzzy comparison of OCR lines: normalisation, edit distance and the
//! similarity rule that tolerates small recognition errors.
use vstd::prelude::*;

use crate::text::{
    char_is_ascii_punctuation, char_is_whitespace, char_to_lowercase, chars_eq, chars_of,
    extend_chars, is_ascii_punct, is_white_space, lowercase_of, string_of,
};

verus! {

pub open spec fn min_int(a: int, b: int) -> int {
    if a <= b {
        a
    } else {
        b
    }
}

pub open spec fn max_int(a: int, b: int) -> int {
    if a >= b {
        a
    } else {
        b
    }
}

/// Levenshtein distance: the least number of single-character insertions,
/// deletions and substitutions that turn `a` into `b`.
pub open spec fn edit_distance(a: Seq<char>, b: Seq<char>) -> nat
    decreases a.len() + b.len(),
{
    if a.len() == 0 {
        b.len()
    } else if b.len() == 0 {
        a.len()
    } else {
        let cost: int = if a.last() == b.last() {
            0
        } else {
            1
        };
        min_int(
            min_int(
                edit_distance(a.drop_last(), b) as int + 1,
                edit_distance(a, b.drop_last()) as int + 1,
            ),
            edit_distance(a.drop_last(), b.drop_last()) as int + cost,
        ) as nat
    }
}

/// Whether a character is dropped before comparing lines.
pub open spec fn ignored_in_comparison(c: char) -> bool {
    is_white_space(c) || is_ascii_punct(c)
}

/// A line prepared for comparison: white space and ASCII punctuation
/// removed, every remaining character replaced by its lowercase mapping.
pub open spec fn normalize(s: Seq<char>) -> Seq<char>
    decreases s.len(),
{
    if s.len() == 0 {
        Seq::empty()
    } else {
        normalize(s.drop_last()) + if ignored_in_comparison(s.last()) {
            Seq::<char>::empty()
        } else {
            lowercase_of(s.last())
        }
    }
}

/// Two lines are similar when their normalised forms are equal, or both
/// have at least four characters and differ in at most a tenth of the
/// longer one (a similarity ratio of at least 0.9).
pub open spec fn similar(a: Seq<char>, b: Seq<char>) -> bool {
    let na = normalize(a);
    let nb = normalize(b);
    ||| na == nb
    ||| na.len() >= 4 && nb.len() >= 4 && 10 * edit_distance(na, nb) <= max_int(
        na.len() as int,
        nb.len() as int,
    )
}

// ---------------------------------------------------------------------------
// Lemmas on edit distance
// ---------------------------------------------------------------------------

/// The distance never exceeds the longer length.
pub proof fn lemma_edit_distance_bound(a: Seq<char>, b: Seq<char>)
    ensures
        edit_distance(a, b) <= max_int(a.len() as int, b.len() as int),
    decreases a.len() + b.len(),
{
    if a.len() > 0 && b.len() > 0 {
        lemma_edit_distance_bound(a.drop_last(), b.drop_last());
    }
}

/// A text is at distance zero from itself.
pub proof fn lemma_edit_distance_self(a: Seq<char>)
    ensures
        edit_distance(a, a) == 0,
    decreases a.len(),
{
    if a.len() > 0 {
        lemma_edit_distance_self(a.drop_last());
    }
}

/// The distance does not depend on the direction.
pub proof fn lemma_edit_distance_symmetric(a: Seq<char>, b: Seq<char>)
    ensures
        edit_distance(a, b) == edit_distance(b, a),
    decreases a.len() + b.len(),
{
    if a.len() > 0 && b.len() > 0 {
        lemma_edit_distance_symmetric(a.drop_last(), b);
        lemma_edit_distance_symmetric(a, b.drop_last());
        lemma_edit_distance_symmetric(a.drop_last(), b.drop_last());
    }
}

/// Every line is similar to itself.
pub proof fn law_similar_reflexive(a: Seq<char>)
    ensures
        similar(a, a),
{
}

/// Similarity does not depend on the order of the two lines.
pub proof fn law_similar_symmetric(a: Seq<char>, b: Seq<char>)
    ensures
        similar(a, b) == similar(b, a),
{
    lemma_edit_distance_symmetric(normalize(a), normalize(b));
}

/// The distance is at least the difference of the lengths.
pub proof fn lemma_edit_distance_lower_bound(a: Seq<char>, b: Seq<char>)
    ensures
        a.len() - b.len() <= edit_distance(a, b),
        b.len() - a.len() <= edit_distance(a, b),
    decreases a.len() + b.len(),
{
    if a.len() > 0 && b.len() > 0 {
        lemma_edit_distance_lower_bound(a.drop_last(), b);
        lemma_edit_distance_lower_bound(a, b.drop_last());
        lemma_edit_distance_lower_bound(a.drop_last(), b.drop_last());
    }
}

/// Going through a third text never beats the direct distance.
pub proof fn lemma_edit_distance_triangle(a: Seq<char>, b: Seq<char>, c: Seq<char>)
    ensures
        edit_distance(a, c) <= edit_distance(a, b) + edit_distance(b, c),
    decreases a.len() + b.len() + c.len(),
{
    if b.len() == 0 {
        lemma_edit_distance_bound(a, c);
    } else if a.len() == 0 {
        lemma_edit_distance_lower_bound(b, c);
    } else if c.len() == 0 {
        lemma_edit_distance_lower_bound(a, b);
    } else {
        let a1 = a.drop_last();
        let b1 = b.drop_last();
        let c1 = c.drop_last();
        lemma_edit_distance_triangle(a1, b, c);
        lemma_edit_distance_triangle(a, b, c1);
        lemma_edit_distance_triangle(a, b1, c);
        lemma_edit_distance_triangle(a, b1, c1);
        lemma_edit_distance_triangle(a1, b1, c);
        lemma_edit_distance_triangle(a1, b1, c1);
        let ab = edit_distance(a, b);
        let bc = edit_distance(b, c);
        let ac = edit_distance(a, c);
        let xy: int = if a.last() == b.last() { 0 } else { 1 };
        let yz: int = if b.last() == c.last() { 0 } else { 1 };
        let xz: int = if a.last() == c.last() { 0 } else { 1 };
        assert(xz <= xy + yz);
        assert(ac <= edit_distance(a1, c) + 1);
        assert(ac <= edit_distance(a, c1) + 1);
        assert(ac <= edit_distance(a1, c1) + xz);
        assert(ab == edit_distance(a1, b) + 1 || ab == edit_distance(a, b1) + 1 || ab
            == edit_distance(a1, b1) + xy);
        assert(bc == edit_distance(b1, c) + 1 || bc == edit_distance(b, c1) + 1 || bc
            == edit_distance(b1, c1) + yz);
        assert(ab <= edit_distance(a, b1) + 1);
        assert(bc <= edit_distance(b1, c) + 1);
    }
}

/// Edit distance is a metric on texts: zero exactly on equal texts,
/// symmetric, obeying the triangle inequality, and between the difference
/// of the lengths and the longer length.
pub proof fn law_edit_distance_metric(a: Seq<char>, b: Seq<char>, c: Seq<char>)
    ensures
        (edit_distance(a, b) == 0) == (a == b),
        edit_distance(a, b) == edit_distance(b, a),
        edit_distance(a, c) <= edit_distance(a, b) + edit_distance(b, c),
        a.len() - b.len() <= edit_distance(a, b),
        b.len() - a.len() <= edit_distance(a, b),
        edit_distance(a, b) <= max_int(a.len() as int, b.len() as int),
{
    lemma_edit_distance_zero(a, b);
    lemma_edit_distance_symmetric(a, b);
    lemma_edit_distance_triangle(a, b, c);
    lemma_edit_distance_lower_bound(a, b);
    lemma_edit_distance_bound(a, b);
}

proof fn lemma_edit_distance_zero(a: Seq<char>, b: Seq<char>)
    ensures
        (edit_distance(a, b) == 0) == (a == b),
    decreases a.len() + b.len(),
{
    if a.len() > 0 && b.len() > 0 {
        lemma_edit_distance_zero(a.drop_last(), b);
        lemma_edit_distance_zero(a, b.drop_last());
        lemma_edit_distance_zero(a.drop_last(), b.drop_last());
        if edit_distance(a, b) == 0 {
            assert(a.drop_last() == b.drop_last());
            assert(a.last() == b.last());
            assert(a =~= b.drop_last().push(b.last()));
            assert(b =~= b.drop_last().push(b.last()));
        }
        if a == b {
            lemma_edit_distance_self(a);
        }
    } else if a.len() == 0 && b.len() == 0 {
        assert(a =~= b);
    }
}

// ---------------------------------------------------------------------------
// Executable comparison
// ---------------------------------------------------------------------------

/// Distance between the first `i` characters of `a` and the first `j` of `b`.
pub open spec fn prefix_distance(a: Seq<char>, b: Seq<char>, i: int, j: int) -> nat {
    edit_distance(a.take(i), b.take(j))
}

/// Levenshtein distance between two character sequences (two-row dynamic
/// programme).
pub fn edit_distance_chars(a: &[char], b: &[char]) -> (r: usize)
    ensures
        r == edit_distance(a@, b@),
{
    let m = b.len();
    let mut previous: Vec<usize> = Vec::new();
    previous.push(0);
    proof {
        assert(a@.take(0) =~= Seq::<char>::empty());
    }
    let mut k: usize = 0;
    while k < m
        invariant
            k <= m == b@.len(),
            previous@.len() == k + 1,
            forall|t: int| 0 <= t <= k ==> #[trigger] previous@[t] == prefix_distance(a@, b@, 0, t),
        decreases m - k,
    {
        previous.push(k + 1);
        k = k + 1;
        proof {
            assert(a@.take(0) =~= Seq::<char>::empty());
            assert(prefix_distance(a@, b@, 0, k as int) == k);
        }
    }
    let plen = previous.len();
    assert(plen == m + 1);
    let mut current: Vec<usize> = Vec::new();
    let mut z: usize = 0;
    while z < plen
        invariant
            z <= plen == m + 1,
            previous@.len() == m + 1,
            current@.len() == z,
        decreases plen - z,
    {
        current.push(0);
        z = z + 1;
    }
    let n = a.len();
    let mut i: usize = 0;
    while i < n
        invariant
            i <= n == a@.len(),
            m == b@.len(),
            m < usize::MAX,
            previous@.len() == m + 1,
            current@.len() == m + 1,
            forall|t: int| 0 <= t <= m ==> #[trigger] previous@[t] == prefix_distance(a@, b@, i as int, t),
        decreases n - i,
    {
        proof {
            assert(b@.take(0) =~= Seq::<char>::empty());
        }
        current.set(0, i + 1);
        proof {
            assert(prefix_distance(a@, b@, i + 1, 0) == i + 1);
        }
        let mut j: usize = 0;
        while j < m
            invariant
                i < n == a@.len(),
                j <= m == b@.len(),
                m < usize::MAX,
                previous@.len() == m + 1,
                current@.len() == m + 1,
                forall|t: int| 0 <= t <= m ==> #[trigger] previous@[t] == prefix_distance(a@, b@, i as int, t),
                forall|t: int| 0 <= t <= j ==> #[trigger] current@[t] == prefix_distance(a@, b@, i + 1, t),
            decreases m - j,
        {
            proof {
                lemma_edit_distance_bound(a@.take(i as int), b@.take(j + 1));
                lemma_edit_distance_bound(a@.take(i as int), b@.take(j as int));
                assert(a@.take(i + 1).drop_last() =~= a@.take(i as int));
                assert(b@.take(j + 1).drop_last() =~= b@.take(j as int));
                assert(a@.take(i + 1).last() == a@[i as int]);
                assert(b@.take(j + 1).last() == b@[j as int]);
            }
            let cost: usize = if a[i] != b[j] {
                1
            } else {
                0
            };
            let left = current[j];
            let up = previous[j + 1];
            let x = if left <= up {
                left
            } else {
                up
            };
            let y = previous[j] + cost;
            let v = if x + 1 <= y {
                x + 1
            } else {
                y
            };
            current.set(j + 1, v);
            proof {
                assert(prefix_distance(a@, b@, i + 1, j + 1) == v);
            }
            j = j + 1;
        }
        std::mem::swap(&mut previous, &mut current);
        i = i + 1;
    }
    proof {
        assert(a@.take(n as int) =~= a@);
        assert(b@.take(m as int) =~= b@);
    }
    previous[m]
}

/// Levenshtein distance between two strings, counted in characters.
pub fn levenshtein(a: &str, b: &str) -> (r: usize)
    ensures
        r == edit_distance(a@, b@),
{
    let ca = chars_of(a);
    let cb = chars_of(b);
    edit_distance_chars(ca.as_slice(), cb.as_slice())
}

/// The characters of `s` prepared for comparison.
pub fn normalize_chars(s: &[char]) -> (r: Vec<char>)
    ensures
        r@ == normalize(s@),
{
    let mut out: Vec<char> = Vec::new();
    let mut i: usize = 0;
    proof {
        assert(s@.take(0) =~= Seq::<char>::empty());
    }
    while i < s.len()
        invariant
            i <= s@.len(),
            out@ == normalize(s@.take(i as int)),
        decreases s@.len() - i,
    {
        let c = s[i];
        proof {
            assert(s@.take(i + 1).drop_last() =~= s@.take(i as int));
        }
        if char_is_whitespace(c) || char_is_ascii_punctuation(c) {
            proof {
                assert(out@ =~= normalize(s@.take(i as int)) + Seq::<char>::empty());
            }
        } else {
            let lower = char_to_lowercase(c);
            extend_chars(&mut out, lower.as_slice());
        }
        i = i + 1;
    }
    proof {
        assert(s@.take(s@.len() as int) =~= s@);
    }
    out
}

/// `text` prepared for comparison: no white space or ASCII punctuation,
/// every other character lowercased.
pub fn normalize_for_compare(text: &str) -> (r: String)
    ensures
        r@ == normalize(text@),
{
    let cs = chars_of(text);
    let n = normalize_chars(cs.as_slice());
    string_of(n.as_slice())
}

/// Whether two character sequences are similar lines.
pub fn similar_chars(a: &[char], b: &[char]) -> (r: bool)
    ensures
        r == similar(a@, b@),
{
    let na = normalize_chars(a);
    let nb = normalize_chars(b);
    if chars_eq(na.as_slice(), nb.as_slice()) {
        return true;
    }
    let a_len = na.len();
    let b_len = nb.len();
    if a_len < 4 || b_len < 4 {
        return false;
    }
    let distance = edit_distance_chars(na.as_slice(), nb.as_slice());
    let max_len = if a_len >= b_len {
        a_len
    } else {
        b_len
    };
    proof {
        lemma_edit_distance_bound(na@, nb@);
    }
    // 1 - distance / max_len >= 0.9, in integers
    (distance as u128) * 10 <= max_len as u128
}

/// Whether two OCR lines say the same thing up to small recognition
/// errors (see `similar`).
pub fn lines_are_similar(a: &str, b: &str) -> (r: bool)
    ensures
        r == similar(a@, b@),
{
    let ca = chars_of(a);
    let cb = chars_of(b);
    similar_chars(ca.as_slice(), cb.as_slice())
}

} // verus!
