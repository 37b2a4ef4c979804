//! Character-level helpers shared by the rest of the library: the order in
//! which strings compare, sorting of names, decimal rendering of counts and
//! the whitespace test used when a log line is blank.

use vstd::prelude::*;

verus! {

broadcast use vstd::seq_lib::group_to_multiset_ensures;

/// Returns the characters of `s` in order.
pub fn chars_of(s: &str) -> (r: Vec<char>)
    ensures
        r@ == s@,
{
    let mut v: Vec<char> = Vec::new();
    for c in it: s.chars()
        invariant
            v@ == it.seq().take(it.index()),
    {
        v.push(c);
    }
    v
}

/// Builds a `String` from a sequence of characters.
///
/// Trusted: `FromIterator<&char> for String`, which the standard library
/// documents as pushing each character in turn, so the result holds exactly
/// the characters of `v` in order.
#[verifier::external_body]
pub(crate) fn string_from_chars(v: &[char]) -> (r: String)
    ensures
        r@ == v@,
{
    v.iter().collect::<String>()
}

/// Strict lexicographic order on character sequences, characters compared by
/// code point. For `String` and `&str` this is the order of `<`, since UTF-8
/// preserves the order of code points.
pub open spec fn seq_lt(a: Seq<char>, b: Seq<char>) -> bool
    decreases a.len(),
{
    if b.len() == 0 {
        false
    } else if a.len() == 0 {
        true
    } else if a[0] != b[0] {
        (a[0] as int) < (b[0] as int)
    } else {
        seq_lt(a.drop_first(), b.drop_first())
    }
}

/// A common prefix can be dropped without changing the order.
pub proof fn lemma_seq_lt_skip(a: Seq<char>, b: Seq<char>, i: int)
    requires
        0 <= i <= a.len(),
        i <= b.len(),
        a.take(i) == b.take(i),
    ensures
        seq_lt(a, b) == seq_lt(a.skip(i), b.skip(i)),
    decreases i,
{
    if i > 0 {
        assert(a[0] == a.take(i)[0]);
        assert(b[0] == b.take(i)[0]);
        assert(a.drop_first().take(i - 1) =~= a.take(i).drop_first());
        assert(b.drop_first().take(i - 1) =~= b.take(i).drop_first());
        lemma_seq_lt_skip(a.drop_first(), b.drop_first(), i - 1);
        assert(a.drop_first().skip(i - 1) =~= a.skip(i));
        assert(b.drop_first().skip(i - 1) =~= b.skip(i));
    } else {
        assert(a.skip(0) =~= a);
        assert(b.skip(0) =~= b);
    }
}

/// `seq_lt` is irreflexive.
pub proof fn lemma_seq_lt_irreflexive(a: Seq<char>)
    ensures
        !seq_lt(a, a),
    decreases a.len(),
{
    if a.len() > 0 {
        lemma_seq_lt_irreflexive(a.drop_first());
    }
}

/// `seq_lt` is transitive.
pub proof fn lemma_seq_lt_transitive(a: Seq<char>, b: Seq<char>, c: Seq<char>)
    requires
        seq_lt(a, b),
        seq_lt(b, c),
    ensures
        seq_lt(a, c),
    decreases a.len(),
{
    if a.len() > 0 && b.len() > 0 && c.len() > 0 {
        if a[0] == b[0] && b[0] == c[0] {
            lemma_seq_lt_transitive(a.drop_first(), b.drop_first(), c.drop_first());
        }
    }
}

/// `seq_lt` is total: two different sequences are ordered one way or the other.
pub proof fn lemma_seq_lt_total(a: Seq<char>, b: Seq<char>)
    ensures
        a == b || seq_lt(a, b) || seq_lt(b, a),
    decreases a.len(),
{
    if a.len() > 0 && b.len() > 0 && a[0] == b[0] {
        lemma_seq_lt_total(a.drop_first(), b.drop_first());
        if a.drop_first() == b.drop_first() {
            assert(a =~= seq![a[0]] + a.drop_first());
            assert(b =~= seq![b[0]] + b.drop_first());
        }
    } else if a.len() == 0 && b.len() == 0 {
        assert(a =~= b);
    } else if a.len() > 0 && b.len() > 0 {
        assert((a[0] as int) != (b[0] as int));
    }
}

/// `seq_lt` is asymmetric.
pub proof fn lemma_seq_lt_asymmetric(a: Seq<char>, b: Seq<char>)
    requires
        seq_lt(a, b),
    ensures
        !seq_lt(b, a),
{
    if seq_lt(b, a) {
        lemma_seq_lt_transitive(a, b, a);
        lemma_seq_lt_irreflexive(a);
    }
}

/// A proper prefix comes first: `a` sorts before `a` followed by any
/// non-empty `s`, and never after it (so "team" lists before "team-a").
pub proof fn lemma_seq_lt_proper_prefix(a: Seq<char>, s: Seq<char>)
    requires
        s.len() > 0,
    ensures
        seq_lt(a, a + s),
        !seq_lt(a + s, a),
    decreases a.len(),
{
    if a.len() == 0 {
        assert(a + s =~= s);
    } else {
        assert((a + s)[0] == a[0]);
        assert((a + s).drop_first() =~= a.drop_first() + s);
        lemma_seq_lt_proper_prefix(a.drop_first(), s);
    }
}

/// Where `a` and `b` first part: they agree on their first `k` characters,
/// and then either `a` has ended while `b` goes on, or both go on and the
/// character of `a` there has the smaller code point.
proof fn lemma_seq_lt_witness(a: Seq<char>, b: Seq<char>) -> (k: int)
    requires
        seq_lt(a, b),
    ensures
        0 <= k <= a.len(),
        k <= b.len(),
        a.take(k) == b.take(k),
        (k == a.len() && k < b.len()) || (k < a.len() && k < b.len() && (a[k] as int) < (
        b[k] as int)),
    decreases a.len(),
{
    if a.len() == 0 {
        assert(a.take(0) =~= b.take(0));
        0
    } else if a[0] != b[0] {
        assert(a.take(0) =~= b.take(0));
        0
    } else {
        let j = lemma_seq_lt_witness(a.drop_first(), b.drop_first());
        assert(a.take(j + 1) =~= seq![a[0]] + a.drop_first().take(j));
        assert(b.take(j + 1) =~= seq![b[0]] + b.drop_first().take(j));
        j + 1
    }
}

/// The order is decided at the first position where the two sequences
/// differ: `a` comes before `b` exactly when, after a common prefix of some
/// length `k`, either `a` ends while `b` goes on, or both go on and the
/// character of `a` at `k` has the smaller code point.
pub proof fn lemma_seq_lt_first_difference(a: Seq<char>, b: Seq<char>)
    ensures
        seq_lt(a, b) <==> exists|k: int|
            #![trigger a.take(k), b.take(k)]
            0 <= k <= a.len() && k <= b.len() && a.take(k) == b.take(k) && ((k == a.len() && k
                < b.len()) || (k < a.len() && k < b.len() && (a[k] as int) < (b[k] as int))),
{
    if seq_lt(a, b) {
        let k = lemma_seq_lt_witness(a, b);
        assert(a.take(k) == b.take(k));
    }
    if exists|k: int|
        #![trigger a.take(k), b.take(k)]
        0 <= k <= a.len() && k <= b.len() && a.take(k) == b.take(k) && ((k == a.len() && k
            < b.len()) || (k < a.len() && k < b.len() && (a[k] as int) < (b[k] as int))) {
        let k = choose|k: int|
            #![trigger a.take(k), b.take(k)]
            0 <= k <= a.len() && k <= b.len() && a.take(k) == b.take(k) && ((k == a.len() && k
                < b.len()) || (k < a.len() && k < b.len() && (a[k] as int) < (b[k] as int)));
        lemma_seq_lt_skip(a, b, k);
        assert(a.skip(k).len() == a.len() - k);
        if k < a.len() {
            assert(a.skip(k)[0] == a[k]);
            assert(b.skip(k)[0] == b[k]);
        }
    }
}

/// Compares two character sequences in lexicographic order.
pub fn chars_lt(a: &[char], b: &[char]) -> (r: bool)
    ensures
        r == seq_lt(a@, b@),
{
    let mut i: usize = 0;
    while i < a.len() && i < b.len()
        invariant
            i <= a.len(),
            i <= b.len(),
            a@.take(i as int) == b@.take(i as int),
        decreases a.len() - i,
    {
        if a[i] != b[i] {
            proof {
                lemma_seq_lt_skip(a@, b@, i as int);
            }
            let (x, y) = (a[i], b[i]);
            return x < y;
        }
        assert(a@.take(i + 1) =~= a@.take(i as int).push(a@[i as int]));
        assert(b@.take(i + 1) =~= b@.take(i as int).push(b@[i as int]));
        i = i + 1;
    }
    proof {
        lemma_seq_lt_skip(a@, b@, i as int);
    }
    i < b.len()
}

/// Compares two strings in lexicographic order (the order of `<` on strings).
pub fn str_lt(a: &str, b: &str) -> (r: bool)
    ensures
        r == seq_lt(a@, b@),
{
    let ca = chars_of(a);
    let cb = chars_of(b);
    chars_lt(ca.as_slice(), cb.as_slice())
}

/// A sequence of strings is in ascending order.
pub open spec fn strings_sorted(v: Seq<String>) -> bool {
    forall|i: int, j: int| 0 <= i < j < v.len() ==> !#[trigger] seq_lt(v[j]@, v[i]@)
}

/// The character sequences of a sequence of strings.
pub open spec fn views(v: Seq<String>) -> Seq<Seq<char>> {
    v.map_values(|s: String| s@)
}

/// Sorts strings into ascending order; equal strings keep their relative order.
pub fn sort_strings(v: Vec<String>) -> (r: Vec<String>)
    ensures
        strings_sorted(r@),
        views(r@).to_multiset() == views(v@).to_multiset(),
{
    let mut sorted: Vec<String> = Vec::new();
    let n = v.len();
    let mut i: usize = 0;
    while i < n
        invariant
            n == v.len(),
            i <= n,
            strings_sorted(sorted@),
            views(sorted@).to_multiset() == views(v@.take(i as int)).to_multiset(),
        decreases n - i,
    {
        let x = v[i].clone();
        let mut p: usize = 0;
        while p < sorted.len() && !str_lt(x.as_str(), sorted[p].as_str())
            invariant
                p <= sorted.len(),
                forall|k: int| 0 <= k < p ==> !#[trigger] seq_lt(x@, sorted@[k]@),
            decreases sorted.len() - p,
        {
            p = p + 1;
        }
        let ghost before = sorted@;
        sorted.insert(p, x);
        proof {
            assert forall|a: int, b: int| 0 <= a < b < sorted@.len() implies !#[trigger] seq_lt(
                sorted@[b]@,
                sorted@[a]@,
            ) by {
                if b < p {
                    assert(sorted@[a] == before[a] && sorted@[b] == before[b]);
                } else if b == p {
                    assert(sorted@[a] == before[a]);
                } else if a == p {
                    assert(sorted@[b] == before[b - 1]);
                    assert(seq_lt(x@, before[p as int]@));
                    if seq_lt(before[b - 1]@, x@) {
                        if b - 1 > p {
                            lemma_seq_lt_transitive(before[b - 1]@, x@, before[p as int]@);
                        } else {
                            lemma_seq_lt_asymmetric(x@, before[p as int]@);
                        }
                    }
                } else if a < p {
                    assert(sorted@[a] == before[a] && sorted@[b] == before[b - 1]);
                } else {
                    assert(sorted@[a] == before[a - 1] && sorted@[b] == before[b - 1]);
                }
            }
            assert(views(sorted@) =~= views(before).insert(p as int, x@));
            assert(views(v@.take(i + 1)) =~= views(v@.take(i as int)).push(v@[i as int]@));
        }
        i = i + 1;
    }
    assert(v@.take(n as int) =~= v@);
    sorted
}

/// The decimal digit for `d`, for `d` below ten.
pub open spec fn digit_char(d: nat) -> char {
    seq!['0', '1', '2', '3', '4', '5', '6', '7', '8', '9'][d as int]
}

/// The decimal rendering of `n`, without leading zeros.
pub open spec fn decimal(n: nat) -> Seq<char>
    decreases n,
{
    if n < 10 {
        seq![digit_char(n)]
    } else {
        decimal(n / 10).push(digit_char(n % 10))
    }
}

/// Renders `n` in decimal.
///
/// Trusted: `usize::to_string` (through `Display`), which the standard library
/// documents as the base-ten representation without leading zeros.
#[verifier::external_body]
pub(crate) fn decimal_string(n: usize) -> (r: String)
    ensures
        r@ == decimal(n as nat),
{
    n.to_string()
}

/// Whether `c` has the Unicode `White_Space` property, the notion of
/// whitespace used by `str::trim` and `char::is_whitespace`.
pub uninterp spec fn unicode_white_space(c: char) -> bool;

/// Trusted: `char::is_whitespace`. Its result is a function of `c` alone,
/// named `unicode_white_space`; the table of code points it consults is not
/// restated here.
#[verifier::external_body]
pub(crate) fn is_whitespace(c: char) -> (r: bool)
    ensures
        r == unicode_white_space(c),
{
    c.is_whitespace()
}

/// A line is blank when trimming whitespace from both ends leaves nothing,
/// that is, when every character is whitespace.
pub open spec fn is_blank(s: Seq<char>) -> bool {
    forall|i: int| 0 <= i < s.len() ==> #[trigger] unicode_white_space(s[i])
}

/// Whether `s` is blank (`s.trim().is_empty()`).
pub fn blank(s: &[char]) -> (r: bool)
    ensures
        r == is_blank(s@),
{
    let mut i: usize = 0;
    while i < s.len()
        invariant
            i <= s.len(),
            forall|k: int| 0 <= k < i ==> #[trigger] unicode_white_space(s@[k]),
        decreases s.len() - i,
    {
        if !is_whitespace(s[i]) {
            return false;
        }
        i = i + 1;
    }
    true
}

} // verus!
