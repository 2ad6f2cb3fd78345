//! Character-level text helpers: reading the characters of a string, building
//! a string from characters, whitespace trimming and ASCII upper-casing.
use vstd::prelude::*;

use crate::engine::constants::{ascii_upper, upper};

verus! {

/// Unicode `White_Space` characters, as `char::is_whitespace` defines them.
pub open spec fn is_white(c: char) -> bool {
    ('\u{9}' <= c && c <= '\u{d}') || c == ' ' || c == '\u{85}' || c == '\u{a0}' || c
        == '\u{1680}' || ('\u{2000}' <= c && c <= '\u{200a}') || c == '\u{2028}' || c
        == '\u{2029}' || c == '\u{202f}' || c == '\u{205f}' || c == '\u{3000}'
}

pub fn is_whitespace(c: char) -> (b: bool)
    ensures
        b == is_white(c),
{
    ('\u{9}' <= c && c <= '\u{d}') || c == ' ' || c == '\u{85}' || c == '\u{a0}' || c
        == '\u{1680}' || ('\u{2000}' <= c && c <= '\u{200a}') || c == '\u{2028}' || c
        == '\u{2029}' || c == '\u{202f}' || c == '\u{205f}' || c == '\u{3000}'
}

/// `s` with leading and trailing whitespace removed.
pub open spec fn trim(s: Seq<char>) -> Seq<char>
    decreases s.len(),
{
    if s.len() == 0 {
        s
    } else if is_white(s[0]) {
        trim(s.drop_first())
    } else if is_white(s.last()) {
        trim(s.drop_last())
    } else {
        s
    }
}

/// ASCII upper-casing of every character of `s`.
pub open spec fn upper_all(s: Seq<char>) -> Seq<char> {
    s.map_values(|c: char| upper(c))
}

/// The form in which words are stored and looked up: trimmed and upper-cased.
pub open spec fn normalized(s: Seq<char>) -> Seq<char> {
    upper_all(trim(s))
}

proof fn lemma_trim_skip_front(s: Seq<char>, i: int)
    requires
        0 <= i <= s.len(),
        forall|k: int| 0 <= k < i ==> is_white(#[trigger] s[k]),
    ensures
        trim(s) == trim(s.subrange(i, s.len() as int)),
    decreases i,
{
    if i > 0 {
        assert(s.drop_first() =~= s.subrange(1, s.len() as int));
        let t = s.drop_first();
        assert forall|k: int| 0 <= k < i - 1 implies is_white(#[trigger] t[k]) by {
            assert(t[k] == s[k + 1]);
        }
        lemma_trim_skip_front(t, i - 1);
        assert(t.subrange(i - 1, t.len() as int) =~= s.subrange(i, s.len() as int));
    } else {
        assert(s.subrange(0, s.len() as int) =~= s);
    }
}

proof fn lemma_trim_skip_back(s: Seq<char>, j: int)
    requires
        0 <= j <= s.len(),
        s.len() > 0 ==> !is_white(s[0]),
        j == 0 ==> s.len() == 0,
        forall|k: int| j <= k < s.len() ==> is_white(#[trigger] s[k]),
    ensures
        trim(s) == trim(s.subrange(0, j)),
    decreases s.len() - j,
{
    if j < s.len() {
        let t = s.drop_last();
        assert forall|k: int| j <= k < t.len() implies is_white(#[trigger] t[k]) by {
            assert(t[k] == s[k]);
        }
        assert(is_white(s.last()));
        lemma_trim_skip_back(t, j);
        assert(t.subrange(0, j) =~= s.subrange(0, j));
    } else {
        assert(s.subrange(0, j) =~= s);
    }
}

/// `trim(s)` is the part of `s` from `i` to `j` when everything before `i`
/// and from `j` on is whitespace, and `i < j` implies the ends of that part
/// are not.
pub proof fn lemma_trim_range(s: Seq<char>, i: int, j: int)
    requires
        0 <= i <= j <= s.len(),
        forall|k: int| 0 <= k < i ==> is_white(#[trigger] s[k]),
        forall|k: int| j <= k < s.len() ==> is_white(#[trigger] s[k]),
        i < s.len() ==> (i < j || j == i),
        i < j ==> !is_white(s[i]) && !is_white(s[j - 1]),
        i == j ==> i == s.len() || (forall|k: int| i <= k < s.len() ==> is_white(#[trigger] s[k])),
    ensures
        trim(s) == s.subrange(i, j),
{
    lemma_trim_skip_front(s, i);
    let rest = s.subrange(i, s.len() as int);
    assert forall|k: int| j - i <= k < rest.len() implies is_white(#[trigger] rest[k]) by {
        assert(rest[k] == s[k + i]);
    }
    if rest.len() > 0 && i < j {
        assert(rest[0] == s[i]);
    }
    if i == j {
        lemma_trim_all_white(rest);
        assert(s.subrange(i, j) =~= Seq::<char>::empty());
    } else {
        lemma_trim_skip_back(rest, j - i);
        let mid = rest.subrange(0, j - i);
        assert(mid[0] == s[i]);
        assert(mid.last() == s[j - 1]);
        assert(trim(mid) == mid);
        assert(mid =~= s.subrange(i, j));
    }
}

proof fn lemma_trim_all_white(s: Seq<char>)
    requires
        forall|k: int| 0 <= k < s.len() ==> is_white(#[trigger] s[k]),
    ensures
        trim(s) == Seq::<char>::empty(),
    decreases s.len(),
{
    if s.len() > 0 {
        let t = s.drop_first();
        assert forall|k: int| 0 <= k < t.len() implies is_white(#[trigger] t[k]) by {
            assert(t[k] == s[k + 1]);
        }
        lemma_trim_all_white(t);
    } else {
        assert(s =~= Seq::<char>::empty());
    }
}

proof fn lemma_upper_keeps_white(c: char)
    ensures
        is_white(upper(c)) == is_white(c),
        upper(upper(c)) == upper(c),
{
}

/// Trimming and upper-casing can be done in either order.
proof fn lemma_trim_upper(s: Seq<char>)
    ensures
        trim(upper_all(s)) == upper_all(trim(s)),
    decreases s.len(),
{
    let u = upper_all(s);
    if s.len() > 0 {
        lemma_upper_keeps_white(s[0]);
        lemma_upper_keeps_white(s.last());
        assert(u[0] == upper(s[0]));
        assert(u.last() == upper(s.last()));
        if is_white(s[0]) {
            assert(u.drop_first() =~= upper_all(s.drop_first()));
            lemma_trim_upper(s.drop_first());
        } else if is_white(s.last()) {
            assert(u.drop_last() =~= upper_all(s.drop_last()));
            lemma_trim_upper(s.drop_last());
        }
    }
}

/// Words are looked up with letter case ignored: two words whose
/// upper-cased forms agree have the same stored form.
pub proof fn lemma_normalized_ignores_case(a: Seq<char>, b: Seq<char>)
    requires
        upper_all(a) == upper_all(b),
    ensures
        normalized(a) == normalized(b),
{
    lemma_trim_upper(a);
    lemma_trim_upper(b);
    let ta = trim(upper_all(a));
    assert(normalized(a) =~= upper_all(ta)) by {
        assert forall|k: int| 0 <= k < ta.len() implies upper(ta[k]) == ta[k] by {
            let t = trim(a);
            assert(ta[k] == upper(t[k]));
            lemma_upper_keeps_white(t[k]);
        }
    }
    assert(normalized(b) =~= upper_all(ta)) by {
        let tb = trim(b);
        assert(upper_all(tb) == ta);
        assert forall|k: int| 0 <= k < ta.len() implies upper(ta[k]) == ta[k] by {
            assert(ta[k] == upper(tb[k]));
            lemma_upper_keeps_white(tb[k]);
        }
    }
}

/// The characters of a string slice.
pub fn chars_of(s: &str) -> (v: Vec<char>)
    ensures
        v@ == s@,
{
    let mut v: Vec<char> = Vec::new();
    for c in it: s.chars()
        invariant
            v@ == it.seq().take(it.index() as int),
            it.seq() == s@,
    {
        v.push(c);
    }
    v
}

/// `String::from_iter` of std over the characters `chars`: by its
/// documentation, a `String` that holds those characters in order.
#[verifier::external_body]
pub(crate) fn string_from_chars(chars: &[char]) -> (s: String)
    ensures
        s@ == chars@,
{
    String::from_iter(chars)
}

/// Trims the characters `v`.
pub fn trim_chars(v: &[char]) -> (r: Vec<char>)
    ensures
        r@ == trim(v@),
{
    let n = v.len();
    let mut i: usize = 0;
    while i < n && is_whitespace(v[i])
        invariant
            0 <= i <= n,
            n == v@.len(),
            forall|k: int| 0 <= k < i ==> is_white(#[trigger] v@[k]),
        decreases n - i,
    {
        i = i + 1;
    }
    let mut j: usize = n;
    while j > i && is_whitespace(v[j - 1])
        invariant
            i <= j <= n,
            n == v@.len(),
            forall|k: int| j <= k < n ==> is_white(#[trigger] v@[k]),
        decreases j,
    {
        j = j - 1;
    }
    proof {
        lemma_trim_range(v@, i as int, j as int);
    }
    let mut r: Vec<char> = Vec::new();
    let mut k: usize = i;
    while k < j
        invariant
            i <= k <= j <= n,
            n == v@.len(),
            r@ =~= v@.subrange(i as int, k as int),
        decreases j - k,
    {
        r.push(v[k]);
        k = k + 1;
    }
    r
}

/// Trims and upper-cases the characters `v`.
pub fn normalize_chars(v: &[char]) -> (r: Vec<char>)
    ensures
        r@ == normalized(v@),
{
    let t = trim_chars(v);
    let n = t.len();
    let mut r: Vec<char> = Vec::with_capacity(n);
    for k in 0..n
        invariant
            n == t@.len(),
            r@ =~= upper_all(t@.take(k as int)),
    {
        r.push(ascii_upper(t[k]));
    }
    assert(t@.take(n as int) =~= t@);
    r
}

/// `s` trimmed and upper-cased, as a `String`.
pub fn normalize(s: &str) -> (r: String)
    ensures
        r@ == normalized(s@),
{
    let v = chars_of(s);
    let n = normalize_chars(v.as_slice());
    string_from_chars(n.as_slice())
}

/// Whether two string slices hold the same characters.
pub fn str_eq(a: &str, b: &str) -> (r: bool)
    ensures
        r == (a@ == b@),
{
    let x: String = a.to_owned();
    let y: String = b.to_owned();
    x == y
}

} // verus!
