//! Text as a sequence of characters: searching, trimming, splitting into lines
//! and words. Each operation has a spec function that says what it computes and
//! an executable function on character slices that is proved to compute it.

use vstd::prelude::*;
use vstd::slice::slice_subrange;

verus! {

/// `String::push` appends one character.
pub assume_specification[ String::push ](s: &mut String, c: char)
    ensures
        final(s)@ == old(s)@.push(c),
;

/// `String::push_str` appends a string slice.
pub assume_specification[ String::push_str ](s: &mut String, t: &str)
    ensures
        final(s)@ == old(s)@ + t@,
;

/// The characters with Unicode's property `White_Space`.
pub open spec fn is_space(c: char) -> bool {
    ||| '\u{9}' <= c <= '\u{d}'
    ||| c == '\u{20}'
    ||| c == '\u{85}'
    ||| c == '\u{a0}'
    ||| c == '\u{1680}'
    ||| '\u{2000}' <= c <= '\u{200a}'
    ||| c == '\u{2028}'
    ||| c == '\u{2029}'
    ||| c == '\u{202f}'
    ||| c == '\u{205f}'
    ||| c == '\u{3000}'
}

/// Whether a character has Unicode's property `White_Space`.
pub fn is_whitespace(c: char) -> (r: bool)
    ensures
        r == is_space(c),
{
    ('\u{9}' <= c && c <= '\u{d}') || c == '\u{20}' || c == '\u{85}' || c == '\u{a0}'
        || c == '\u{1680}' || ('\u{2000}' <= c && c <= '\u{200a}') || c == '\u{2028}'
        || c == '\u{2029}' || c == '\u{202f}' || c == '\u{205f}' || c == '\u{3000}'
}

/// No character comes before the null character.
pub proof fn lemma_least_char(c: char)
    ensures
        '\0' <= c,
{
}

/// The contents of a list of strings.
pub open spec fn strings(v: Seq<String>) -> Seq<Seq<char>> {
    v.map_values(|s: String| s@)
}

/// The contents of a list of character rows.
pub open spec fn rows(v: Seq<Vec<char>>) -> Seq<Seq<char>> {
    v.map_values(|s: Vec<char>| s@)
}

/// The characters of a string.
pub fn chars_of(s: &str) -> (r: Vec<char>)
    ensures
        r@ == s@,
{
    let mut out: Vec<char> = Vec::new();
    for c in it: s.chars()
        invariant
            out@ == it.seq().take(it.index()),
            it.seq() == s@,
    {
        out.push(c);
        assert(it.seq().take(it.index() + 1) =~= it.seq().take(it.index()).push(c));
    }
    assert(s@.take(s@.len() as int) =~= s@);
    out
}

/// The string made of the given characters.
pub fn string_of(s: &[char]) -> (r: String)
    ensures
        r@ == s@,
{
    let mut out = String::new();
    for i in 0..s.len()
        invariant
            out@ == s@.take(i as int),
    {
        out.push(s[i]);
        assert(s@.take(i + 1) =~= s@.take(i as int).push(s@[i as int]));
    }
    assert(s@.take(s@.len() as int) =~= s@);
    out
}

/// The characters of a slice, in a vector of their own.
pub fn row_of(s: &[char]) -> (r: Vec<char>)
    ensures
        r@ == s@,
{
    let mut out: Vec<char> = Vec::new();
    for i in 0..s.len()
        invariant
            out@ == s@.take(i as int),
    {
        out.push(s[i]);
        assert(s@.take(i + 1) =~= s@.take(i as int).push(s@[i as int]));
    }
    assert(s@.take(s@.len() as int) =~= s@);
    out
}

/// Whether two slices hold the same characters.
pub fn same(a: &[char], b: &[char]) -> (r: bool)
    ensures
        r == (a@ == b@),
{
    if a.len() != b.len() {
        return false;
    }
    for i in 0..a.len()
        invariant
            a@.len() == b@.len(),
            forall|j: int| 0 <= j < i ==> a@[j] == b@[j],
    {
        if a[i] != b[i] {
            return false;
        }
    }
    assert(a@ =~= b@);
    true
}

// Searching

/// `pat` stands in `s` at index `i`.
pub open spec fn occurs_at(s: Seq<char>, pat: Seq<char>, i: int) -> bool {
    &&& 0 <= i
    &&& i + pat.len() <= s.len()
    &&& s.subrange(i, i + pat.len()) == pat
}

/// The least index at or after `from` at which `pat` stands in `s`.
pub open spec fn first_match(s: Seq<char>, pat: Seq<char>, from: int) -> Option<int>
    decreases s.len() + 1 - from,
{
    if from < 0 || from + pat.len() > s.len() {
        None
    } else if occurs_at(s, pat, from) {
        Some(from)
    } else {
        first_match(s, pat, from + 1)
    }
}

/// The index at which `pat` first stands in `s`.
pub open spec fn find_in(s: Seq<char>, pat: Seq<char>) -> Option<int> {
    first_match(s, pat, 0)
}

/// The index of the first `c` in `s`.
pub open spec fn find_char_in(s: Seq<char>, c: char) -> Option<int> {
    first_match(s, seq![c], 0)
}

/// `s` begins with `pat`.
pub open spec fn begins_with(s: Seq<char>, pat: Seq<char>) -> bool {
    occurs_at(s, pat, 0)
}

/// What `first_match` finds is a match, and no match lies before it.
pub proof fn lemma_first_match(s: Seq<char>, pat: Seq<char>, from: int)
    requires
        0 <= from,
    ensures
        match first_match(s, pat, from) {
            Some(i) => {
                &&& from <= i
                &&& occurs_at(s, pat, i)
                &&& forall|j: int| from <= j < i ==> !#[trigger] occurs_at(s, pat, j)
            },
            None => forall|j: int| from <= j ==> !#[trigger] occurs_at(s, pat, j),
        },
    decreases s.len() + 1 - from,
{
    if from + pat.len() > s.len() {
    } else if occurs_at(s, pat, from) {
    } else {
        lemma_first_match(s, pat, from + 1);
    }
}

/// A match with none before it is the one that `first_match` finds.
pub proof fn lemma_match_is_first(s: Seq<char>, pat: Seq<char>, from: int, i: int)
    requires
        0 <= from <= i,
        occurs_at(s, pat, i),
        forall|j: int| from <= j < i ==> !#[trigger] occurs_at(s, pat, j),
    ensures
        first_match(s, pat, from) == Some(i),
{
    lemma_first_match(s, pat, from);
}

/// Where there is no match, `first_match` finds none.
pub proof fn lemma_no_match(s: Seq<char>, pat: Seq<char>, from: int)
    requires
        0 <= from,
        forall|j: int| from <= j ==> !#[trigger] occurs_at(s, pat, j),
    ensures
        first_match(s, pat, from) is None,
{
    lemma_first_match(s, pat, from);
}

/// One character stands at an index exactly where the sequence holds it there.
pub proof fn lemma_occurs_char(s: Seq<char>, c: char, i: int)
    ensures
        occurs_at(s, seq![c], i) <==> 0 <= i < s.len() && s[i] == c,
{
    if 0 <= i < s.len() {
        assert(s.subrange(i, i + 1)[0] == s[i]);
        if s[i] == c {
            assert(s.subrange(i, i + 1) =~= seq![c]);
        }
    }
}

/// The first index of a character, told by its neighbours.
pub proof fn lemma_find_char(s: Seq<char>, c: char)
    ensures
        match find_char_in(s, c) {
            Some(i) => {
                &&& 0 <= i < s.len()
                &&& s[i] == c
                &&& forall|j: int| 0 <= j < i ==> s[j] != c
            },
            None => !s.contains(c),
        },
{
    lemma_first_match(s, seq![c], 0);
    assert forall|j: int| occurs_at(s, seq![c], j) <==> 0 <= j < s.len() && s[j] == c by {
        lemma_occurs_char(s, c, j);
    }
    match find_char_in(s, c) {
        Some(i) => {
            assert forall|j: int| 0 <= j < i implies s[j] != c by {
                assert(!occurs_at(s, seq![c], j));
            }
        },
        None => {
            assert forall|j: int| 0 <= j < s.len() implies s[j] != c by {
                assert(!occurs_at(s, seq![c], j));
            }
        },
    }
}

/// A character with none of its kind before it is the first.
pub proof fn lemma_char_is_first(s: Seq<char>, c: char, i: int)
    requires
        0 <= i < s.len(),
        s[i] == c,
        forall|j: int| 0 <= j < i ==> s[j] != c,
    ensures
        find_char_in(s, c) == Some(i),
{
    lemma_find_char(s, c);
}

/// Whether `pat` stands in `s` at index `at`.
pub fn matches_at(s: &[char], pat: &[char], at: usize) -> (r: bool)
    requires
        at <= s@.len(),
    ensures
        r == occurs_at(s@, pat@, at as int),
{
    let n: usize = s.len();
    if pat.len() > n - at {
        return false;
    }
    for i in 0..pat.len()
        invariant
            n == s@.len(),
            at + pat@.len() <= s@.len(),
            forall|j: int| 0 <= j < i ==> s@[at + j] == pat@[j],
    {
        if s[at + i] != pat[i] {
            assert(s@.subrange(at as int, at + pat@.len())[i as int] != pat@[i as int]);
            return false;
        }
    }
    assert(s@.subrange(at as int, at + pat@.len()) =~= pat@);
    true
}

/// The least index at or after `from` at which `pat` stands in `s`.
pub fn find_from(s: &[char], pat: &[char], from: usize) -> (r: Option<usize>)
    requires
        from <= s@.len(),
    ensures
        match r {
            Some(i) => first_match(s@, pat@, from as int) == Some(i as int) && i + pat@.len() <= s@.len(),
            None => first_match(s@, pat@, from as int) is None,
        },
{
    let mut i: usize = from;
    while pat.len() <= s.len() - i
        invariant
            from <= i <= s@.len(),
            first_match(s@, pat@, from as int) == first_match(s@, pat@, i as int),
        decreases s@.len() - i,
    {
        if matches_at(s, pat, i) {
            return Some(i);
        }
        if i == s.len() {
            assert(s@.subrange(i as int, i as int) =~= pat@);
            return None;
        }
        i = i + 1;
    }
    None
}

/// The index at which `pat` first stands in `s`.
pub fn find(s: &[char], pat: &[char]) -> (r: Option<usize>)
    ensures
        match r {
            Some(i) => find_in(s@, pat@) == Some(i as int) && i + pat@.len() <= s@.len(),
            None => find_in(s@, pat@) is None,
        },
{
    find_from(s, pat, 0)
}

/// The index of the first `c` in `s`.
pub fn find_char(s: &[char], c: char) -> (r: Option<usize>)
    ensures
        match r {
            Some(i) => find_char_in(s@, c) == Some(i as int) && i < s@.len() && s@[i as int] == c,
            None => find_char_in(s@, c) is None,
        },
{
    for i in 0..s.len()
        invariant
            forall|j: int| 0 <= j < i ==> s@[j] != c,
    {
        if s[i] == c {
            proof {
                lemma_char_is_first(s@, c, i as int);
            }
            return Some(i);
        }
    }
    proof {
        lemma_find_char(s@, c);
    }
    None
}

// Trimming

/// `s` without the characters at its front that satisfy `p`.
pub open spec fn strip_front(s: Seq<char>, p: spec_fn(char) -> bool) -> Seq<char>
    decreases s.len(),
{
    if s.len() > 0 && p(s[0]) {
        strip_front(s.drop_first(), p)
    } else {
        s
    }
}

/// `s` without the characters at its end that satisfy `p`.
pub open spec fn strip_back(s: Seq<char>, p: spec_fn(char) -> bool) -> Seq<char>
    decreases s.len(),
{
    if s.len() > 0 && p(s.last()) {
        strip_back(s.drop_last(), p)
    } else {
        s
    }
}

/// `s` without white space at its front.
pub open spec fn trimmed_start(s: Seq<char>) -> Seq<char> {
    strip_front(s, |c: char| is_space(c))
}

/// `s` without white space at its end.
pub open spec fn trimmed_end(s: Seq<char>) -> Seq<char> {
    strip_back(s, |c: char| is_space(c))
}

/// `s` without white space at either end.
pub open spec fn trimmed(s: Seq<char>) -> Seq<char> {
    trimmed_end(trimmed_start(s))
}

/// Stripping the front leaves what follows the longest run that satisfies `p`.
pub proof fn lemma_strip_front(s: Seq<char>, p: spec_fn(char) -> bool, k: int)
    requires
        0 <= k <= s.len(),
        forall|j: int| 0 <= j < k ==> p(#[trigger] s[j]),
        k < s.len() ==> !p(s[k]),
    ensures
        strip_front(s, p) == s.skip(k),
    decreases k,
{
    if k == 0 {
        assert(s.skip(0) =~= s);
    } else {
        assert(p(s[0]));
        assert forall|j: int| 0 <= j < k - 1 implies p(#[trigger] s.drop_first()[j]) by {
            assert(s.drop_first()[j] == s[j + 1]);
        }
        lemma_strip_front(s.drop_first(), p, k - 1);
        assert(s.drop_first().skip(k - 1) =~= s.skip(k));
    }
}

/// Stripping the end leaves what precedes the longest run that satisfies `p`.
pub proof fn lemma_strip_back(s: Seq<char>, p: spec_fn(char) -> bool, k: int)
    requires
        0 <= k <= s.len(),
        forall|j: int| k <= j < s.len() ==> p(#[trigger] s[j]),
        k > 0 ==> !p(s[k - 1]),
    ensures
        strip_back(s, p) == s.take(k),
    decreases s.len() - k,
{
    if k == s.len() {
        assert(s.take(k) =~= s);
    } else {
        assert(p(s[s.len() - 1]));
        lemma_strip_back(s.drop_last(), p, k);
        assert(s.drop_last().take(k) =~= s.take(k));
    }
}

/// How many characters stripping the front takes.
pub proof fn lemma_front_run(s: Seq<char>, p: spec_fn(char) -> bool) -> (k: int)
    ensures
        0 <= k <= s.len(),
        forall|j: int| 0 <= j < k ==> p(#[trigger] s[j]),
        k < s.len() ==> !p(s[k]),
        strip_front(s, p) == s.skip(k),
    decreases s.len(),
{
    if s.len() > 0 && p(s[0]) {
        let rest = s.drop_first();
        let k = lemma_front_run(rest, p);
        assert forall|j: int| 0 <= j < k + 1 implies p(#[trigger] s[j]) by {
            if j > 0 {
                assert(rest[j - 1] == s[j]);
            }
        }
        assert(rest.skip(k) =~= s.skip(k + 1));
        k + 1
    } else {
        assert(s.skip(0) =~= s);
        0
    }
}

/// How many characters stripping the end leaves.
pub proof fn lemma_back_run(s: Seq<char>, p: spec_fn(char) -> bool) -> (k: int)
    ensures
        0 <= k <= s.len(),
        forall|j: int| k <= j < s.len() ==> p(#[trigger] s[j]),
        k > 0 ==> !p(s[k - 1]),
        strip_back(s, p) == s.take(k),
    decreases s.len(),
{
    if s.len() > 0 && p(s.last()) {
        let rest = s.drop_last();
        let k = lemma_back_run(rest, p);
        assert forall|j: int| k <= j < s.len() implies p(#[trigger] s[j]) by {
            if j < rest.len() {
                assert(rest[j] == s[j]);
            }
        }
        assert(rest.take(k) =~= s.take(k));
        k
    } else {
        assert(s.take(s.len() as int) =~= s);
        s.len() as int
    }
}

/// Trimming takes no more and no less where white space is put around.
pub proof fn law_trim_ignores_surrounding_space(a: Seq<char>, s: Seq<char>, b: Seq<char>)
    requires
        forall|i: int| 0 <= i < a.len() ==> is_space(#[trigger] a[i]),
        forall|i: int| 0 <= i < b.len() ==> is_space(#[trigger] b[i]),
    ensures
        trimmed(a + s + b) == trimmed(s),
{
    let p = |c: char| is_space(c);
    let t = a + s + b;
    let k = lemma_front_run(s, p);
    let f = s.skip(k);
    let m = lemma_back_run(f, p);
    assert forall|j: int| 0 <= j < a.len() + k implies p(#[trigger] t[j]) by {
        if j >= a.len() {
            assert(p(s[j - a.len()]));
        } else {
            assert(is_space(a[j]));
        }
    }
    if k == s.len() {
        assert forall|j: int| 0 <= j < t.len() implies p(#[trigger] t[j]) by {
            if j >= a.len() + s.len() {
                assert(is_space(b[j - a.len() - s.len()]));
            }
        }
        lemma_strip_front(t, p, t.len() as int);
        assert(t.skip(t.len() as int) =~= Seq::<char>::empty());
        assert(f =~= Seq::<char>::empty());
    } else {
        lemma_strip_front(t, p, a.len() + k);
        let g = t.skip(a.len() + k);
        assert(g =~= f + b);
        assert(!p(f[0]));
        assert(m > 0);
        assert forall|j: int| m <= j < g.len() implies p(#[trigger] g[j]) by {
            if j < f.len() {
                assert(p(f[j]));
            } else {
                assert(is_space(b[j - f.len()]));
            }
        }
        assert(g[m - 1] == f[m - 1]);
        lemma_strip_back(g, p, m);
        assert(g.take(m) =~= f.take(m));
    }
}

/// Trimming takes white space from both ends, as much as there is, and nothing else.
/// Returns how much it takes from the front.
pub proof fn law_trim_takes_all_surrounding_space(s: Seq<char>) -> (k: int)
    ensures
        0 <= k && k + trimmed(s).len() <= s.len(),
        trimmed(s) == s.subrange(k, k + trimmed(s).len()),
        forall|j: int| 0 <= j < k ==> is_space(#[trigger] s[j]),
        forall|j: int| k + trimmed(s).len() <= j < s.len() ==> is_space(#[trigger] s[j]),
        trimmed(s).len() > 0 ==> !is_space(trimmed(s)[0]) && !is_space(trimmed(s).last()),
{
    let p = |c: char| is_space(c);
    let k = lemma_front_run(s, p);
    let f = s.skip(k);
    let m = lemma_back_run(f, p);
    assert(trimmed(s) == f.take(m));
    assert(f.take(m) =~= s.subrange(k, k + m));
    assert forall|j: int| 0 <= j < k implies is_space(#[trigger] s[j]) by {
        assert(p(s[j]));
    }
    assert forall|j: int| k + m <= j < s.len() implies is_space(#[trigger] s[j]) by {
        assert(p(f[j - k]));
        assert(f[j - k] == s[j]);
    }
    if m > 0 {
        assert(f.take(m)[0] == s[k]);
        assert(f.take(m).last() == f[m - 1]);
        assert(!p(s[k]));
    }
    k
}

/// It makes no difference which end is trimmed first.
pub proof fn lemma_trim_either_way(s: Seq<char>)
    ensures
        trimmed_start(trimmed_end(s)) == trimmed(s),
{
    let p = |c: char| is_space(c);
    let m = lemma_back_run(s, p);
    let k = lemma_front_run(s, p);
    let e = s.take(m);
    let f = s.skip(k);
    if k == s.len() {
        if m > 0 {
            assert(p(s[m - 1]));
        }
        assert(e =~= Seq::<char>::empty());
        assert(f =~= Seq::<char>::empty());
    } else {
        if m <= k {
            assert(p(s[k]));
        }
        assert forall|j: int| 0 <= j < k implies p(#[trigger] e[j]) by {
            assert(e[j] == s[j]);
        }
        assert(e[k] == s[k]);
        lemma_strip_front(e, p, k);
        assert forall|j: int| m - k <= j < f.len() implies p(#[trigger] f[j]) by {
            assert(f[j] == s[k + j]);
        }
        assert(f[m - k - 1] == s[m - 1]);
        lemma_strip_back(f, p, m - k);
        assert(e.skip(k) =~= f.take(m - k));
    }
}

/// Text without white space at its ends is trimmed already.
pub proof fn lemma_already_trimmed(s: Seq<char>)
    requires
        s.len() > 0,
        !is_space(s[0]),
        !is_space(s.last()),
    ensures
        trimmed(s) == s,
{
    let p = |c: char| is_space(c);
    lemma_strip_front(s, p, 0);
    assert(s.skip(0) =~= s);
    lemma_strip_back(s, p, s.len() as int);
    assert(s.take(s.len() as int) =~= s);
}

/// Stripping the front makes nothing longer.
pub proof fn lemma_strip_front_len(s: Seq<char>, p: spec_fn(char) -> bool)
    ensures
        strip_front(s, p).len() <= s.len(),
    decreases s.len(),
{
    if s.len() > 0 && p(s[0]) {
        lemma_strip_front_len(s.drop_first(), p);
    }
}

/// `s` without white space at its front.
pub fn trim_start(s: &[char]) -> (r: &[char])
    ensures
        r@ == trimmed_start(s@),
        r@.len() <= s@.len(),
{
    let mut k: usize = 0;
    while k < s.len() && is_whitespace(s[k])
        invariant
            k <= s@.len(),
            forall|j: int| 0 <= j < k ==> is_space(#[trigger] s@[j]),
        decreases s@.len() - k,
    {
        k = k + 1;
    }
    proof {
        lemma_strip_front(s@, |c: char| is_space(c), k as int);
    }
    slice_subrange(s, k, s.len())
}

/// `s` without white space at its end.
pub fn trim_end(s: &[char]) -> (r: &[char])
    ensures
        r@ == trimmed_end(s@),
        r@.len() <= s@.len(),
{
    let mut k: usize = s.len();
    while k > 0 && is_whitespace(s[k - 1])
        invariant
            k <= s@.len(),
            forall|j: int| k <= j < s@.len() ==> is_space(#[trigger] s@[j]),
        decreases k,
    {
        k = k - 1;
    }
    proof {
        lemma_strip_back(s@, |c: char| is_space(c), k as int);
    }
    slice_subrange(s, 0, k)
}

/// `s` without white space at either end.
pub fn trim(s: &[char]) -> (r: &[char])
    ensures
        r@ == trimmed(s@),
        r@.len() <= s@.len(),
{
    trim_end(trim_start(s))
}

/// `s` without the characters at its front that are `a`.
pub fn trim_start_char(s: &[char], a: char) -> (r: &[char])
    ensures
        r@ == strip_front(s@, |c: char| c == a),
{
    let mut k: usize = 0;
    while k < s.len() && s[k] == a
        invariant
            k <= s@.len(),
            forall|j: int| 0 <= j < k ==> #[trigger] s@[j] == a,
        decreases s@.len() - k,
    {
        k = k + 1;
    }
    proof {
        lemma_strip_front(s@, |c: char| c == a, k as int);
    }
    slice_subrange(s, k, s.len())
}

/// `s` without the characters at its end that are `a`.
pub fn trim_end_char(s: &[char], a: char) -> (r: &[char])
    ensures
        r@ == strip_back(s@, |c: char| c == a),
{
    let mut k: usize = s.len();
    while k > 0 && s[k - 1] == a
        invariant
            k <= s@.len(),
            forall|j: int| k <= j < s@.len() ==> #[trigger] s@[j] == a,
        decreases k,
    {
        k = k - 1;
    }
    proof {
        lemma_strip_back(s@, |c: char| c == a, k as int);
    }
    slice_subrange(s, 0, k)
}

/// `s` without the characters at its front that are `a` or `b`.
pub fn trim_front_of(s: &[char], a: char, b: char) -> (r: &[char])
    ensures
        r@ == strip_front(s@, |c: char| c == a || c == b),
{
    let mut k: usize = 0;
    while k < s.len() && (s[k] == a || s[k] == b)
        invariant
            k <= s@.len(),
            forall|j: int| 0 <= j < k ==> (#[trigger] s@[j] == a || s@[j] == b),
        decreases s@.len() - k,
    {
        k = k + 1;
    }
    proof {
        lemma_strip_front(s@, |c: char| c == a || c == b, k as int);
    }
    slice_subrange(s, k, s.len())
}

/// `s` without the characters at its end that are `a` or `b`.
pub fn trim_back_of(s: &[char], a: char, b: char) -> (r: &[char])
    ensures
        r@ == strip_back(s@, |c: char| c == a || c == b),
{
    let mut k: usize = s.len();
    while k > 0 && (s[k - 1] == a || s[k - 1] == b)
        invariant
            k <= s@.len(),
            forall|j: int| k <= j < s@.len() ==> (#[trigger] s@[j] == a || s@[j] == b),
        decreases k,
    {
        k = k - 1;
    }
    proof {
        lemma_strip_back(s@, |c: char| c == a || c == b, k as int);
    }
    slice_subrange(s, 0, k)
}

// Lines and words

/// `s` without one carriage return at its end.
pub open spec fn without_cr(s: Seq<char>) -> Seq<char> {
    if s.len() > 0 && s.last() == '\r' {
        s.drop_last()
    } else {
        s
    }
}

/// The lines of `s`. A line ends at a line feed, which may follow a carriage
/// return; the line feed at the end of the last line is optional.
pub open spec fn lines_of(s: Seq<char>) -> Seq<Seq<char>>
    decreases s.len(),
{
    if s.len() == 0 {
        seq![]
    } else {
        match find_char_in(s, '\n') {
            Some(i) => {
                proof {
                    lemma_find_char(s, '\n');
                }
                seq![without_cr(s.take(i))] + lines_of(s.skip(i + 1))
            },
            None => seq![s],
        }
    }
}

/// The number of characters at the front of `s` that are not white space.
pub open spec fn word_len(s: Seq<char>) -> int
    decreases s.len(),
{
    if s.len() > 0 && !is_space(s[0]) {
        1 + word_len(s.drop_first())
    } else {
        0
    }
}

/// The words of `s`: its longest runs without white space.
pub open spec fn words(s: Seq<char>) -> Seq<Seq<char>>
    decreases s.len(),
{
    if s.len() == 0 {
        seq![]
    } else if is_space(s[0]) {
        words(s.drop_first())
    } else {
        proof {
            lemma_word_len_bounds(s);
        }
        seq![s.take(word_len(s))] + words(s.skip(word_len(s)))
    }
}

pub proof fn lemma_word_len_bounds(s: Seq<char>)
    ensures
        0 <= word_len(s) <= s.len(),
        s.len() > 0 && !is_space(s[0]) ==> word_len(s) > 0,
    decreases s.len(),
{
    if s.len() > 0 && !is_space(s[0]) {
        lemma_word_len_bounds(s.drop_first());
    }
}

/// A run without white space that cannot be made longer is the first word.
pub proof fn lemma_word_len(s: Seq<char>, k: int)
    requires
        0 <= k <= s.len(),
        forall|j: int| 0 <= j < k ==> !is_space(#[trigger] s[j]),
        k < s.len() ==> is_space(s[k]),
    ensures
        word_len(s) == k,
    decreases k,
{
    if k > 0 {
        assert(!is_space(s[0]));
        assert forall|j: int| 0 <= j < k - 1 implies !is_space(#[trigger] s.drop_first()[j]) by {
            assert(s.drop_first()[j] == s[j + 1]);
        }
        lemma_word_len(s.drop_first(), k - 1);
    }
}

/// A run without white space before white space, or at the end, is the first word.
pub proof fn lemma_first_word(w: Seq<char>, rest: Seq<char>)
    requires
        w.len() > 0,
        forall|j: int| 0 <= j < w.len() ==> !is_space(#[trigger] w[j]),
        rest.len() > 0 ==> is_space(rest[0]),
    ensures
        words(w + rest) == seq![w] + words(rest),
{
    let s = w + rest;
    lemma_word_len(s, w.len() as int);
    assert(s[0] == w[0]);
    assert(s.take(w.len() as int) =~= w);
    assert(s.skip(w.len() as int) =~= rest);
}

/// White space before the first word belongs to no word.
pub proof fn lemma_space_before_words(rest: Seq<char>)
    ensures
        words(seq![' '] + rest) == words(rest),
{
    assert((seq![' '] + rest).drop_first() =~= rest);
}

/// White space parts words: the words of two texts with white space between are those of
/// the first and then those of the second.
pub proof fn law_white_space_parts_words(a: Seq<char>, c: char, b: Seq<char>)
    requires
        is_space(c),
    ensures
        words(a + seq![c] + b) == words(a) + words(b),
    decreases a.len(),
{
    let s = a + seq![c] + b;
    if a.len() == 0 {
        assert(s.drop_first() =~= b);
        assert(words(a) + words(b) =~= words(b));
    } else if is_space(a[0]) {
        let rest = a.drop_first();
        law_white_space_parts_words(rest, c, b);
        assert(s.drop_first() =~= rest + seq![c] + b);
    } else {
        lemma_word_len_bounds(a);
        let k = word_len(a);
        lemma_word_run(a);
        let rest = a.skip(k);
        law_white_space_parts_words(rest, c, b);
        let w = a.take(k);
        assert(s =~= w + (rest + seq![c] + b));
        if rest.len() > 0 {
            assert((rest + seq![c] + b)[0] == rest[0]);
            assert(rest[0] == a[k]);
        } else {
            assert((rest + seq![c] + b)[0] == c);
        }
        lemma_first_word(w, rest + seq![c] + b);
        assert(words(a) == seq![w] + words(rest));
        assert(seq![w] + (words(rest) + words(b)) =~= seq![w] + words(rest) + words(b));
    }
}

/// A run without white space is one word, and nothing has no words.
pub proof fn law_a_run_is_one_word(w: Seq<char>)
    requires
        forall|j: int| 0 <= j < w.len() ==> !is_space(#[trigger] w[j]),
    ensures
        words(w) == if w.len() > 0 {
            seq![w]
        } else {
            seq![]
        },
{
    let none = Seq::<char>::empty();
    if w.len() > 0 {
        lemma_first_word(w, none);
        assert(w + none =~= w);
        assert(seq![w] + words(none) =~= seq![w]);
    }
}

/// The first word runs to the first white space.
proof fn lemma_word_run(s: Seq<char>)
    ensures
        0 <= word_len(s) <= s.len(),
        forall|j: int| 0 <= j < word_len(s) ==> !is_space(#[trigger] s[j]),
        word_len(s) < s.len() ==> is_space(s[word_len(s)]),
    decreases s.len(),
{
    if s.len() > 0 && !is_space(s[0]) {
        let rest = s.drop_first();
        lemma_word_run(rest);
        assert forall|j: int| 0 <= j < word_len(s) implies !is_space(#[trigger] s[j]) by {
            if j > 0 {
                assert(rest[j - 1] == s[j]);
            }
        }
        if word_len(s) < s.len() {
            assert(rest[word_len(rest)] == s[word_len(s)]);
        }
    }
}

/// The parts, with one space between each two.
pub open spec fn spaced(parts: Seq<Seq<char>>) -> Seq<char>
    decreases parts.len(),
{
    if parts.len() == 0 {
        seq![]
    } else if parts.len() == 1 {
        parts[0]
    } else {
        spaced(parts.drop_last()) + seq![' '] + parts.last()
    }
}

/// One more part stands after a space.
pub proof fn lemma_spaced_push(parts: Seq<Seq<char>>, part: Seq<char>)
    requires
        parts.len() > 0,
    ensures
        spaced(parts.push(part)) == spaced(parts) + seq![' '] + part,
{
    assert(parts.push(part).drop_last() =~= parts);
}

/// Words with one space between each two are read back.
pub proof fn law_spaced_words_read_back(list: Seq<Seq<char>>)
    requires
        forall|i: int| 0 <= i < list.len() ==> (#[trigger] list[i]).len() > 0,
        forall|i: int, j: int|
            0 <= i < list.len() && 0 <= j < list[i].len() ==> !is_space(#[trigger] list[i][j]),
    ensures
        words(spaced(list)) == list,
    decreases list.len(),
{
    if list.len() == 0 {
        assert(list =~= Seq::<Seq<char>>::empty());
    } else {
        let front = list.drop_last();
        let last = list.last();
        let n = list.len() - 1;
        assert(list[n] == last);
        assert forall|j: int| 0 <= j < last.len() implies !is_space(#[trigger] last[j]) by {
            assert(list[n][j] == last[j]);
        }
        law_a_run_is_one_word(last);
        if n == 0 {
            assert(list =~= seq![last]);
        } else {
            assert forall|i: int, j: int| 0 <= i < front.len() && 0 <= j < front[i].len() implies
                !is_space(#[trigger] front[i][j]) by {
                assert(list[i][j] == front[i][j]);
            }
            assert forall|i: int| 0 <= i < front.len() implies (#[trigger] front[i]).len() > 0 by {
                assert(list[i].len() > 0);
            }
            law_spaced_words_read_back(front);
            law_white_space_parts_words(spaced(front), ' ', last);
            assert(front + seq![last] =~= list);
        }
    }
}

/// What ends a line: a line feed, after a carriage return or not.
pub open spec fn line_mark(crlf: bool) -> Seq<char> {
    if crlf {
        seq!['\r', '\n']
    } else {
        seq!['\n']
    }
}

/// Lines, each with what ends it.
pub open spec fn written_lines(lines: Seq<Seq<char>>, crlf: bool) -> Seq<char>
    decreases lines.len(),
{
    if lines.len() == 0 {
        seq![]
    } else {
        lines[0] + line_mark(crlf) + written_lines(lines.drop_first(), crlf)
    }
}

/// The line holds no line end.
pub open spec fn is_one_line(line: Seq<char>) -> bool {
    forall|i: int| 0 <= i < line.len() ==> #[trigger] line[i] != '\n' && line[i] != '\r'
}

/// A line and its line end are the first line of text.
pub proof fn lemma_first_line(line: Seq<char>, crlf: bool, rest: Seq<char>)
    requires
        is_one_line(line),
    ensures
        lines_of(line + line_mark(crlf) + rest) == seq![line] + lines_of(rest),
{
    let s = line + line_mark(crlf) + rest;
    let at = line.len() + line_mark(crlf).len() - 1;
    assert(s[at] == '\n');
    assert forall|j: int| 0 <= j < at implies s[j] != '\n' by {
        if j < line.len() {
            assert(s[j] == line[j]);
        }
    }
    lemma_char_is_first(s, '\n', at);
    assert(s.skip(at + 1) =~= rest);
    if crlf {
        assert(s.take(at) =~= line.push('\r'));
        assert(s.take(at).drop_last() =~= line);
    } else {
        assert(s.take(at) =~= line);
        if line.len() > 0 {
            assert(line[line.len() - 1] != '\r');
        }
    }
}

/// Lines that are written are read back, with line feeds or with carriage returns before
/// them, and whether the last line is ended or not, as long as it is not empty then.
pub proof fn law_lines_read_back(lines: Seq<Seq<char>>, crlf: bool)
    requires
        forall|i: int| 0 <= i < lines.len() ==> is_one_line(#[trigger] lines[i]),
    ensures
        lines_of(written_lines(lines, crlf)) == lines,
        lines.len() > 0 && lines.last().len() > 0 ==> lines_of(
            written_lines(lines.drop_last(), crlf) + lines.last(),
        ) == lines,
    decreases lines.len(),
{
    if lines.len() > 0 {
        let first = lines[0];
        let rest = lines.drop_first();
        assert(is_one_line(first));
        assert forall|i: int| 0 <= i < rest.len() implies is_one_line(#[trigger] rest[i]) by {
            assert(rest[i] == lines[i + 1]);
        }
        law_lines_read_back(rest, crlf);
        lemma_first_line(first, crlf, written_lines(rest, crlf));
        assert(seq![first] + rest =~= lines);
        if lines.last().len() > 0 {
            let last = lines.last();
            let front = lines.drop_last();
            if rest.len() == 0 {
                assert(written_lines(front, crlf) + last =~= first);
                assert(is_one_line(last));
                lemma_find_char(first, '\n');
                assert(lines_of(first) =~= lines);
            } else {
                assert(rest.last() == last);
                assert(front[0] == first);
                assert(front.drop_first() =~= rest.drop_last());
                let tail = written_lines(rest.drop_last(), crlf) + last;
                assert(written_lines(front, crlf) + last =~= first + line_mark(crlf) + tail);
                lemma_first_line(first, crlf, tail);
            }
        }
    } else {
        assert(lines =~= Seq::<Seq<char>>::empty());
    }
}

/// Lines before text are its first lines.
pub proof fn lemma_lines_before(lines: Seq<Seq<char>>, crlf: bool, rest: Seq<char>)
    requires
        forall|i: int| 0 <= i < lines.len() ==> is_one_line(#[trigger] lines[i]),
    ensures
        lines_of(written_lines(lines, crlf) + rest) == lines + lines_of(rest),
    decreases lines.len(),
{
    if lines.len() == 0 {
        assert(written_lines(lines, crlf) + rest =~= rest);
        assert(lines + lines_of(rest) =~= lines_of(rest));
    } else {
        let later = lines.drop_first();
        assert(is_one_line(lines[0]));
        assert forall|i: int| 0 <= i < later.len() implies is_one_line(#[trigger] later[i]) by {
            assert(later[i] == lines[i + 1]);
        }
        lemma_lines_before(later, crlf, rest);
        let tail = written_lines(later, crlf) + rest;
        lemma_first_line(lines[0], crlf, tail);
        assert(written_lines(lines, crlf) + rest =~= lines[0] + line_mark(crlf) + tail);
        assert(seq![lines[0]] + (later + lines_of(rest)) =~= lines + lines_of(rest));
    }
}

/// The last line is written after the others.
pub proof fn lemma_written_last(lines: Seq<Seq<char>>, crlf: bool)
    requires
        lines.len() > 0,
    ensures
        written_lines(lines, crlf) == written_lines(lines.drop_last(), crlf) + lines.last()
            + line_mark(crlf),
    decreases lines.len(),
{
    let rest = lines.drop_first();
    let none = Seq::<Seq<char>>::empty();
    if rest.len() == 0 {
        assert(rest =~= none);
        assert(lines.drop_last() =~= none);
        assert(written_lines(none, crlf) =~= Seq::<char>::empty());
        assert(written_lines(lines, crlf) =~= lines[0] + line_mark(crlf));
        assert(written_lines(lines.drop_last(), crlf) + lines.last() + line_mark(crlf) =~= lines[0]
            + line_mark(crlf));
    } else {
        lemma_written_last(rest, crlf);
        assert(rest.last() == lines.last());
        assert(lines.drop_last().drop_first() =~= rest.drop_last());
        assert(lines.drop_last()[0] == lines[0]);
        assert(written_lines(lines, crlf) =~= written_lines(lines.drop_last(), crlf) + lines.last()
            + line_mark(crlf));
    }
}

/// The lines of `s`.
pub fn lines(s: &[char]) -> (r: Vec<Vec<char>>)
    ensures
        rows(r@) == lines_of(s@),
{
    let mut out: Vec<Vec<char>> = Vec::new();
    let mut rest: &[char] = s;
    proof {
        assert(rows(out@) + lines_of(s@) =~= lines_of(s@));
    }
    while rest.len() > 0
        invariant
            lines_of(s@) == rows(out@) + lines_of(rest@),
        decreases rest@.len(),
    {
        let ghost before = out@;
        let ghost tail = rest@;
        match find_char(rest, '\n') {
            Some(i) => {
                let mut end: usize = i;
                if i > 0 && rest[i - 1] == '\r' {
                    end = i - 1;
                }
                out.push(row_of(slice_subrange(rest, 0, end)));
                assert(out@.last()@ =~= without_cr(tail.take(i as int)));
                rest = slice_subrange(rest, i + 1, rest.len());
                assert(rest@ =~= tail.skip(i + 1));
            },
            None => {
                out.push(row_of(rest));
                rest = slice_subrange(rest, rest.len(), rest.len());
                assert(lines_of(tail) =~= seq![tail] + lines_of(rest@));
            },
        }
        proof {
            assert(rows(out@) =~= rows(before) + seq![out@.last()@]);
            assert(rows(out@) + lines_of(rest@) =~= rows(before) + lines_of(tail));
        }
    }
    assert(rows(out@) + lines_of(rest@) =~= rows(out@));
    out
}

/// The words of `s`.
pub fn split_whitespace(s: &[char]) -> (r: Vec<Vec<char>>)
    ensures
        rows(r@) == words(s@),
{
    let mut out: Vec<Vec<char>> = Vec::new();
    let mut rest: &[char] = s;
    proof {
        assert(rows(out@) + words(s@) =~= words(s@));
    }
    while rest.len() > 0
        invariant
            words(s@) == rows(out@) + words(rest@),
        decreases rest@.len(),
    {
        let ghost before = out@;
        let ghost tail = rest@;
        if is_whitespace(rest[0]) {
            rest = slice_subrange(rest, 1, rest.len());
            assert(rest@ =~= tail.drop_first());
        } else {
            let mut k: usize = 1;
            while k < rest.len() && !is_whitespace(rest[k])
                invariant
                    rest@ == tail,
                    1 <= k <= rest@.len(),
                    forall|j: int| 0 <= j < k ==> !is_space(#[trigger] rest@[j]),
                decreases rest@.len() - k,
            {
                k = k + 1;
            }
            proof {
                lemma_word_len(tail, k as int);
            }
            out.push(row_of(slice_subrange(rest, 0, k)));
            rest = slice_subrange(rest, k, rest.len());
            proof {
                assert(out@.last()@ =~= tail.take(k as int));
                assert(rest@ =~= tail.skip(k as int));
                assert(rows(out@) =~= rows(before) + seq![out@.last()@]);
                assert(rows(out@) + words(rest@) =~= rows(before) + words(tail));
            }
        }
    }
    assert(rows(out@) + words(rest@) =~= rows(out@));
    out
}

// Case

/// `c` in lower case where it is an ASCII letter.
pub open spec fn ascii_lower(c: char) -> char {
    if 'A' <= c <= 'Z' {
        ((c as u8) + 32) as char
    } else {
        c
    }
}

/// `c` in upper case where it is an ASCII letter.
pub open spec fn ascii_upper(c: char) -> char {
    if 'a' <= c <= 'z' {
        ((c as u8) - 32) as char
    } else {
        c
    }
}

/// `s` with its ASCII letters in lower case.
pub open spec fn ascii_lowered(s: Seq<char>) -> Seq<char> {
    s.map_values(|c: char| ascii_lower(c))
}

/// `s` with its ASCII letters in upper case.
pub open spec fn ascii_uppered(s: Seq<char>) -> Seq<char> {
    s.map_values(|c: char| ascii_upper(c))
}

/// `s` with its ASCII letters in lower case.
pub fn to_ascii_lower(s: &[char]) -> (r: Vec<char>)
    ensures
        r@ == ascii_lowered(s@),
{
    let mut out: Vec<char> = Vec::new();
    for i in 0..s.len()
        invariant
            out@ =~= ascii_lowered(s@.take(i as int)),
    {
        let c = s[i];
        let d = if 'A' <= c && c <= 'Z' {
            (c as u8 + 32) as char
        } else {
            c
        };
        out.push(d);
        assert(s@.take(i + 1) =~= s@.take(i as int).push(c));
    }
    assert(s@.take(s@.len() as int) =~= s@);
    out
}

/// `s` with its ASCII letters in upper case.
pub fn to_ascii_upper(s: &[char]) -> (r: Vec<char>)
    ensures
        r@ == ascii_uppered(s@),
{
    let mut out: Vec<char> = Vec::new();
    for i in 0..s.len()
        invariant
            out@ =~= ascii_uppered(s@.take(i as int)),
    {
        let c = s[i];
        let d = if 'a' <= c && c <= 'z' {
            (c as u8 - 32) as char
        } else {
            c
        };
        out.push(d);
        assert(s@.take(i + 1) =~= s@.take(i as int).push(c));
    }
    assert(s@.take(s@.len() as int) =~= s@);
    out
}

/// The letters of ASCII go to the other case, each to its own, and nothing else changes.
pub proof fn law_case_of_ascii(i: u8, c: char)
    requires
        i < 26,
    ensures
        ascii_lower((65 + i) as char) == (97 + i) as char,
        ascii_upper((97 + i) as char) == (65 + i) as char,
        !('A' <= c <= 'Z') ==> ascii_lower(c) == c,
        !('a' <= c <= 'z') ==> ascii_upper(c) == c,
{
}

} // verus!
