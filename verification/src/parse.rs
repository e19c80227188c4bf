//! Message-IDs.

use crate::text;
use vstd::prelude::*;

verus! {

/// A Message-ID without white space and angle brackets around it.
pub open spec fn normalized_id(s: Seq<char>) -> Seq<char> {
    let open = text::strip_front(text::trimmed(s), |c: char| c == '<');
    text::trimmed(text::strip_back(open, |c: char| c == '>'))
}

/// Normalize a Message-ID for comparison: trim white space and angle brackets so
/// that `<id@host>` and `id@host` compare equal.
pub fn normalize_message_id(s: &str) -> (r: String)
    ensures
        r@ == normalized_id(s@),
{
    let chars = text::chars_of(s);
    let bare = text::trim(chars.as_slice());
    let bare = text::trim_start_char(bare, '<');
    let bare = text::trim_end_char(bare, '>');
    text::string_of(text::trim(bare))
}

/// Angle brackets around an id make no difference: `<id@host>` and `id@host` compare
/// equal.
pub proof fn law_brackets_do_not_matter(s: Seq<char>)
    requires
        text::trimmed(s) == s,
    ensures
        normalized_id(seq!['<'] + s + seq!['>']) == normalized_id(s),
{
    let space = |c: char| text::is_space(c);
    let open = |c: char| c == '<';
    let close = |c: char| c == '>';
    let t = seq!['<'] + s + seq!['>'];
    text::lemma_strip_front(t, space, 0);
    assert(t.skip(0) =~= t);
    text::lemma_strip_back(t, space, t.len() as int);
    assert(t.take(t.len() as int) =~= t);
    assert(text::trimmed(t) == t);
    let k = text::lemma_front_run(s, open);
    assert forall|j: int| 0 <= j < k + 1 implies open(#[trigger] t[j]) by {
        if j > 0 {
            assert(open(s[j - 1]));
        }
    }
    text::lemma_strip_front(t, open, k + 1);
    let rest = t.skip(k + 1);
    assert(rest.last() == '>');
    assert(rest.drop_last() =~= s.skip(k));
    assert(text::strip_back(rest, close) == text::strip_back(s.skip(k), close));
}

/// White space around an id makes no difference.
pub proof fn law_surrounding_space_does_not_matter(a: Seq<char>, s: Seq<char>, b: Seq<char>)
    requires
        forall|i: int| 0 <= i < a.len() ==> text::is_space(#[trigger] a[i]),
        forall|i: int| 0 <= i < b.len() ==> text::is_space(#[trigger] b[i]),
    ensures
        normalized_id(a + s + b) == normalized_id(s),
{
    text::law_trim_ignores_surrounding_space(a, s, b);
}

/// An id is kept as it is, without the white space and the angle brackets around it: ids
/// that differ otherwise do not compare equal.
pub proof fn law_ids_are_kept(
    a: Seq<char>,
    opens: Seq<char>,
    id: Seq<char>,
    closes: Seq<char>,
    b: Seq<char>,
)
    requires
        forall|i: int| 0 <= i < a.len() ==> text::is_space(#[trigger] a[i]),
        forall|i: int| 0 <= i < b.len() ==> text::is_space(#[trigger] b[i]),
        forall|i: int| 0 <= i < opens.len() ==> #[trigger] opens[i] == '<',
        forall|i: int| 0 <= i < closes.len() ==> #[trigger] closes[i] == '>',
        id.len() > 0,
        id[0] != '<' && id.last() != '>',
        !text::is_space(id[0]) && !text::is_space(id.last()),
    ensures
        normalized_id(a + opens + id + closes + b) == id,
{
    let inner = opens + id + closes;
    let n = opens.len() as int;
    let m = id.len() as int;
    assert(a + opens + id + closes + b =~= a + inner + b);
    text::law_trim_ignores_surrounding_space(a, inner, b);
    if n > 0 {
        assert(inner[0] == opens[0]);
    } else {
        assert(inner[0] == id[0]);
    }
    if closes.len() > 0 {
        assert(inner.last() == closes[closes.len() - 1]);
    } else {
        assert(inner.last() == id.last());
    }
    text::lemma_already_trimmed(inner);
    let open = |c: char| c == '<';
    let close = |c: char| c == '>';
    assert forall|j: int| 0 <= j < n implies open(#[trigger] inner[j]) by {
        assert(inner[j] == opens[j]);
    }
    assert(inner[n] == id[0]);
    text::lemma_strip_front(inner, open, n);
    let f = inner.skip(n);
    assert(f =~= id + closes);
    assert forall|j: int| m <= j < f.len() implies close(#[trigger] f[j]) by {
        assert(f[j] == closes[j - m]);
    }
    assert(f[m - 1] == id.last());
    text::lemma_strip_back(f, close, m);
    assert(f.take(m) =~= id);
    text::lemma_already_trimmed(id);
}

} // verus!
