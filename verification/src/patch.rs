//! The `[PATCH vV n/m]` tag of a subject.

use crate::number;
use crate::text;
use vstd::prelude::*;
use vstd::slice::slice_subrange;

verus! {

/// The `vV n/m` decoded from a `[PATCH ...]` subject tag. Two mails belong to the
/// same series exactly when they share a `version` and `total` (and a thread); the
/// `number` orders them and singles out the `0/m` cover letter.
#[derive(Debug, Clone, Copy, PartialEq, Eq)]
pub struct PatchTag {
    /// Revision: `[PATCH v2 ...]` is 2, an untagged `[PATCH ...]` is 1.
    pub version: u32,
    /// This patch's position, the `n` of `n/m`. A cover letter is 0, a lone
    /// `[PATCH]` is 1.
    pub number: u32,
    /// The series length, the `m` of `n/m`. A lone `[PATCH]` is 1.
    pub total: u32,
}

impl Default for PatchTag {
    fn default() -> (r: PatchTag)
        ensures
            r == (PatchTag { version: 0, number: 0, total: 0 }),
    {
        PatchTag { version: 0, number: 0, total: 0 }
    }
}

/// The subject is that of a reply.
pub open spec fn is_reply(subject: Seq<char>) -> bool {
    text::begins_with(text::ascii_lowered(subject), seq!['r', 'e', ':'])
}

/// `group` says that it tags a patch.
pub open spec fn mentions_patch(group: Seq<char>) -> bool {
    text::find_in(text::ascii_uppered(group), seq!['P', 'A', 'T', 'C', 'H']) is Some
}

/// What stands in the first pair of square brackets that tags a patch. Only
/// bracketed groups and white space may stand before it.
pub open spec fn patch_group(s: Seq<char>) -> Option<Seq<char>>
    decreases s.len(),
{
    if s.len() == 0 || s[0] != '[' {
        None
    } else {
        let inner = s.skip(1);
        match text::find_char_in(inner, ']') {
            None => None,
            Some(i) => if mentions_patch(inner.take(i)) {
                Some(inner.take(i))
            } else {
                proof {
                    text::lemma_find_char(inner, ']');
                    text::lemma_strip_front_len(inner.skip(i + 1), |c: char| text::is_space(c));
                }
                patch_group(text::trimmed_start(inner.skip(i + 1)))
            },
        }
    }
}

/// `s` with spaces in place of commas.
pub open spec fn commas_to_spaces(s: Seq<char>) -> Seq<char> {
    s.map_values(
        |c: char|
            if c == ',' {
                ' '
            } else {
                c
            },
    )
}

/// The number that a word of a tag writes.
pub open spec fn tag_number(s: Seq<char>) -> Option<int> {
    number::unsigned_value(s, u32::MAX as int)
}

/// The revision that the word `v2` states.
pub open spec fn word_version(w: Seq<char>) -> Option<int> {
    if w.len() > 0 && (w[0] == 'v' || w[0] == 'V') {
        tag_number(w.skip(1))
    } else {
        None
    }
}

/// The position and length that the word `n/m` states, where both sides of its
/// first slash are numbers.
pub open spec fn word_position(w: Seq<char>) -> Option<(int, int)> {
    match text::find_char_in(w, '/') {
        Some(i) => match (tag_number(w.take(i)), tag_number(w.skip(i + 1))) {
            (Some(n), Some(m)) => Some((n, m)),
            _ => None,
        },
        None => None,
    }
}

/// The tag after the word `w`, which may state a revision or a position.
pub open spec fn tag_with_word(tag: PatchTag, w: Seq<char>) -> PatchTag {
    match word_version(w) {
        Some(v) => PatchTag { version: v as u32, ..tag },
        None => match word_position(w) {
            Some((n, m)) => PatchTag { number: n as u32, total: m as u32, ..tag },
            None => tag,
        },
    }
}

/// The tag that the words state. What they do not state is that of a lone
/// `[PATCH]`; of two statements the later one counts.
pub open spec fn tag_of_words(list: Seq<Seq<char>>) -> PatchTag
    decreases list.len(),
{
    if list.len() == 0 {
        PatchTag { version: 1, number: 1, total: 1 }
    } else {
        tag_with_word(tag_of_words(list.drop_last()), list.last())
    }
}

/// The patch tag of a subject. A reply has none.
pub open spec fn patch_tag_of(subject: Seq<char>) -> Option<PatchTag> {
    let s = text::trimmed(subject);
    if is_reply(s) {
        None
    } else {
        match patch_group(s) {
            Some(group) => Some(tag_of_words(text::words(commas_to_spaces(group)))),
            None => None,
        }
    }
}

/// Whether the subject is that of a reply.
pub fn starts_with_re(subject: &[char]) -> (r: bool)
    ensures
        r == is_reply(subject@),
{
    let lower = text::to_ascii_lower(subject);
    let re: Vec<char> = vec!['r', 'e', ':'];
    assert(re@ =~= seq!['r', 'e', ':']);
    text::matches_at(lower.as_slice(), re.as_slice(), 0)
}

/// What stands in the first pair of square brackets that tags a patch.
fn find_patch_group(subject: &[char]) -> (r: Option<Vec<char>>)
    ensures
        match r {
            Some(g) => patch_group(subject@) == Some(g@),
            None => patch_group(subject@) is None,
        },
{
    let mut rest: &[char] = subject;
    let patch: Vec<char> = vec!['P', 'A', 'T', 'C', 'H'];
    assert(patch@ =~= seq!['P', 'A', 'T', 'C', 'H']);
    loop
        invariant
            patch@ == seq!['P', 'A', 'T', 'C', 'H'],
            patch_group(subject@) == patch_group(rest@),
        decreases rest@.len(),
    {
        if rest.len() == 0 || rest[0] != '[' {
            return None;
        }
        let inner = slice_subrange(rest, 1, rest.len());
        assert(inner@ =~= rest@.skip(1));
        let i: usize = match text::find_char(inner, ']') {
            Some(i) => i,
            None => return None,
        };
        let group = slice_subrange(inner, 0, i);
        assert(group@ =~= inner@.take(i as int));
        let upper = text::to_ascii_upper(group);
        if text::find(upper.as_slice(), patch.as_slice()).is_some() {
            return Some(text::row_of(group));
        }
        let tail = slice_subrange(inner, i + 1, inner.len());
        assert(tail@ =~= inner@.skip(i + 1));
        rest = text::trim_start(tail);
    }
}

/// Read one word of a tag.
fn read_word(tag: PatchTag, w: &[char]) -> (r: PatchTag)
    ensures
        r == tag_with_word(tag, w@),
{
    let n: usize = w.len();
    if n > 0 && (w[0] == 'v' || w[0] == 'V') {
        let digits = slice_subrange(w, 1, n);
        assert(digits@ =~= w@.skip(1));
        if let Some(v) = number::parse_u32(digits) {
            return PatchTag { version: v, number: tag.number, total: tag.total };
        }
    }
    if let Some(i) = text::find_char(w, '/') {
        let left = slice_subrange(w, 0, i);
        let right = slice_subrange(w, i + 1, n);
        assert(left@ =~= w@.take(i as int));
        assert(right@ =~= w@.skip(i + 1));
        if let (Some(a), Some(b)) = (number::parse_u32(left), number::parse_u32(right)) {
            return PatchTag { version: tag.version, number: a, total: b };
        }
    }
    tag
}

/// Decode a `[PATCH vV n/m ...]` subject tag. `vV` and `n/m` are both optional (a
/// lone `[PATCH]` is v1, 1/1); anything the words do not supply keeps that
/// default. Groups in square brackets may stand before the tag, and commas part
/// words as spaces do.
pub fn parse_patch_tag(subject: &str) -> (r: Option<PatchTag>)
    ensures
        r == patch_tag_of(subject@),
{
    let chars = text::chars_of(subject);
    let trimmed = text::trim(chars.as_slice());
    if starts_with_re(trimmed) {
        return None;
    }
    let mut group: Vec<char> = match find_patch_group(trimmed) {
        Some(g) => g,
        None => return None,
    };
    let ghost original = group@;
    let n: usize = group.len();
    for i in 0..n
        invariant
            n == original.len(),
            group@.len() == n,
            forall|j: int| 0 <= j < i ==> group@[j] == commas_to_spaces(original)[j],
            forall|j: int| i <= j < n ==> group@[j] == original[j],
    {
        if group[i] == ',' {
            group.set(i, ' ');
        }
    }
    assert(group@ =~= commas_to_spaces(original));
    let list = text::split_whitespace(group.as_slice());
    let ghost all = text::words(group@);
    let mut tag = PatchTag { version: 1, number: 1, total: 1 };
    assert(all.take(0) =~= Seq::<Seq<char>>::empty());
    for i in 0..list.len()
        invariant
            text::rows(list@) == all,
            tag == tag_of_words(all.take(i as int)),
    {
        assert(all.take(i + 1).drop_last() =~= all.take(i as int));
        assert(all.take(i + 1).last() == list@[i as int]@);
        tag = read_word(tag, list[i].as_slice());
    }
    assert(all.take(all.len() as int) =~= all);
    Some(tag)
}

/// Digits are neither white space nor the marks that part a tag.
proof fn lemma_decimal_chars(n: nat)
    ensures
        number::decimal(n).len() > 0,
        forall|i: int|
            0 <= i < number::decimal(n).len() ==> number::is_digit(
                #[trigger] number::decimal(n)[i],
            ),
{
    number::lemma_decimal_reads_back(n);
}

/// A subject that opens with a bracketed group, once it is trimmed.
proof fn lemma_trimmed_group(group: Seq<char>, title: Seq<char>)
    ensures
        text::trimmed(seq!['['] + group + seq![']'] + title) == seq!['['] + group + seq![']']
            + text::trimmed_end(title),
        !is_reply(seq!['['] + group + seq![']'] + text::trimmed_end(title)),
{
    let subject = seq!['['] + group + seq![']'] + title;
    let end = group.len() as int + 1;
    let space = |c: char| text::is_space(c);
    assert(subject[0] == '[');
    assert(subject[end] == ']');
    text::lemma_strip_front(subject, space, 0);
    assert(subject.skip(0) =~= subject);
    let k = text::lemma_back_run(title, space);
    let m = end + 1 + k;
    assert forall|j: int| m <= j < subject.len() implies space(#[trigger] subject[j]) by {
        assert(subject[j] == title[j - end - 1]);
        assert(space(title[j - end - 1]));
    }
    if k > 0 {
        assert(subject[m - 1] == title[k - 1]);
    }
    text::lemma_strip_back(subject, space, m);
    let s = seq!['['] + group + seq![']'] + text::trimmed_end(title);
    assert(text::trimmed(subject) == subject.take(m));
    assert(subject.take(m) =~= s);
    if is_reply(s) {
        let lower = text::ascii_lowered(s);
        assert(lower.subrange(0, 3)[0] == lower[0]);
        assert(s[0] == '[');
    }
}

/// The first group of a subject that opens with one.
proof fn lemma_first_group(group: Seq<char>, tail: Seq<char>)
    requires
        forall|j: int| 0 <= j < group.len() ==> #[trigger] group[j] != ']',
    ensures
        patch_group(seq!['['] + group + seq![']'] + tail) == if mentions_patch(group) {
            Some(group)
        } else {
            patch_group(text::trimmed_start(tail))
        },
{
    let s = seq!['['] + group + seq![']'] + tail;
    let inner = s.skip(1);
    let n = group.len() as int;
    assert forall|j: int| 0 <= j < n implies #[trigger] inner[j] == group[j] by {}
    assert(inner[n] == ']');
    text::lemma_char_is_first(inner, ']', n);
    assert(inner.take(n) =~= group);
    assert(inner.skip(n + 1) =~= tail);
}

/// A subject that opens with a bracketed group is tagged by it, where it tags a patch.
proof fn lemma_group_is_read(group: Seq<char>, title: Seq<char>)
    requires
        forall|j: int| 0 <= j < group.len() ==> #[trigger] group[j] != ']',
        mentions_patch(group),
    ensures
        patch_tag_of(seq!['['] + group + seq![']'] + title) == Some(
            tag_of_words(text::words(commas_to_spaces(group))),
        ),
{
    lemma_trimmed_group(group, title);
    lemma_first_group(group, text::trimmed_end(title));
}

/// A group that opens with the word tags a patch.
proof fn lemma_opens_with_group(group: Seq<char>, title: Seq<char>)
    requires
        forall|j: int| 0 <= j < group.len() ==> #[trigger] group[j] != ']',
        text::begins_with(group, seq!['P', 'A', 'T', 'C', 'H']),
    ensures
        patch_tag_of(seq!['['] + group + seq![']'] + title) == Some(
            tag_of_words(text::words(commas_to_spaces(group))),
        ),
{
    assert(mentions_patch(group)) by {
        let upper = text::ascii_uppered(group);
        let word = seq!['P', 'A', 'T', 'C', 'H'];
        assert(group.subrange(0, 5) == word);
        assert forall|j: int| 0 <= j < 5 implies #[trigger] upper[j] == word[j] by {
            assert(group.subrange(0, 5)[j] == group[j]);
        }
        assert(upper.subrange(0, 5) =~= word);
        assert(text::occurs_at(upper, word, 0));
        text::lemma_first_match(upper, word, 0);
    }
    lemma_group_is_read(group, title);
}

/// Text without commas keeps its words.
proof fn lemma_no_commas(s: Seq<char>)
    requires
        forall|j: int| 0 <= j < s.len() ==> #[trigger] s[j] != ',',
    ensures
        commas_to_spaces(s) == s,
{
    assert(commas_to_spaces(s) =~= s);
}

/// The words `vV` and `n/m` state what they say.
proof fn lemma_tag_words(version: u32, number: u32, total: u32)
    ensures
        word_version(seq!['v'] + number::decimal(version as nat)) == Some(version as int),
        word_version(
            number::decimal(number as nat) + seq!['/'] + number::decimal(total as nat),
        ) is None,
        word_position(
            number::decimal(number as nat) + seq!['/'] + number::decimal(total as nat),
        ) == Some((number as int, total as int)),
{
    let v = number::decimal(version as nat);
    let n = number::decimal(number as nat);
    let m = number::decimal(total as nat);
    lemma_decimal_chars(version as nat);
    lemma_decimal_chars(number as nat);
    lemma_decimal_chars(total as nat);
    number::law_unsigned_reads_decimal(version as nat, u32::MAX as int);
    number::law_unsigned_reads_decimal(number as nat, u32::MAX as int);
    number::law_unsigned_reads_decimal(total as nat, u32::MAX as int);
    assert((seq!['v'] + v).skip(1) =~= v);
    let w = n + seq!['/'] + m;
    assert(w[0] == n[0]);
    assert(w[n.len() as int] == '/');
    assert forall|j: int| 0 <= j < n.len() implies w[j] != '/' by {
        assert(w[j] == n[j]);
    }
    text::lemma_char_is_first(w, '/', n.len() as int);
    assert(w.take(n.len() as int) =~= n);
    assert(w.skip(n.len() as int + 1) =~= m);
}

/// A subject `[PATCH vV n/m]` with any title is tagged with revision, position and
/// series length as it says.
pub proof fn law_tag_is_what_the_subject_says(
    version: u32,
    number: u32,
    total: u32,
    title: Seq<char>,
)
    ensures
        patch_tag_of(
            seq!['[', 'P', 'A', 'T', 'C', 'H', ' ', 'v'] + number::decimal(version as nat) + seq![
                ' ',
            ] + number::decimal(number as nat) + seq!['/'] + number::decimal(total as nat) + seq![
                ']',
            ] + title,
        ) == Some(PatchTag { version, number, total }),
{
    let v = number::decimal(version as nat);
    let n = number::decimal(number as nat);
    let m = number::decimal(total as nat);
    lemma_decimal_chars(version as nat);
    lemma_decimal_chars(number as nat);
    lemma_decimal_chars(total as nat);
    let patch = seq!['P', 'A', 'T', 'C', 'H'];
    let revision = seq!['v'] + v;
    let position = n + seq!['/'] + m;
    let tail = seq![' '] + position;
    let middle = seq![' '] + (revision + tail);
    let group = patch + middle;
    assert(group =~= patch + seq![' ', 'v'] + v + seq![' '] + n + seq!['/'] + m);
    assert forall|j: int| 0 <= j < v.len() implies #[trigger] v[j] != ']' && v[j] != ','
        && !text::is_space(v[j]) by {
        assert(number::is_digit(v[j]));
    }
    assert forall|j: int| 0 <= j < n.len() implies #[trigger] n[j] != ']' && n[j] != ','
        && !text::is_space(n[j]) by {
        assert(number::is_digit(n[j]));
    }
    assert forall|j: int| 0 <= j < m.len() implies #[trigger] m[j] != ']' && m[j] != ','
        && !text::is_space(m[j]) by {
        assert(number::is_digit(m[j]));
    }
    assert forall|j: int| 0 <= j < position.len() implies #[trigger] position[j] != ']'
        && position[j] != ',' && !text::is_space(position[j]) by {
        if j < n.len() {
            assert(position[j] == n[j]);
        } else if j > n.len() {
            assert(position[j] == m[j - n.len() - 1]);
        }
    }
    assert forall|j: int| 0 <= j < revision.len() implies #[trigger] revision[j] != ']'
        && revision[j] != ',' && !text::is_space(revision[j]) by {
        if j > 0 {
            assert(revision[j] == v[j - 1]);
        }
    }
    assert forall|j: int| 0 <= j < group.len() implies #[trigger] group[j] != ']' && group[j]
        != ',' by {
        if j < 5 {
            assert(group[j] == patch[j]);
        } else if 6 <= j < 6 + revision.len() {
            assert(group[j] == revision[j - 6]);
        } else if j > 6 + revision.len() {
            assert(group[j] == position[j - 7 - revision.len()]);
        }
    }
    assert(group.subrange(0, 5) =~= patch);
    lemma_opens_with_group(group, title);
    lemma_no_commas(group);
    assert(seq!['['] + group + seq![']'] + title =~= seq![
        '[',
        'P',
        'A',
        'T',
        'C',
        'H',
        ' ',
        'v',
    ] + v + seq![' '] + n + seq!['/'] + m + seq![']'] + title);
    text::lemma_first_word(patch, middle);
    text::lemma_space_before_words(revision + tail);
    text::lemma_first_word(revision, tail);
    text::lemma_space_before_words(position);
    let none = Seq::<char>::empty();
    assert(position + none =~= position);
    text::lemma_first_word(position, none);
    let list = text::words(group);
    assert(list =~= seq![patch, revision, position]);
    lemma_tag_words(version, number, total);
    assert(word_version(patch) is None);
    assert(word_position(patch) is None) by {
        text::lemma_find_char(patch, '/');
    }
    let first = list.drop_last();
    let second = first.drop_last();
    assert(first =~= seq![patch, revision]);
    assert(second =~= seq![patch]);
    assert(second.drop_last() =~= Seq::<Seq<char>>::empty());
    assert(tag_of_words(second.drop_last()) == PatchTag { version: 1, number: 1, total: 1 });
    assert(tag_of_words(second) == PatchTag { version: 1, number: 1, total: 1 });
    assert(tag_of_words(first) == PatchTag { version, number: 1, total: 1 });
}

/// A lone `[PATCH]` with any title is revision 1, and patch 1 of 1.
pub proof fn law_lone_patch_is_one_of_one(title: Seq<char>)
    ensures
        patch_tag_of(seq!['[', 'P', 'A', 'T', 'C', 'H', ']'] + title) == Some(
            PatchTag { version: 1, number: 1, total: 1 },
        ),
{
    let patch = seq!['P', 'A', 'T', 'C', 'H'];
    let none = Seq::<char>::empty();
    assert(patch.subrange(0, 5) =~= patch);
    lemma_opens_with_group(patch, title);
    lemma_no_commas(patch);
    assert(seq!['['] + patch + seq![']'] + title =~= seq!['[', 'P', 'A', 'T', 'C', 'H', ']']
        + title);
    text::lemma_first_word(patch, none);
    assert(patch + none =~= patch);
    let list = text::words(patch);
    assert(list =~= seq![patch]);
    assert(list.drop_last() =~= Seq::<Seq<char>>::empty());
    assert(tag_of_words(list.drop_last()) == PatchTag { version: 1, number: 1, total: 1 });
    assert(word_position(patch) is None) by {
        text::lemma_find_char(patch, '/');
    }
    assert(tag_of_words(list) == PatchTag { version: 1, number: 1, total: 1 });
}

/// A reply carries no patch tag, whatever it replies to.
pub proof fn law_replies_carry_no_tag(subject: Seq<char>)
    ensures
        patch_tag_of(seq!['R', 'e', ':'] + subject) is None,
{
    let full = seq!['R', 'e', ':'] + subject;
    let space = |c: char| text::is_space(c);
    text::lemma_strip_front(full, space, 0);
    assert(full.skip(0) =~= full);
    let k = text::lemma_back_run(full, space);
    if k <= 2 {
        assert(space(full[2]));
    }
    let s = text::trimmed(full);
    assert(s == full.take(k));
    assert(text::ascii_lowered(s).subrange(0, 3) =~= seq!['r', 'e', ':']);
}

// What the words of a tag state

/// A word of a tag, as far as it may hold anything: no white space, comma or closing
/// bracket.
pub open spec fn is_tag_word(w: Seq<char>) -> bool {
    w.len() > 0 && forall|i: int|
        0 <= i < w.len() ==> !text::is_space(#[trigger] w[i]) && w[i] != ',' && w[i] != ']'
}

/// All of them are words of a tag.
pub open spec fn are_tag_words(list: Seq<Seq<char>>) -> bool {
    forall|i: int| 0 <= i < list.len() ==> is_tag_word(#[trigger] list[i])
}

/// `s` holds the word `patch`, in upper or lower case.
pub open spec fn says_patch(s: Seq<char>) -> bool {
    exists|i: int|
        0 <= i && i + 5 <= s.len() && text::ascii_uppered(#[trigger] s.subrange(i, i + 5)) == seq![
            'P',
            'A',
            'T',
            'C',
            'H',
        ]
}

/// One of the words says that this is a patch.
pub open spec fn some_says_patch(list: Seq<Seq<char>>) -> bool {
    exists|i: int| 0 <= i < list.len() && says_patch(#[trigger] list[i])
}

/// `d` writes a number that a tag can hold.
pub open spec fn is_tag_number(d: Seq<char>) -> bool {
    number::unsigned_value(d, u32::MAX as int) is Some
}

/// The word is neither `v` and a number nor two numbers with a slash between.
pub open spec fn states_nothing(w: Seq<char>) -> bool {
    &&& forall|d: Seq<char>| #[trigger] is_tag_number(d) ==> w != seq!['v'] + d && w != seq!['V'] + d
    &&& forall|d: Seq<char>, e: Seq<char>|
        #![trigger is_tag_number(d), is_tag_number(e)]
        is_tag_number(d) && is_tag_number(e) ==> w != d + seq!['/'] + e
}

/// A subject that opens with the words in square brackets.
pub open spec fn tagged(list: Seq<Seq<char>>, title: Seq<char>) -> Seq<char> {
    seq!['['] + text::spaced(list) + seq![']'] + title
}

/// To hold the word is to mention a patch.
proof fn lemma_says_patch(s: Seq<char>)
    ensures
        says_patch(s) <==> mentions_patch(s),
{
    let word = seq!['P', 'A', 'T', 'C', 'H'];
    let upper = text::ascii_uppered(s);
    text::lemma_first_match(upper, word, 0);
    if says_patch(s) {
        let i = choose|i: int|
            0 <= i && i + 5 <= s.len() && text::ascii_uppered(#[trigger] s.subrange(i, i + 5))
                == word;
        assert(upper.subrange(i, i + 5) =~= text::ascii_uppered(s.subrange(i, i + 5)));
        assert(text::occurs_at(upper, word, i));
    }
    if let Some(i) = text::find_in(upper, word) {
        assert(text::ascii_uppered(s.subrange(i, i + 5)) =~= upper.subrange(i, i + 5));
    }
}

/// What a part of the text says, the text says.
proof fn lemma_part_says_patch(a: Seq<char>, s: Seq<char>, b: Seq<char>)
    requires
        says_patch(s),
    ensures
        says_patch(a + s + b),
{
    let i = choose|i: int|
        0 <= i && i + 5 <= s.len() && text::ascii_uppered(#[trigger] s.subrange(i, i + 5)) == seq![
            'P',
            'A',
            'T',
            'C',
            'H',
        ];
    let k = a.len() + i;
    assert((a + s + b).subrange(k, k + 5) =~= s.subrange(i, i + 5));
}

/// Words of a tag, put together.
proof fn lemma_spaced_tag_words(list: Seq<Seq<char>>)
    requires
        are_tag_words(list),
    ensures
        forall|j: int|
            0 <= j < text::spaced(list).len() ==> #[trigger] text::spaced(list)[j] != ']'
                && text::spaced(list)[j] != ',',
        some_says_patch(list) ==> says_patch(text::spaced(list)),
    decreases list.len(),
{
    let s = text::spaced(list);
    if list.len() > 0 {
        let last = list.last();
        let front = list.drop_last();
        assert(last == list[list.len() - 1]);
        assert(is_tag_word(last));
        let none = Seq::<char>::empty();
        if list.len() == 1 {
            assert(s == list[0]);
        } else {
            assert forall|i: int| 0 <= i < front.len() implies is_tag_word(#[trigger] front[i]) by {
                assert(front[i] == list[i]);
            }
            lemma_spaced_tag_words(front);
            let t = text::spaced(front);
            assert(s == t + seq![' '] + last);
            assert forall|j: int| 0 <= j < s.len() implies #[trigger] s[j] != ']' && s[j] != ',' by {
                if j < t.len() {
                    assert(s[j] == t[j]);
                } else if j > t.len() {
                    assert(s[j] == last[j - t.len() - 1]);
                }
            }
            if some_says_patch(list) {
                let i = choose|i: int| 0 <= i < list.len() && says_patch(#[trigger] list[i]);
                if i < front.len() {
                    assert(front[i] == list[i]);
                    assert(some_says_patch(front));
                    lemma_part_says_patch(none, t, seq![' '] + last);
                    assert(none + t + (seq![' '] + last) =~= s);
                } else {
                    lemma_part_says_patch(t + seq![' '], last, none);
                    assert(t + seq![' '] + last + none =~= s);
                }
            }
        }
    }
}

/// A subject is tagged with what the words in its brackets state.
proof fn lemma_tagged(list: Seq<Seq<char>>, title: Seq<char>)
    requires
        are_tag_words(list),
        some_says_patch(list),
    ensures
        patch_tag_of(tagged(list, title)) == Some(tag_of_words(list)),
{
    let group = text::spaced(list);
    lemma_spaced_tag_words(list);
    lemma_says_patch(group);
    lemma_group_is_read(group, title);
    lemma_no_commas(group);
    assert forall|i: int, j: int| 0 <= i < list.len() && 0 <= j < list[i].len() implies
        !text::is_space(#[trigger] list[i][j]) by {
        assert(is_tag_word(list[i]));
    }
    assert forall|i: int| 0 <= i < list.len() implies (#[trigger] list[i]).len() > 0 by {
        assert(is_tag_word(list[i]));
    }
    text::law_spaced_words_read_back(list);
}

/// A word that states nothing is neither a revision nor a position.
proof fn lemma_states_nothing(w: Seq<char>)
    requires
        states_nothing(w),
    ensures
        word_version(w) is None,
        word_position(w) is None,
{
    if word_version(w) is Some {
        let d = w.skip(1);
        assert(is_tag_number(d));
        assert(w =~= seq![w[0]] + d);
    }
    text::lemma_find_char(w, '/');
    if word_position(w) is Some {
        let i = text::find_char_in(w, '/')->0;
        let d = w.take(i);
        let e = w.skip(i + 1);
        assert(is_tag_number(d) && is_tag_number(e));
        assert(w =~= d + seq!['/'] + e);
    }
}

/// A word that states nothing can be left out.
proof fn lemma_leave_out(a: Seq<Seq<char>>, w: Seq<char>, b: Seq<Seq<char>>)
    requires
        states_nothing(w),
    ensures
        tag_of_words(a + seq![w] + b) == tag_of_words(a + b),
    decreases b.len(),
{
    let with = a + seq![w] + b;
    let without = a + b;
    if b.len() == 0 {
        lemma_states_nothing(w);
        assert(with.drop_last() =~= without);
        assert(with.last() == w);
    } else {
        let front = b.drop_last();
        lemma_leave_out(a, w, front);
        assert(with.drop_last() =~= a + seq![w] + front);
        assert(without.drop_last() =~= a + front);
        assert(with.last() == b.last());
        assert(without.last() == b.last());
    }
}

/// A word of the tag that is neither `vV` nor `n/m` changes nothing, wherever it stands:
/// the subject is tagged as it is without that word.
pub proof fn law_other_words_change_nothing(
    a: Seq<Seq<char>>,
    w: Seq<char>,
    b: Seq<Seq<char>>,
    title: Seq<char>,
)
    requires
        are_tag_words(a),
        is_tag_word(w),
        are_tag_words(b),
        states_nothing(w),
        some_says_patch(a + b),
    ensures
        patch_tag_of(tagged(a + seq![w] + b, title)) == patch_tag_of(tagged(a + b, title)),
        patch_tag_of(tagged(a + b, title)) is Some,
{
    let with = a + seq![w] + b;
    let without = a + b;
    assert forall|i: int| 0 <= i < with.len() implies is_tag_word(#[trigger] with[i]) by {
        if i < a.len() {
            assert(with[i] == a[i]);
        } else if i > a.len() {
            assert(with[i] == b[i - a.len() - 1]);
        }
    }
    assert forall|i: int| 0 <= i < without.len() implies is_tag_word(#[trigger] without[i]) by {
        if i < a.len() {
            assert(without[i] == a[i]);
        } else {
            assert(without[i] == b[i - a.len()]);
        }
    }
    let i = choose|i: int| 0 <= i < without.len() && says_patch(#[trigger] without[i]);
    assert(some_says_patch(with)) by {
        if i < a.len() {
            assert(with[i] == without[i]);
        } else {
            assert(with[i + 1] == without[i]);
        }
    }
    lemma_tagged(with, title);
    lemma_tagged(without, title);
    lemma_leave_out(a, w, b);
}

/// What a numbered word states.
proof fn lemma_stating_words(d: Seq<char>, e: Seq<char>)
    requires
        is_tag_number(d),
        is_tag_number(e),
    ensures
        word_version(seq!['v'] + d) == number::unsigned_value(d, u32::MAX as int),
        word_version(seq!['V'] + d) == number::unsigned_value(d, u32::MAX as int),
        word_version(d + seq!['/'] + e) is None,
        word_position(d + seq!['/'] + e) == Some(
            (
                number::unsigned_value(d, u32::MAX as int)->0,
                number::unsigned_value(e, u32::MAX as int)->0,
            ),
        ),
        0 <= number::unsigned_value(d, u32::MAX as int)->0 <= u32::MAX,
{
    assert((seq!['v'] + d).skip(1) =~= d);
    assert((seq!['V'] + d).skip(1) =~= d);
    let w = d + seq!['/'] + e;
    let n = d.len() as int;
    let digits = if d.len() > 1 && d[0] == '+' {
        d.drop_first()
    } else {
        d
    };
    number::lemma_digits_value_grows(digits, digits.len() as int);
    assert(digits.take(digits.len() as int) =~= digits);
    assert forall|j: int| 0 <= j < n implies d[j] != '/' && d[j] != 'v' && d[j] != 'V' by {
        if digits.len() == d.len() {
            assert(number::is_digit(digits[j]));
        } else if j > 0 {
            assert(number::is_digit(digits[j - 1]));
        }
    }
    assert(w[0] == d[0]);
    assert(w[n] == '/');
    assert forall|j: int| 0 <= j < n implies w[j] != '/' by {
        assert(w[j] == d[j]);
    }
    text::lemma_char_is_first(w, '/', n);
    assert(w.take(n) =~= d);
    assert(w.skip(n + 1) =~= e);
}

/// A word of the tag that is `vV` states the revision, and nothing else; one that is `n/m`
/// states position and length, and nothing else. What is stated last counts.
pub proof fn law_words_state_what_they_say(
    list: Seq<Seq<char>>,
    v: char,
    d: Seq<char>,
    e: Seq<char>,
    title: Seq<char>,
)
    requires
        are_tag_words(list),
        some_says_patch(list),
        v == 'v' || v == 'V',
        is_tag_number(d),
        is_tag_number(e),
    ensures
        ({
            let x = number::unsigned_value(d, u32::MAX as int)->0;
            let y = number::unsigned_value(e, u32::MAX as int)->0;
            let before = patch_tag_of(tagged(list, title));
            let revision = patch_tag_of(tagged(list.push(seq![v] + d), title));
            let position = patch_tag_of(tagged(list.push(d + seq!['/'] + e), title));
            &&& before is Some && revision is Some && position is Some
            &&& revision->0.version == x
            &&& revision->0.number == before->0.number
            &&& revision->0.total == before->0.total
            &&& position->0.version == before->0.version
            &&& position->0.number == x
            &&& position->0.total == y
        }),
{
    lemma_stating_words(d, e);
    lemma_stating_words(e, d);
    lemma_number_word(d);
    lemma_number_word(e);
    let r = seq![v] + d;
    let p = d + seq!['/'] + e;
    assert(is_tag_word(r)) by {
        assert forall|i: int| 0 <= i < r.len() implies !text::is_space(#[trigger] r[i]) && r[i]
            != ',' && r[i] != ']' by {
            if i > 0 {
                assert(r[i] == d[i - 1]);
            }
        }
    }
    assert(is_tag_word(p)) by {
        assert forall|i: int| 0 <= i < p.len() implies !text::is_space(#[trigger] p[i]) && p[i]
            != ',' && p[i] != ']' by {
            if i < d.len() {
                assert(p[i] == d[i]);
            } else if i > d.len() {
                assert(p[i] == e[i - d.len() - 1]);
            }
        }
    }
    let i = choose|i: int| 0 <= i < list.len() && says_patch(#[trigger] list[i]);
    assert(list.push(r)[i] == list[i]);
    assert(list.push(p)[i] == list[i]);
    lemma_tagged(list, title);
    lemma_tagged(list.push(r), title);
    lemma_tagged(list.push(p), title);
    assert(list.push(r).drop_last() =~= list);
    assert(list.push(p).drop_last() =~= list);
}

/// A number may stand in a word of a tag.
proof fn lemma_number_word(d: Seq<char>)
    requires
        is_tag_number(d),
    ensures
        is_tag_word(d),
{
    let digits = if d.len() > 1 && d[0] == '+' {
        d.drop_first()
    } else {
        d
    };
    assert forall|j: int| 0 <= j < d.len() implies !text::is_space(#[trigger] d[j]) && d[j] != ','
        && d[j] != ']' by {
        if digits.len() == d.len() {
            assert(number::is_digit(digits[j]));
        } else if j > 0 {
            assert(number::is_digit(digits[j - 1]));
        }
    }
}

/// A tag that holds one `vV` and one `n/m`, among any other words and in any order, has
/// that revision, position and length.
pub proof fn law_tag_has_its_revision_and_position(
    list: Seq<Seq<char>>,
    i: int,
    j: int,
    version: u32,
    number: u32,
    total: u32,
    title: Seq<char>,
)
    requires
        are_tag_words(list),
        some_says_patch(list),
        0 <= i < list.len(),
        0 <= j < list.len(),
        list[i] == seq!['v'] + number::decimal(version as nat),
        list[j] == number::decimal(number as nat) + seq!['/'] + number::decimal(total as nat),
        forall|k: int| 0 <= k < list.len() && k != i && k != j ==> states_nothing(#[trigger] list[k]),
    ensures
        patch_tag_of(tagged(list, title)) == Some(PatchTag { version, number, total }),
{
    lemma_tag_words(version, number, total);
    lemma_tagged(list, title);
    lemma_tag_so_far(list, i, j, version, number, total, list.len() as int);
    assert(list.take(list.len() as int) =~= list);
}

/// What the first words state.
proof fn lemma_tag_so_far(
    list: Seq<Seq<char>>,
    i: int,
    j: int,
    version: u32,
    number: u32,
    total: u32,
    k: int,
)
    requires
        0 <= k <= list.len(),
        0 <= i < list.len(),
        0 <= j < list.len(),
        list[i] == seq!['v'] + number::decimal(version as nat),
        list[j] == number::decimal(number as nat) + seq!['/'] + number::decimal(total as nat),
        forall|x: int| 0 <= x < list.len() && x != i && x != j ==> states_nothing(#[trigger] list[x]),
    ensures
        tag_of_words(list.take(k)) == (PatchTag {
            version: if i < k {
                version
            } else {
                1
            },
            number: if j < k {
                number
            } else {
                1
            },
            total: if j < k {
                total
            } else {
                1
            },
        }),
    decreases k,
{
    lemma_tag_words(version, number, total);
    if k > 0 {
        lemma_tag_so_far(list, i, j, version, number, total, k - 1);
        assert(list.take(k).drop_last() =~= list.take(k - 1));
        assert(list.take(k).last() == list[k - 1]);
        if k - 1 != i && k - 1 != j {
            assert(states_nothing(list[k - 1]));
            lemma_states_nothing(list[k - 1]);
        }
    }
}

/// A comma parts the words of a tag as a space does.
pub proof fn law_commas_part_words(g: Seq<char>, h: Seq<char>, title: Seq<char>)
    requires
        g.len() == h.len(),
        forall|i: int|
            0 <= i < g.len() ==> #[trigger] g[i] != ']' && (g[i] == h[i] || (g[i] == ',' && h[i]
                == ' ')),
    ensures
        patch_tag_of(seq!['['] + g + seq![']'] + title) == patch_tag_of(
            seq!['['] + h + seq![']'] + title,
        ),
{
    let tail = text::trimmed_end(title);
    assert forall|i: int| 0 <= i < h.len() implies #[trigger] h[i] != ']' by {
        assert(g[i] != ']');
    }
    lemma_trimmed_group(g, title);
    lemma_trimmed_group(h, title);
    lemma_first_group(g, tail);
    lemma_first_group(h, tail);
    lemma_says_patch(g);
    lemma_says_patch(h);
    let word = seq!['P', 'A', 'T', 'C', 'H'];
    if says_patch(g) {
        let i = choose|i: int|
            0 <= i && i + 5 <= g.len() && text::ascii_uppered(#[trigger] g.subrange(i, i + 5))
                == word;
        assert forall|j: int| 0 <= j < 5 implies #[trigger] g.subrange(i, i + 5)[j] == h.subrange(
            i,
            i + 5,
        )[j] by {
            assert(text::ascii_uppered(g.subrange(i, i + 5))[j] == word[j]);
            assert(g.subrange(i, i + 5)[j] == g[i + j]);
        }
        assert(h.subrange(i, i + 5) =~= g.subrange(i, i + 5));
    }
    if says_patch(h) {
        let i = choose|i: int|
            0 <= i && i + 5 <= h.len() && text::ascii_uppered(#[trigger] h.subrange(i, i + 5))
                == word;
        assert forall|j: int| 0 <= j < 5 implies #[trigger] g.subrange(i, i + 5)[j] == h.subrange(
            i,
            i + 5,
        )[j] by {
            assert(text::ascii_uppered(h.subrange(i, i + 5))[j] == word[j]);
            assert(h.subrange(i, i + 5)[j] == h[i + j]);
            assert(g[i + j] != ']');
        }
        assert(g.subrange(i, i + 5) =~= h.subrange(i, i + 5));
    }
    assert(commas_to_spaces(g) =~= commas_to_spaces(h));
}

/// Groups in square brackets that tag no patch may stand before the tag, with white space
/// between or not: the subject is tagged as it is without them.
pub proof fn law_other_groups_change_nothing(group: Seq<char>, subject: Seq<char>)
    requires
        forall|i: int| 0 <= i < group.len() ==> #[trigger] group[i] != ']',
        !says_patch(group),
    ensures
        patch_tag_of(seq!['['] + group + seq![']'] + subject) == patch_tag_of(subject),
{
    let tail = text::trimmed_end(subject);
    lemma_trimmed_group(group, subject);
    lemma_first_group(group, tail);
    lemma_says_patch(group);
    text::lemma_trim_either_way(subject);
    let s = text::trimmed(subject);
    if is_reply(s) {
        let lower = text::ascii_lowered(s);
        assert(lower.subrange(0, 3)[0] == lower[0]);
        assert(s[0] != '[');
    }
}

/// A subject that opens with no square bracket, or does not close it, or is that of a
/// reply, in upper or lower case, is not tagged.
pub proof fn law_other_subjects_are_not_tagged(subject: Seq<char>)
    requires
        ({
            let s = text::trimmed(subject);
            ||| s.len() == 0
            ||| s[0] != '['
            ||| !subject.contains(']')
            ||| s.len() >= 3 && text::ascii_lowered(s.take(3)) == seq!['r', 'e', ':']
        }),
    ensures
        patch_tag_of(subject) is None,
{
    let s = text::trimmed(subject);
    let k = text::law_trim_takes_all_surrounding_space(subject);
    if s.len() > 0 && s[0] == '[' {
        let inner = s.skip(1);
        if s.len() >= 3 && text::ascii_lowered(s.take(3)) == seq!['r', 'e', ':'] {
            assert(text::ascii_lowered(s.take(3))[0] == text::ascii_lower(s[0]));
        }
        text::lemma_find_char(inner, ']');
        if let Some(i) = text::find_char_in(inner, ']') {
            assert(s[i + 1] == ']');
            assert(subject[k + i + 1] == ']');
        }
    }
}

} // verus!
