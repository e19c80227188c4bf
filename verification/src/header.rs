//! The headers of a mail: where they end, what each one says, and what the
//! sender and subject lines hold.

use crate::text;
use crate::unicode;
use vstd::prelude::*;
use vstd::slice::slice_subrange;
use vstd::string::*;

verus! {

// Splitting a mail

/// A blank line in CRLF text: two line ends in a row.
pub open spec fn crlf_blank() -> Seq<char> {
    seq!['\r', '\n', '\r', '\n']
}

/// A blank line in LF text: two line ends in a row.
pub open spec fn lf_blank() -> Seq<char> {
    seq!['\n', '\n']
}

/// The first blank line of a mail: the index of its line ends, and how many
/// characters they are.
pub open spec fn blank_line(raw: Seq<char>) -> Option<(int, int)> {
    match (text::find_in(raw, crlf_blank()), text::find_in(raw, lf_blank())) {
        (Some(i), Some(j)) => if i < j {
            Some((i, 4))
        } else {
            Some((j, 2))
        },
        (Some(i), None) => Some((i, 4)),
        (None, Some(j)) => Some((j, 2)),
        (None, None) => None,
    }
}

/// The headers of a mail: what stands before its first blank line.
pub open spec fn headers_of(raw: Seq<char>) -> Seq<char> {
    match blank_line(raw) {
        Some((i, n)) => raw.take(i),
        None => raw,
    }
}

/// The body of a mail: what stands after its first blank line.
pub open spec fn body_of(raw: Seq<char>) -> Seq<char> {
    match blank_line(raw) {
        Some((i, n)) => raw.skip(i + n),
        None => seq![],
    }
}

/// Split a raw mail into headers and body at the first blank line. A mail with no
/// blank line is all headers and has an empty body.
pub fn split_headers(raw: &str) -> (r: (&str, &str))
    ensures
        r.0@ == headers_of(raw@),
        r.1@ == body_of(raw@),
{
    let chars = text::chars_of(raw);
    let crlf: Vec<char> = vec!['\r', '\n', '\r', '\n'];
    let lf: Vec<char> = vec!['\n', '\n'];
    assert(crlf@ =~= crlf_blank());
    assert(lf@ =~= lf_blank());
    let n: usize = chars.len();
    let at_crlf: Option<usize> = text::find(chars.as_slice(), crlf.as_slice());
    let at_lf: Option<usize> = text::find(chars.as_slice(), lf.as_slice());
    let (i, len): (usize, usize) = match (at_crlf, at_lf) {
        (Some(i), Some(j)) => if i < j {
            (i, 4)
        } else {
            (j, 2)
        },
        (Some(i), None) => (i, 4),
        (None, Some(j)) => (j, 2),
        (None, None) => {
            let whole = raw.substring_char(0, n);
            let empty = raw.substring_char(n, n);
            assert(whole@ =~= raw@);
            assert(empty@ =~= Seq::<char>::empty());
            return (whole, empty);
        },
    };
    let headers = raw.substring_char(0, i);
    let body = raw.substring_char(i + len, n);
    assert(headers@ =~= raw@.take(i as int));
    assert(body@ =~= raw@.skip(i + len));
    (headers, body)
}

// Reading a header

/// Splitting a mail loses nothing but the blank line that parts it, and the headers
/// hold no blank line.
pub proof fn law_split_loses_only_the_blank_line(raw: Seq<char>)
    ensures
        match blank_line(raw) {
            Some((i, n)) => {
                &&& 0 <= i && i + n <= raw.len()
                &&& raw.subrange(i, i + n) == crlf_blank() || raw.subrange(i, i + n) == lf_blank()
                &&& raw == headers_of(raw) + raw.subrange(i, i + n) + body_of(raw)
            },
            None => raw == headers_of(raw) + body_of(raw),
        },
        blank_line(headers_of(raw)) is None,
{
    let crlf = crlf_blank();
    let lf = lf_blank();
    text::lemma_first_match(raw, crlf, 0);
    text::lemma_first_match(raw, lf, 0);
    let h = headers_of(raw);
    match blank_line(raw) {
        Some((i, n)) => {
            assert(raw =~= h + raw.subrange(i, i + n) + body_of(raw));
            assert forall|j: int| 0 <= j implies !#[trigger] text::occurs_at(h, crlf, j) by {
                if text::occurs_at(h, crlf, j) {
                    assert(h.subrange(j, j + 4) =~= raw.subrange(j, j + 4));
                    assert(text::occurs_at(raw, crlf, j));
                }
            }
            assert forall|j: int| 0 <= j implies !#[trigger] text::occurs_at(h, lf, j) by {
                if text::occurs_at(h, lf, j) {
                    assert(h.subrange(j, j + 2) =~= raw.subrange(j, j + 2));
                    assert(text::occurs_at(raw, lf, j));
                }
            }
            text::lemma_no_match(h, crlf, 0);
            text::lemma_no_match(h, lf, 0);
        },
        None => {
            assert(raw =~= h + body_of(raw));
        },
    }
}

/// A line that continues the header before it.
pub open spec fn is_continuation(line: Seq<char>) -> bool {
    line.len() > 0 && (line[0] == ' ' || line[0] == '\t')
}

/// The line states the header whose lower-case name is `target`.
pub open spec fn states_header(line: Seq<char>, target: Seq<char>) -> bool {
    match text::find_char_in(line, ':') {
        Some(i) => unicode::lowercase(line.take(i)) == target,
        None => false,
    }
}

/// `value` followed by the continuation lines at the front of `lines`, each
/// trimmed and after a space.
pub open spec fn unfolded(value: Seq<char>, lines: Seq<Seq<char>>) -> Seq<char>
    decreases lines.len(),
{
    if lines.len() > 0 && is_continuation(lines[0]) {
        unfolded(value + seq![' '] + text::trimmed(lines[0]), lines.drop_first())
    } else {
        value
    }
}

/// The value of the first header among `lines` whose lower-case name is `target`.
pub open spec fn header_in(lines: Seq<Seq<char>>, target: Seq<char>) -> Option<Seq<char>>
    decreases lines.len(),
{
    if lines.len() == 0 {
        None
    } else if states_header(lines[0], target) {
        let colon = text::find_char_in(lines[0], ':').unwrap();
        Some(unfolded(text::trimmed(lines[0].skip(colon + 1)), lines.drop_first()))
    } else {
        header_in(lines.drop_first(), target)
    }
}

/// The value of the header `name`.
pub open spec fn header_value(headers: Seq<char>, name: Seq<char>) -> Option<Seq<char>> {
    header_in(text::lines_of(headers), unicode::lowercase(name))
}

/// The value of the header `name`, or nothing where it is missing.
pub open spec fn header_or_empty(headers: Seq<char>, name: Seq<char>) -> Seq<char> {
    match header_value(headers, name) {
        Some(v) => v,
        None => seq![],
    }
}

/// Headers are looked up without regard to the case of their names.
pub proof fn law_header_names_ignore_case(headers: Seq<char>, a: Seq<char>, b: Seq<char>)
    requires
        vstd::utf8::is_ascii_chars(a),
        vstd::utf8::is_ascii_chars(b),
        text::ascii_lowered(a) == text::ascii_lowered(b),
    ensures
        header_value(headers, a) == header_value(headers, b),
{
}

/// The index of the colon where the line states the header `target`.
fn header_colon(line: &[char], target: &[char]) -> (r: Option<usize>)
    ensures
        match r {
            Some(i) => {
                &&& states_header(line@, target@)
                &&& text::find_char_in(line@, ':') == Some(i as int)
                &&& i < line@.len()
            },
            None => !states_header(line@, target@),
        },
{
    let i: usize = match text::find_char(line, ':') {
        Some(i) => i,
        None => return None,
    };
    let name = text::string_of(slice_subrange(line, 0, i));
    assert(name@ =~= line@.take(i as int));
    let lower = text::chars_of(unicode::to_lowercase(name.as_str()).as_str());
    if text::same(lower.as_slice(), target) {
        Some(i)
    } else {
        None
    }
}

/// Read a single header value, unfolding RFC 5322 continuation lines. The lookup
/// ignores case; the value is still MIME-encoded.
pub fn parse_header(headers: &str, name: &str) -> (r: Option<String>)
    ensures
        match r {
            Some(v) => header_value(headers@, name@) == Some(v@),
            None => header_value(headers@, name@) is None,
        },
{
    let target = text::chars_of(unicode::to_lowercase(name).as_str());
    let chars = text::chars_of(headers);
    let lines = text::lines(chars.as_slice());
    let ghost all = text::lines_of(headers@);
    let n: usize = lines.len();
    let mut i: usize = 0;
    assert(all.skip(0) =~= all);
    while i < n
        invariant
            n == lines@.len(),
            i <= n,
            text::rows(lines@) == all,
            target@ == unicode::lowercase(name@),
            all == text::lines_of(headers@),
            header_value(headers@, name@) == header_in(all.skip(i as int), target@),
        decreases n - i,
    {
        let line: &[char] = lines[i].as_slice();
        assert(all.skip(i as int)[0] == line@);
        assert(all.skip(i as int).drop_first() =~= all.skip(i + 1));
        i = i + 1;
        if let Some(colon) = header_colon(line, target.as_slice()) {
            let first = text::trim(slice_subrange(line, colon + 1, line.len()));
            assert(line@.subrange(colon + 1, line@.len() as int) =~= line@.skip(colon + 1));
            let mut value = text::string_of(first);
            let ghost whole = unfolded(value@, all.skip(i as int));
            let mut more: bool = true;
            while more && i < n
                invariant
                    n == lines@.len(),
                    i <= n,
                    text::rows(lines@) == all,
                    more ==> unfolded(value@, all.skip(i as int)) == whole,
                    !more ==> value@ == whole,
                decreases n - i, more as int,
            {
                let next: &[char] = lines[i].as_slice();
                assert(all.skip(i as int)[0] == next@);
                assert(all.skip(i as int).drop_first() =~= all.skip(i + 1));
                if next.len() > 0 && (next[0] == ' ' || next[0] == '\t') {
                    let ghost before = value@;
                    value.push(' ');
                    value.push_str(text::string_of(text::trim(next)).as_str());
                    assert(value@ =~= before + seq![' '] + text::trimmed(next@));
                    i = i + 1;
                } else {
                    more = false;
                }
            }
            return Some(value);
        }
    }
    None
}

// What was written is read back

/// A header as it is written: its name, what follows the colon on the first line, and the
/// lines that continue it.
pub struct Field {
    pub name: Seq<char>,
    pub first: Seq<char>,
    pub more: Seq<Seq<char>>,
}

/// A header in the form that mail has: the name is ASCII without a colon and does not open
/// with white space, each line that continues it opens with a space or a tab. (A line that
/// continues it may hold anything but a colon after characters beyond ASCII.)
pub open spec fn is_field(f: Field) -> bool {
    &&& f.name.len() > 0 && f.name[0] != ' ' && f.name[0] != '\t'
    &&& vstd::utf8::is_ascii_chars(f.name)
    &&& text::is_one_line(f.name)
    &&& forall|i: int| 0 <= i < f.name.len() ==> #[trigger] f.name[i] != ':'
    &&& text::is_one_line(f.first)
    &&& forall|i: int|
        0 <= i < f.more.len() ==> (#[trigger] f.more[i]).len() > 0 && (f.more[i][0] == ' '
            || f.more[i][0] == '\t') && text::is_one_line(f.more[i]) && (
        vstd::utf8::is_ascii_chars(f.more[i]) || lacks(f.more[i], ':'))
}

/// The lines that a header is written on.
pub open spec fn field_lines(f: Field) -> Seq<Seq<char>> {
    seq![f.name + seq![':'] + f.first] + f.more
}

/// The lines that headers are written on.
pub open spec fn fields_lines(fields: Seq<Field>) -> Seq<Seq<char>>
    decreases fields.len(),
{
    if fields.len() == 0 {
        seq![]
    } else {
        field_lines(fields[0]) + fields_lines(fields.drop_first())
    }
}

/// What a header says: its lines, each trimmed, with one space between each two.
pub open spec fn said(f: Field) -> Seq<char> {
    text::spaced(
        seq![text::trimmed(f.first)] + f.more.map_values(|line: Seq<char>| text::trimmed(line)),
    )
}

/// What the first header says that has the name, in upper or lower case.
pub open spec fn stated(fields: Seq<Field>, name: Seq<char>) -> Option<Seq<char>>
    decreases fields.len(),
{
    if fields.len() == 0 {
        None
    } else if text::ascii_lowered(fields[0].name) == text::ascii_lowered(name) {
        Some(said(fields[0]))
    } else {
        stated(fields.drop_first(), name)
    }
}

/// The lines that continue a header are all taken, and nothing after them.
proof fn lemma_unfolded(parts: Seq<Seq<char>>, more: Seq<Seq<char>>, rest: Seq<Seq<char>>)
    requires
        parts.len() > 0,
        forall|i: int| 0 <= i < more.len() ==> is_continuation(#[trigger] more[i]),
        rest.len() > 0 ==> !is_continuation(rest[0]),
    ensures
        unfolded(text::spaced(parts), more + rest) == text::spaced(
            parts + more.map_values(|line: Seq<char>| text::trimmed(line)),
        ),
    decreases more.len(),
{
    let trims = more.map_values(|line: Seq<char>| text::trimmed(line));
    let lines = more + rest;
    if more.len() == 0 {
        assert(lines =~= rest);
        assert(parts + trims =~= parts);
    } else {
        let later = more.drop_first();
        let next = parts.push(text::trimmed(more[0]));
        assert(is_continuation(more[0]));
        assert forall|i: int| 0 <= i < later.len() implies is_continuation(#[trigger] later[i]) by {
            assert(later[i] == more[i + 1]);
        }
        text::lemma_spaced_push(parts, text::trimmed(more[0]));
        lemma_unfolded(next, later, rest);
        assert(lines[0] == more[0]);
        assert(lines.drop_first() =~= later + rest);
        assert(next + later.map_values(|line: Seq<char>| text::trimmed(line)) =~= parts + trims);
    }
}

/// Lines that continue a header state none.
proof fn lemma_skip_continuations(more: Seq<Seq<char>>, rest: Seq<Seq<char>>, name: Seq<char>)
    requires
        forall|i: int|
            0 <= i < more.len() ==> (#[trigger] more[i]).len() > 0 && (more[i][0] == ' '
                || more[i][0] == '\t') && (vstd::utf8::is_ascii_chars(more[i]) || lacks(
                more[i],
                ':',
            )),
        name.len() > 0 && name[0] != ' ' && name[0] != '\t',
        vstd::utf8::is_ascii_chars(name),
    ensures
        header_in(more + rest, unicode::lowercase(name)) == header_in(
            rest,
            unicode::lowercase(name),
        ),
    decreases more.len(),
{
    let lines = more + rest;
    if more.len() == 0 {
        assert(lines =~= rest);
    } else {
        let line = more[0];
        let later = more.drop_first();
        assert(lines[0] == line);
        assert(lines.drop_first() =~= later + rest);
        assert forall|i: int| 0 <= i < later.len() implies (#[trigger] later[i]).len() > 0 && (
        later[i][0] == ' ' || later[i][0] == '\t') && (vstd::utf8::is_ascii_chars(later[i])
            || lacks(later[i], ':')) by {
            assert(later[i] == more[i + 1]);
        }
        assert(!states_header(line, unicode::lowercase(name))) by {
            text::lemma_find_char(line, ':');
            if let Some(i) = text::find_char_in(line, ':') {
                let front = line.take(i);
                assert(front.len() > 0);
                assert(vstd::utf8::is_ascii_chars(front)) by {
                    assert forall|j: int| 0 <= j < front.len() implies '\0' <= #[trigger] front[j]
                        <= '\u{7f}' by {
                        assert(front[j] == line[j]);
                    }
                }
                assert(unicode::lowercase(front)[0] == text::ascii_lower(line[0]));
                assert(unicode::lowercase(name)[0] == text::ascii_lower(name[0]));
            }
        }
        lemma_skip_continuations(later, rest, name);
    }
}

/// The headers that are written on the lines are found on them.
proof fn lemma_fields_found(fields: Seq<Field>, name: Seq<char>)
    requires
        forall|i: int| 0 <= i < fields.len() ==> is_field(#[trigger] fields[i]),
        name.len() > 0 && name[0] != ' ' && name[0] != '\t',
        vstd::utf8::is_ascii_chars(name),
    ensures
        header_in(fields_lines(fields), unicode::lowercase(name)) == stated(fields, name),
        fields.len() > 0 ==> fields_lines(fields).len() > 0 && !is_continuation(
            fields_lines(fields)[0],
        ),
    decreases fields.len(),
{
    if fields.len() > 0 {
        let f = fields[0];
        let later = fields.drop_first();
        assert(is_field(f));
        assert forall|i: int| 0 <= i < later.len() implies is_field(#[trigger] later[i]) by {
            assert(later[i] == fields[i + 1]);
        }
        lemma_fields_found(later, name);
        let rest = fields_lines(later);
        let lines = fields_lines(fields);
        let line = f.name + seq![':'] + f.first;
        let n = f.name.len() as int;
        assert(lines[0] == line);
        assert(lines.drop_first() =~= f.more + rest);
        assert(line[0] == f.name[0]);
        assert(line[n] == ':');
        assert forall|j: int| 0 <= j < n implies line[j] != ':' by {
            assert(line[j] == f.name[j]);
        }
        text::lemma_char_is_first(line, ':', n);
        assert(line.take(n) =~= f.name);
        assert(line.skip(n + 1) =~= f.first);
        if text::ascii_lowered(f.name) == text::ascii_lowered(name) {
            let parts = seq![text::trimmed(f.first)];
            assert forall|i: int| 0 <= i < f.more.len() implies is_continuation(
                #[trigger] f.more[i],
            ) by {}
            lemma_unfolded(parts, f.more, rest);
        } else {
            lemma_skip_continuations(f.more, rest, name);
        }
    }
}

/// The lines of headers are lines, and none of them is empty.
proof fn lemma_fields_are_lines(fields: Seq<Field>)
    requires
        forall|i: int| 0 <= i < fields.len() ==> is_field(#[trigger] fields[i]),
    ensures
        forall|i: int|
            0 <= i < fields_lines(fields).len() ==> text::is_one_line(
                #[trigger] fields_lines(fields)[i],
            ) && fields_lines(fields)[i].len() > 0,
        fields.len() > 0 ==> fields_lines(fields).len() > 0,
    decreases fields.len(),
{
    if fields.len() > 0 {
        let f = fields[0];
        let later = fields.drop_first();
        assert(is_field(f));
        assert forall|i: int| 0 <= i < later.len() implies is_field(#[trigger] later[i]) by {
            assert(later[i] == fields[i + 1]);
        }
        lemma_fields_are_lines(later);
        let lines = fields_lines(fields);
        assert forall|i: int| 0 <= i < lines.len() implies text::is_one_line(#[trigger] lines[i])
            && lines[i].len() > 0 by {
            if i == 0 {
                let line = f.name + seq![':'] + f.first;
                assert(lines[0] == line);
                assert forall|j: int| 0 <= j < line.len() implies #[trigger] line[j] != '\n'
                    && line[j] != '\r' by {
                    if j < f.name.len() {
                        assert(line[j] == f.name[j]);
                    } else if j > f.name.len() {
                        assert(line[j] == f.first[j - f.name.len() - 1]);
                    }
                }
            } else if i <= f.more.len() {
                assert(lines[i] == f.more[i - 1]);
            } else {
                assert(lines[i] == fields_lines(later)[i - 1 - f.more.len()]);
            }
        }
    }
}

/// Headers that are written are read back: the first with the name is found, in upper or
/// lower case, and says what stands on its lines. Folding makes no difference: whichever
/// way a header is cut into lines, each trimmed line follows the one before after a single
/// space, whatever the lines hold.
pub proof fn law_headers_read_back(fields: Seq<Field>, crlf: bool, name: Seq<char>)
    requires
        forall|i: int| 0 <= i < fields.len() ==> is_field(#[trigger] fields[i]),
        name.len() > 0 && name[0] != ' ' && name[0] != '\t',
        vstd::utf8::is_ascii_chars(name),
    ensures
        header_value(text::written_lines(fields_lines(fields), crlf), name) == stated(fields, name),
        fields.len() > 0 ==> header_value(
            text::written_lines(fields_lines(fields).drop_last(), crlf) + fields_lines(
                fields,
            ).last(),
            name,
        ) == stated(fields, name),
{
    lemma_fields_are_lines(fields);
    text::law_lines_read_back(fields_lines(fields), crlf);
    lemma_fields_found(fields, name);
}

/// Lines that state other headers, or none, do not hide a header behind them.
pub proof fn law_other_lines_hide_no_header(
    before: Seq<Field>,
    line: Seq<char>,
    rest: Seq<char>,
    crlf: bool,
    name: Seq<char>,
)
    requires
        forall|i: int| 0 <= i < before.len() ==> is_field(#[trigger] before[i]),
        forall|i: int|
            0 <= i < before.len() ==> text::ascii_lowered(#[trigger] before[i].name)
                != text::ascii_lowered(name),
        text::is_one_line(line),
        lacks(line, ':'),
        name.len() > 0 && name[0] != ' ' && name[0] != '\t',
        vstd::utf8::is_ascii_chars(name),
    ensures
        header_value(
            text::written_lines(fields_lines(before) + seq![line], crlf) + rest,
            name,
        ) == header_value(rest, name),
{
    let lines = fields_lines(before) + seq![line];
    lemma_fields_are_lines(before);
    assert forall|i: int| 0 <= i < lines.len() implies text::is_one_line(#[trigger] lines[i]) by {
        if i < fields_lines(before).len() {
            assert(lines[i] == fields_lines(before)[i]);
        }
    }
    text::lemma_lines_before(lines, crlf, rest);
    let after = seq![line] + text::lines_of(rest);
    assert(lines + text::lines_of(rest) =~= fields_lines(before) + after);
    lemma_pass_fields(before, after, name);
    text::lemma_find_char(line, ':');
    assert(after.drop_first() =~= text::lines_of(rest));
}

/// Headers of other names are passed over.
proof fn lemma_pass_fields(before: Seq<Field>, rest: Seq<Seq<char>>, name: Seq<char>)
    requires
        forall|i: int| 0 <= i < before.len() ==> is_field(#[trigger] before[i]),
        forall|i: int|
            0 <= i < before.len() ==> text::ascii_lowered(#[trigger] before[i].name)
                != text::ascii_lowered(name),
        name.len() > 0 && name[0] != ' ' && name[0] != '\t',
        vstd::utf8::is_ascii_chars(name),
    ensures
        header_in(fields_lines(before) + rest, unicode::lowercase(name)) == header_in(
            rest,
            unicode::lowercase(name),
        ),
    decreases before.len(),
{
    if before.len() == 0 {
        assert(fields_lines(before) + rest =~= rest);
    } else {
        let f = before[0];
        let later = before.drop_first();
        assert(is_field(f));
        assert(text::ascii_lowered(before[0].name) != text::ascii_lowered(name));
        assert forall|i: int| 0 <= i < later.len() implies is_field(#[trigger] later[i]) by {
            assert(later[i] == before[i + 1]);
        }
        assert forall|i: int| 0 <= i < later.len() implies text::ascii_lowered(
            #[trigger] later[i].name,
        ) != text::ascii_lowered(name) by {
            assert(later[i] == before[i + 1]);
        }
        lemma_pass_fields(later, rest, name);
        let tail = fields_lines(later) + rest;
        let all = fields_lines(before) + rest;
        let line = f.name + seq![':'] + f.first;
        let n = f.name.len() as int;
        assert(all =~= seq![line] + (f.more + tail));
        assert(all.drop_first() =~= f.more + tail);
        assert(line[n] == ':');
        assert forall|j: int| 0 <= j < n implies line[j] != ':' by {
            assert(line[j] == f.name[j]);
        }
        text::lemma_char_is_first(line, ':', n);
        assert(line.take(n) =~= f.name);
        lemma_skip_continuations(f.more, tail, name);
    }
}

/// A header that is folded over two lines has the value of the one on a single line with
/// one space between the trimmed parts.
pub proof fn law_folding_makes_no_difference(
    before: Seq<Field>,
    name: Seq<char>,
    a: Seq<char>,
    fold: char,
    b: Seq<char>,
    after: Seq<Field>,
    crlf: bool,
)
    requires
        forall|i: int| 0 <= i < before.len() ==> is_field(#[trigger] before[i]),
        forall|i: int| 0 <= i < after.len() ==> is_field(#[trigger] after[i]),
        is_field(Field { name, first: a, more: seq![seq![fold] + b] }),
        forall|i: int|
            0 <= i < before.len() ==> text::ascii_lowered(#[trigger] before[i].name)
                != text::ascii_lowered(name),
    ensures
        ({
            let folded = before + seq![Field { name, first: a, more: seq![seq![fold] + b] }]
                + after;
            let flat = before + seq![
                Field {
                    name,
                    first: text::trimmed(a) + seq![' '] + text::trimmed(b),
                    more: seq![],
                },
            ] + after;
            text::trimmed(a).len() > 0 && text::trimmed(b).len() > 0 ==> header_value(
                text::written_lines(fields_lines(folded), crlf),
                name,
            ) == Some(text::trimmed(a) + seq![' '] + text::trimmed(b)) && header_value(
                text::written_lines(fields_lines(flat), crlf),
                name,
            ) == Some(text::trimmed(a) + seq![' '] + text::trimmed(b))
        }),
{
    let f = Field { name, first: a, more: seq![seq![fold] + b] };
    let ta = text::trimmed(a);
    let tb = text::trimmed(b);
    let joint = ta + seq![' '] + tb;
    let g = Field { name, first: joint, more: seq![] };
    let folded = before + seq![f] + after;
    let flat = before + seq![g] + after;
    if ta.len() > 0 && tb.len() > 0 {
        let none = Seq::<char>::empty();
        assert(f.more[0] == seq![fold] + b);
        assert((seq![fold] + b)[0] == fold);
        assert(seq![fold] + b =~= seq![fold] + b + none);
        text::law_trim_ignores_surrounding_space(seq![fold], b, none);
        let ka = text::law_trim_takes_all_surrounding_space(a);
        let kb = text::law_trim_takes_all_surrounding_space(b);
        assert(text::is_one_line(joint)) by {
            assert forall|j: int| 0 <= j < joint.len() implies #[trigger] joint[j] != '\n'
                && joint[j] != '\r' by {
                if j < ta.len() {
                    assert(joint[j] == a[ka + j]);
                } else if j > ta.len() {
                    assert(joint[j] == tb[j - ta.len() - 1]);
                    assert(tb[j - ta.len() - 1] == b[kb + j - ta.len() - 1]);
                    assert((seq![fold] + b)[kb + j - ta.len()] == b[kb + j - ta.len() - 1]);
                }
            }
        }
        assert(joint.last() == tb.last());
        assert(joint[0] == ta[0]);
        text::lemma_already_trimmed(joint);
        lemma_said_two(f, ta, tb);
        assert(said(g) == joint) by {
            let trims = g.more.map_values(|line: Seq<char>| text::trimmed(line));
            assert(seq![joint] + trims =~= seq![joint]);
        }
        assert forall|i: int| 0 <= i < folded.len() implies is_field(#[trigger] folded[i]) by {
            if i < before.len() {
                assert(folded[i] == before[i]);
            } else if i > before.len() {
                assert(folded[i] == after[i - before.len() - 1]);
            }
        }
        assert forall|i: int| 0 <= i < flat.len() implies is_field(#[trigger] flat[i]) by {
            if i < before.len() {
                assert(flat[i] == before[i]);
            } else if i > before.len() {
                assert(flat[i] == after[i - before.len() - 1]);
            }
        }
        law_headers_read_back(folded, crlf, name);
        law_headers_read_back(flat, crlf, name);
        lemma_stated_after(before, f, after, name);
        lemma_stated_after(before, g, after, name);
    }
}

/// What a header on two lines says.
proof fn lemma_said_two(f: Field, a: Seq<char>, b: Seq<char>)
    requires
        f.more.len() == 1,
        text::trimmed(f.first) == a,
        text::trimmed(f.more[0]) == b,
    ensures
        said(f) == a + seq![' '] + b,
{
    let parts = seq![text::trimmed(f.first)] + f.more.map_values(
        |line: Seq<char>| text::trimmed(line),
    );
    assert(parts =~= seq![a].push(b));
    text::lemma_spaced_push(seq![a], b);
}

/// Headers of other names before a header do not hide it.
pub proof fn lemma_stated_after(before: Seq<Field>, f: Field, after: Seq<Field>, name: Seq<char>)
    requires
        forall|i: int|
            0 <= i < before.len() ==> text::ascii_lowered(#[trigger] before[i].name)
                != text::ascii_lowered(name),
        f.name == name,
    ensures
        stated(before + seq![f] + after, name) == Some(said(f)),
    decreases before.len(),
{
    let all = before + seq![f] + after;
    if before.len() == 0 {
        assert(all[0] == f);
    } else {
        let later = before.drop_first();
        assert forall|i: int| 0 <= i < later.len() implies text::ascii_lowered(
            #[trigger] later[i].name,
        ) != text::ascii_lowered(name) by {
            assert(later[i] == before[i + 1]);
        }
        lemma_stated_after(later, f, after, name);
        assert(all[0] == before[0]);
        assert(text::ascii_lowered(before[0].name) != text::ascii_lowered(name));
        assert(all.drop_first() =~= later + seq![f] + after);
    }
}

/// The words of the lines, one line after the other.
pub open spec fn words_of_lines(lines: Seq<Seq<char>>) -> Seq<Seq<char>>
    decreases lines.len(),
{
    if lines.len() == 0 {
        seq![]
    } else {
        words_of_lines(lines.drop_last()) + text::words(lines.last())
    }
}

/// The words of a folded header are the words of its lines, one after the other: none is
/// lost, and none run together.
pub proof fn law_folded_words_stay_apart(f: Field)
    ensures
        text::words(said(f)) == text::words(f.first) + words_of_lines(f.more),
    decreases f.more.len(),
{
    let parts = seq![text::trimmed(f.first)] + f.more.map_values(
        |line: Seq<char>| text::trimmed(line),
    );
    lemma_trimmed_words(f.first);
    if f.more.len() == 0 {
        assert(parts =~= seq![text::trimmed(f.first)]);
        assert(text::words(f.first) + words_of_lines(f.more) =~= text::words(f.first));
    } else {
        let g = Field { name: f.name, first: f.first, more: f.more.drop_last() };
        let last = f.more.last();
        law_folded_words_stay_apart(g);
        let fewer = seq![text::trimmed(g.first)] + g.more.map_values(
            |line: Seq<char>| text::trimmed(line),
        );
        assert(parts =~= fewer.push(text::trimmed(last)));
        text::lemma_spaced_push(fewer, text::trimmed(last));
        text::law_white_space_parts_words(said(g), ' ', text::trimmed(last));
        lemma_trimmed_words(last);
        assert(text::words(f.first) + words_of_lines(g.more) + text::words(last)
            =~= text::words(f.first) + (words_of_lines(g.more) + text::words(last)));
    }
}

/// Trimming takes no words.
proof fn lemma_trimmed_words(s: Seq<char>)
    ensures
        text::words(text::trimmed(s)) == text::words(s),
{
    let k = text::law_trim_takes_all_surrounding_space(s);
    let t = text::trimmed(s);
    let front = s.take(k);
    let back = s.skip(k + t.len());
    assert(s =~= front + t + back);
    lemma_space_has_no_words(front, t + back);
    assert(front + (t + back) =~= s);
    lemma_space_after_words(t, back);
}

/// White space before words makes none.
proof fn lemma_space_has_no_words(space: Seq<char>, s: Seq<char>)
    requires
        forall|i: int| 0 <= i < space.len() ==> text::is_space(#[trigger] space[i]),
    ensures
        text::words(space + s) == text::words(s),
    decreases space.len(),
{
    if space.len() == 0 {
        assert(space + s =~= s);
    } else {
        let rest = space.drop_first();
        assert forall|i: int| 0 <= i < rest.len() implies text::is_space(#[trigger] rest[i]) by {
            assert(rest[i] == space[i + 1]);
        }
        lemma_space_has_no_words(rest, s);
        assert((space + s)[0] == space[0]);
        assert((space + s).drop_first() =~= rest + s);
    }
}

/// White space after words makes none.
proof fn lemma_space_after_words(s: Seq<char>, space: Seq<char>)
    requires
        forall|i: int| 0 <= i < space.len() ==> text::is_space(#[trigger] space[i]),
    ensures
        text::words(s + space) == text::words(s),
{
    if space.len() == 0 {
        assert(s + space =~= s);
    } else {
        let none = Seq::<char>::empty();
        let rest = space.drop_first();
        assert forall|i: int| 0 <= i < rest.len() implies text::is_space(#[trigger] rest[i]) by {
            assert(rest[i] == space[i + 1]);
        }
        assert(text::is_space(space[0]));
        text::law_white_space_parts_words(s, space[0], rest);
        assert(s + space =~= s + seq![space[0]] + rest);
        lemma_space_has_no_words(rest, none);
        assert(rest + none =~= rest);
        assert(text::words(s) + text::words(none) =~= text::words(s));
    }
}

/// A mail is parted where it was put together: headers, a blank line, and whatever body,
/// with line feeds or with carriage returns before them.
pub proof fn law_mail_is_parted_at_its_first_blank_line(
    fields: Seq<Field>,
    crlf: bool,
    body: Seq<char>,
)
    requires
        fields.len() > 0,
        forall|i: int| 0 <= i < fields.len() ==> is_field(#[trigger] fields[i]),
    ensures
        ({
            let raw = text::written_lines(fields_lines(fields), crlf) + text::line_mark(crlf) + body;
            &&& headers_of(raw) + text::line_mark(crlf) == text::written_lines(
                fields_lines(fields),
                crlf,
            )
            &&& body_of(raw) == body
        }),
{
    let lines = fields_lines(fields);
    let mark = text::line_mark(crlf);
    let h = text::written_lines(lines, crlf);
    let raw = h + mark + body;
    let lf = lf_blank();
    let pair = crlf_blank();
    lemma_fields_are_lines(fields);
    lemma_written_marks(lines, crlf);
    let at = h.len() - mark.len();
    assert forall|j: int| 0 <= j < h.len() implies raw[j] == h[j] by {}
    text::lemma_first_match(raw, lf, 0);
    text::lemma_first_match(raw, pair, 0);
    if crlf {
        assert(raw.subrange(at, at + 4) =~= pair);
        assert forall|j: int| 0 <= j < at implies !#[trigger] text::occurs_at(raw, pair, j) by {
            if text::occurs_at(raw, pair, j) {
                assert(raw.subrange(j, j + 4)[1] == raw[j + 1]);
                assert(raw.subrange(j, j + 4)[2] == raw[j + 2]);
                assert(h[j + 1] == '\n');
                if j + 2 < h.len() {
                    assert(h[(j + 1) + 1] != '\r');
                }
            }
        }
        text::lemma_match_is_first(raw, pair, 0, at);
        if let Some(i) = text::find_in(raw, lf) {
            if i <= at {
                assert(raw.subrange(i, i + 2)[0] == raw[i]);
                assert(raw.subrange(i, i + 2)[1] == raw[i + 1]);
                assert(h[i] == '\n');
                assert(h[i + 1] != '\n');
            }
        }
    } else {
        assert(h.skip(at)[0] == h[at]);
        assert(raw[at + 1] == mark[0]);
        assert(raw.subrange(at, at + 2) =~= lf);
        assert forall|j: int| 0 <= j < at implies !#[trigger] text::occurs_at(raw, lf, j) by {
            if text::occurs_at(raw, lf, j) {
                assert(raw.subrange(j, j + 2)[0] == raw[j]);
                assert(raw.subrange(j, j + 2)[1] == raw[j + 1]);
                assert(h[j] == '\n');
                assert(h[j + 1] != '\n');
            }
        }
        text::lemma_match_is_first(raw, lf, 0, at);
        if let Some(i) = text::find_in(raw, pair) {
            if i < at {
                assert(raw.subrange(i, i + 4)[0] == raw[i]);
                assert(h[i] != '\r');
            } else if i == at {
                assert(raw.subrange(i, i + 4)[0] == raw[i]);
            }
        }
    }
    assert(headers_of(raw) =~= h.take(at));
    assert(h.take(at) + mark =~= h);
    assert(body_of(raw) =~= body);
}

/// A mail without a blank line is all headers.
pub proof fn law_mail_without_blank_line_is_all_headers(raw: Seq<char>)
    requires
        forall|i: int|
            0 <= i < raw.len() - 1 ==> !(#[trigger] raw[i] == '\n' && raw[i + 1] == '\n'),
        forall|i: int|
            0 <= i < raw.len() - 3 ==> !(#[trigger] raw[i] == '\r' && raw[i + 1] == '\n' && raw[i
                + 2] == '\r' && raw[i + 3] == '\n'),
    ensures
        headers_of(raw) == raw,
        body_of(raw) == Seq::<char>::empty(),
{
    assert forall|j: int| 0 <= j implies !#[trigger] text::occurs_at(raw, lf_blank(), j) by {
        if text::occurs_at(raw, lf_blank(), j) {
            assert(raw.subrange(j, j + 2)[0] == raw[j]);
            assert(raw.subrange(j, j + 2)[1] == raw[j + 1]);
        }
    }
    assert forall|j: int| 0 <= j implies !#[trigger] text::occurs_at(raw, crlf_blank(), j) by {
        if text::occurs_at(raw, crlf_blank(), j) {
            assert(raw.subrange(j, j + 4)[0] == raw[j]);
            assert(raw.subrange(j, j + 4)[1] == raw[j + 1]);
            assert(raw.subrange(j, j + 4)[2] == raw[j + 2]);
            assert(raw.subrange(j, j + 4)[3] == raw[j + 3]);
        }
    }
    text::lemma_no_match(raw, lf_blank(), 0);
    text::lemma_no_match(raw, crlf_blank(), 0);
}

/// The headers of a mail that is put together are read back from the whole of it.
pub proof fn law_headers_of_a_mail_read_back(
    fields: Seq<Field>,
    crlf: bool,
    body: Seq<char>,
    name: Seq<char>,
)
    requires
        fields.len() > 0,
        forall|i: int| 0 <= i < fields.len() ==> is_field(#[trigger] fields[i]),
        name.len() > 0 && name[0] != ' ' && name[0] != '\t',
        vstd::utf8::is_ascii_chars(name),
    ensures
        header_value(
            headers_of(
                text::written_lines(fields_lines(fields), crlf) + text::line_mark(crlf) + body,
            ),
            name,
        ) == stated(fields, name),
{
    let lines = fields_lines(fields);
    let mark = text::line_mark(crlf);
    let h = headers_of(text::written_lines(lines, crlf) + mark + body);
    let front = text::written_lines(lines.drop_last(), crlf) + lines.last();
    law_mail_is_parted_at_its_first_blank_line(fields, crlf, body);
    lemma_fields_are_lines(fields);
    text::lemma_written_last(lines, crlf);
    assert(h + mark == front + mark);
    assert((h + mark).take(h.len() as int) =~= h);
    assert((front + mark).take(front.len() as int) =~= front);
    law_headers_read_back(fields, crlf, name);
}

/// Written lines end with a line end, and hold no two in a row.
proof fn lemma_written_marks(lines: Seq<Seq<char>>, crlf: bool)
    requires
        lines.len() > 0,
        forall|i: int|
            0 <= i < lines.len() ==> text::is_one_line(#[trigger] lines[i]) && lines[i].len() > 0,
    ensures
        ({
            let h = text::written_lines(lines, crlf);
            let mark = text::line_mark(crlf);
            &&& h.len() > mark.len()
            &&& h.skip(h.len() - mark.len()) == mark
            &&& h[0] == lines[0][0]
            &&& forall|j: int|
                0 <= j < h.len() - 1 && #[trigger] h[j] == '\n' ==> h[j + 1] != '\n' && h[j + 1]
                    != '\r'
            &&& !crlf ==> forall|j: int| 0 <= j < h.len() ==> #[trigger] h[j] != '\r'
        }),
    decreases lines.len(),
{
    let h = text::written_lines(lines, crlf);
    let mark = text::line_mark(crlf);
    let first = lines[0];
    let rest = lines.drop_first();
    let r = text::written_lines(rest, crlf);
    let n = first.len() as int;
    let at = n + mark.len();
    assert(h == first + mark + r);
    assert(text::is_one_line(first));
    assert forall|j: int| 0 <= j < n implies h[j] == first[j] by {}
    assert forall|j: int| at <= j < h.len() implies h[j] == r[j - at] by {}
    if rest.len() == 0 {
        assert(h.skip(h.len() - mark.len()) =~= mark);
        assert forall|j: int| 0 <= j < h.len() - 1 && #[trigger] h[j] == '\n' implies h[j + 1]
            != '\n' && h[j + 1] != '\r' by {
            if j < n {
                assert(first[j] != '\n');
            }
        }
    } else {
        assert forall|i: int| 0 <= i < rest.len() implies text::is_one_line(#[trigger] rest[i])
            && rest[i].len() > 0 by {
            assert(rest[i] == lines[i + 1]);
        }
        lemma_written_marks(rest, crlf);
        assert(h.skip(h.len() - mark.len()) =~= r.skip(r.len() - mark.len()));
        assert(rest[0].len() > 0 && text::is_one_line(rest[0]));
        assert(rest[0][0] != '\n' && rest[0][0] != '\r');
        assert forall|j: int| 0 <= j < h.len() - 1 && #[trigger] h[j] == '\n' implies h[j + 1]
            != '\n' && h[j + 1] != '\r' by {
            if j < n {
                assert(first[j] != '\n');
            } else if j == at - 1 {
                assert(h[j + 1] == r[0]);
            } else if j >= at {
                assert(r[j - at] == '\n');
                assert(h[j + 1] == r[j - at + 1]);
            }
        }
        if !crlf {
            assert forall|j: int| 0 <= j < h.len() implies #[trigger] h[j] != '\r' by {
                if j < n {
                    assert(first[j] != '\r');
                } else if j >= at {
                    assert(r[j - at] != '\r');
                }
            }
        }
    }
}

// Senders

/// Some character of `s` is an at sign.
pub open spec fn has_at(s: Seq<char>) -> bool {
    text::find_char_in(s, '@') is Some
}

/// The first of `list` that looks like an address.
pub open spec fn first_address(list: Seq<Seq<char>>) -> Option<Seq<char>>
    decreases list.len(),
{
    if list.len() == 0 {
        None
    } else if has_at(list[0]) {
        Some(list[0])
    } else {
        first_address(list.drop_first())
    }
}

/// `s` without parentheses around it.
pub open spec fn without_parens(s: Seq<char>) -> Seq<char> {
    text::strip_back(
        text::strip_front(s, |c: char| c == '(' || c == ')'),
        |c: char| c == '(' || c == ')',
    )
}

/// The address in a `From` header without angle brackets: its first word that
/// looks like one, else all of it.
pub open spec fn plain_sender(from: Seq<char>) -> Seq<char> {
    match first_address(text::words(from)) {
        Some(w) => without_parens(w),
        None => text::trimmed(from),
    }
}

/// The bare address of a `From` header.
pub open spec fn sender_of(from: Seq<char>) -> Seq<char> {
    match (text::find_char_in(from, '<'), text::find_char_in(from, '>')) {
        (Some(a), Some(b)) if a < b => from.subrange(a + 1, b),
        _ => plain_sender(from),
    }
}

/// The bare address out of a `Name <addr@host>` header. One without angle
/// brackets, such as `addr@host (Name)`, gives its first word that looks like an
/// address, else all of it.
pub fn parse_sender(from: &str) -> (r: String)
    ensures
        r@ == sender_of(from@),
{
    let chars = text::chars_of(from);
    let open: Option<usize> = text::find_char(chars.as_slice(), '<');
    let close: Option<usize> = text::find_char(chars.as_slice(), '>');
    if let (Some(a), Some(b)) = (open, close) {
        if a < b {
            return text::string_of(slice_subrange(chars.as_slice(), a + 1, b));
        }
    }
    let list = text::split_whitespace(chars.as_slice());
    let ghost all = text::words(from@);
    assert(all.skip(0) =~= all);
    for i in 0..list.len()
        invariant
            text::rows(list@) == all,
            first_address(all) == first_address(all.skip(i as int)),
            all == text::words(from@),
            sender_of(from@) == plain_sender(from@),
    {
        let w: &[char] = list[i].as_slice();
        assert(all.skip(i as int)[0] == w@);
        assert(all.skip(i as int).drop_first() =~= all.skip(i + 1));
        if text::find_char(w, '@').is_some() {
            let w = text::trim_front_of(w, '(', ')');
            return text::string_of(text::trim_back_of(w, '(', ')'));
        }
    }
    text::string_of(text::trim(chars.as_slice()))
}

/// The display name of a `From` header.
pub open spec fn display_name(from: Seq<char>) -> Seq<char> {
    match text::find_char_in(from, '<') {
        Some(start) => {
            let name = unquoted(text::trimmed(from.take(start)));
            if name.len() > 0 {
                name
            } else {
                match text::find_char_in(from.skip(start), '>') {
                    Some(end) => from.subrange(start + 1, start + end),
                    None => text::trimmed(from),
                }
            }
        },
        None => text::trimmed(from),
    }
}

/// `s` without double quotes around it.
pub open spec fn unquoted(s: Seq<char>) -> Seq<char> {
    text::strip_back(text::strip_front(s, |c: char| c == '"'), |c: char| c == '"')
}

/// A display name from a `From` header: the quoted or plain name if present,
/// otherwise the bare address, otherwise the trimmed input.
pub fn pretty_from(from: &str) -> (r: String)
    ensures
        r@ == display_name(from@),
{
    let chars = text::chars_of(from);
    let n: usize = chars.len();
    if let Some(start) = text::find_char(chars.as_slice(), '<') {
        let before = slice_subrange(chars.as_slice(), 0, start);
        assert(before@ =~= from@.take(start as int));
        let name = text::trim_start_char(text::trim(before), '"');
        let name = text::trim_end_char(name, '"');
        if name.len() > 0 {
            return text::string_of(name);
        }
        let tail = slice_subrange(chars.as_slice(), start, n);
        assert(tail@ =~= from@.skip(start as int));
        if let Some(end) = text::find_char(tail, '>') {
            assert(tail@[0] == '<');
            return text::string_of(slice_subrange(chars.as_slice(), start + 1, start + end));
        }
    }
    text::string_of(text::trim(chars.as_slice()))
}

/// `s` holds no `c`.
pub open spec fn lacks(s: Seq<char>, c: char) -> bool {
    forall|i: int| 0 <= i < s.len() ==> #[trigger] s[i] != c
}

/// A character with text without it before is found after that text.
proof fn lemma_found_after(a: Seq<char>, c: char, b: Seq<char>)
    requires
        lacks(a, c),
    ensures
        text::find_char_in(a + seq![c] + b, c) == Some(a.len() as int),
{
    let s = a + seq![c] + b;
    assert(s[a.len() as int] == c);
    assert forall|j: int| 0 <= j < a.len() implies s[j] != c by {
        assert(s[j] == a[j]);
    }
    text::lemma_char_is_first(s, c, a.len() as int);
}

/// A character that text lacks is not found.
proof fn lemma_not_found(s: Seq<char>, c: char)
    requires
        lacks(s, c),
    ensures
        text::find_char_in(s, c) is None,
{
    text::lemma_find_char(s, c);
}

/// The sender is the address in angle brackets, whatever stands around them.
pub proof fn law_sender_stands_in_brackets(name: Seq<char>, address: Seq<char>, rest: Seq<char>)
    requires
        lacks(name, '<'),
        lacks(name, '>'),
        lacks(address, '>'),
    ensures
        sender_of(name + seq!['<'] + address + seq!['>'] + rest) == address,
{
    let from = name + seq!['<'] + address + seq!['>'] + rest;
    lemma_found_after(name, '<', address + seq!['>'] + rest);
    assert(name + seq!['<'] + (address + seq!['>'] + rest) =~= from);
    let front = name + seq!['<'] + address;
    assert(lacks(front, '>')) by {
        assert forall|i: int| 0 <= i < front.len() implies #[trigger] front[i] != '>' by {
            if i < name.len() {
                assert(front[i] == name[i]);
            } else if i > name.len() {
                assert(front[i] == address[i - name.len() - 1]);
            }
        }
    }
    lemma_found_after(front, '>', rest);
    assert(front + seq!['>'] + rest =~= from);
    assert(from.subrange(name.len() as int + 1, front.len() as int) =~= address);
}

/// The first word with an at sign is the first address.
proof fn lemma_first_address(list: Seq<Seq<char>>, k: int)
    requires
        0 <= k <= list.len(),
        forall|i: int| 0 <= i < k ==> lacks(#[trigger] list[i], '@'),
        k < list.len() ==> list[k].contains('@'),
    ensures
        first_address(list) == if k < list.len() {
            Some(list[k])
        } else {
            None
        },
    decreases list.len(),
{
    if list.len() > 0 {
        text::lemma_find_char(list[0], '@');
        if k > 0 {
            assert(lacks(list[0], '@'));
            let rest = list.drop_first();
            assert forall|i: int| 0 <= i < k - 1 implies lacks(#[trigger] rest[i], '@') by {
                assert(rest[i] == list[i + 1]);
            }
            lemma_first_address(rest, k - 1);
        }
    }
}

/// Without angle brackets, the sender is the first word that holds an at sign, without the
/// parentheses that may stand around it; where no word does, it is all of the header.
pub proof fn law_sender_without_brackets(from: Seq<char>, k: int)
    requires
        lacks(from, '<') || lacks(from, '>'),
        0 <= k <= text::words(from).len(),
        forall|i: int| 0 <= i < k ==> lacks(#[trigger] text::words(from)[i], '@'),
        k < text::words(from).len() ==> text::words(from)[k].contains('@'),
    ensures
        k == text::words(from).len() ==> sender_of(from) == text::trimmed(from),
        k < text::words(from).len() ==> {
            let w = text::words(from)[k];
            let s = sender_of(from);
            &&& s.contains('@')
            &&& s[0] != '(' && s[0] != ')' && s.last() != '(' && s.last() != ')'
            &&& exists|i: int|
                0 <= i && i + s.len() <= w.len() && s == #[trigger] w.subrange(i, i + s.len())
                    && (forall|j: int| 0 <= j < i ==> #[trigger] w[j] == '(' || w[j] == ')') && (
                forall|j: int| i + s.len() <= j < w.len() ==> #[trigger] w[j] == '(' || w[j] == ')')
        },
{
    if lacks(from, '<') {
        lemma_not_found(from, '<');
    } else {
        lemma_not_found(from, '>');
    }
    lemma_first_address(text::words(from), k);
    if k < text::words(from).len() {
        let w = text::words(from)[k];
        let p = |c: char| c == '(' || c == ')';
        let i = text::lemma_front_run(w, p);
        let f = w.skip(i);
        let m = text::lemma_back_run(f, p);
        let s = f.take(m);
        assert(sender_of(from) == s);
        let at = choose|at: int| 0 <= at < w.len() && w[at] == '@';
        assert(!p('@'));
        if at < i {
            assert(p(w[at]));
        }
        if at - i >= m {
            assert(f[at - i] == w[at]);
            assert(p(f[at - i]));
        }
        assert(s[at - i] == '@');
        assert(s =~= w.subrange(i, i + s.len()));
        assert forall|j: int| 0 <= j < i implies #[trigger] w[j] == '(' || w[j] == ')' by {
            assert(p(w[j]));
        }
        assert forall|j: int| i + s.len() <= j < w.len() implies #[trigger] w[j] == '(' || w[j]
            == ')' by {
            assert(f[j - i] == w[j]);
            assert(p(f[j - i]));
        }
        assert(s[0] == w[i] && s.last() == f[m - 1]);
        assert(!p(s[0]) && !p(s.last()));
    }
}

/// The display name is what stands before the angle bracket, without white space and
/// quotation marks around it.
pub proof fn law_name_stands_before_the_bracket(
    a: Seq<char>,
    quotes: Seq<char>,
    name: Seq<char>,
    b: Seq<char>,
    rest: Seq<char>,
)
    requires
        forall|i: int| 0 <= i < a.len() ==> text::is_space(#[trigger] a[i]) && a[i] != '<',
        forall|i: int| 0 <= i < b.len() ==> text::is_space(#[trigger] b[i]) && b[i] != '<',
        forall|i: int| 0 <= i < quotes.len() ==> #[trigger] quotes[i] == '"',
        name.len() > 0,
        lacks(name, '<'),
        name[0] != '"' && name.last() != '"',
        !text::is_space(name[0]) && !text::is_space(name.last()),
    ensures
        display_name(a + quotes + name + quotes + b + seq!['<'] + rest) == name,
{
    let from = a + quotes + name + quotes + b + seq!['<'] + rest;
    let inner = quotes + name + quotes;
    let front = a + inner + b;
    let q = quotes.len() as int;
    assert(front =~= a + quotes + name + quotes + b);
    assert(lacks(front, '<')) by {
        assert forall|i: int| 0 <= i < front.len() implies #[trigger] front[i] != '<' by {
            if i < a.len() {
                assert(front[i] == a[i]);
            } else if i >= a.len() + inner.len() {
                assert(front[i] == b[i - a.len() - inner.len()]);
            } else {
                let j = i - a.len();
                assert(front[i] == inner[j]);
                if j < q {
                    assert(inner[j] == quotes[j]);
                } else if j < q + name.len() {
                    assert(inner[j] == name[j - q]);
                } else {
                    assert(inner[j] == quotes[j - q - name.len()]);
                }
            }
        }
    }
    lemma_found_after(front, '<', rest);
    assert(from.take(front.len() as int) =~= front);
    text::law_trim_ignores_surrounding_space(a, inner, b);
    if q > 0 {
        assert(inner[0] == quotes[0]);
        assert(inner.last() == quotes[q - 1]);
    } else {
        assert(inner[0] == name[0]);
        assert(inner.last() == name.last());
    }
    text::lemma_already_trimmed(inner);
    let p = |c: char| c == '"';
    assert forall|j: int| 0 <= j < q implies p(#[trigger] inner[j]) by {
        assert(inner[j] == quotes[j]);
    }
    assert(inner[q] == name[0]);
    text::lemma_strip_front(inner, p, q);
    let f = inner.skip(q);
    assert(f =~= name + quotes);
    assert forall|j: int| name.len() <= j < f.len() implies p(#[trigger] f[j]) by {
        assert(f[j] == quotes[j - name.len()]);
    }
    assert(f[name.len() - 1] == name.last());
    text::lemma_strip_back(f, p, name.len() as int);
    assert(f.take(name.len() as int) =~= name);
}

/// An angle bracket that is not closed holds no address.
proof fn lemma_unclosed_name(space: Seq<char>, address: Seq<char>)
    requires
        forall|i: int| 0 <= i < space.len() ==> text::is_space(#[trigger] space[i]) && space[i]
            != '<',
        lacks(address, '>'),
    ensures
        display_name(space + seq!['<'] + address) == text::trimmed(space + seq!['<'] + address),
{
    let from = space + seq!['<'] + address;
    let none = Seq::<char>::empty();
    let n = space.len() as int;
    assert(lacks(space, '<'));
    lemma_found_after(space, '<', address);
    assert(from.take(n) =~= space + none + none);
    text::law_trim_ignores_surrounding_space(space, none, none);
    assert(text::trimmed(none).len() == 0);
    let tail = from.skip(n);
    assert(lacks(tail, '>')) by {
        assert forall|i: int| 0 <= i < tail.len() implies #[trigger] tail[i] != '>' by {
            if i > 0 {
                assert(tail[i] == address[i - 1]);
            }
        }
    }
    lemma_not_found(tail, '>');
}

/// Without a name, the display name is the address in the angle brackets, and without
/// angle brackets, or where they are not closed, it is all of the header.
pub proof fn law_address_stands_in_for_the_name(
    space: Seq<char>,
    address: Seq<char>,
    rest: Seq<char>,
)
    requires
        forall|i: int| 0 <= i < space.len() ==> text::is_space(#[trigger] space[i]) && space[i]
            != '<',
        lacks(address, '>'),
    ensures
        display_name(space + seq!['<'] + address + seq!['>'] + rest) == address,
        lacks(rest, '<') ==> display_name(rest) == text::trimmed(rest),
        display_name(space + seq!['<'] + address) == text::trimmed(space + seq!['<'] + address),
{
    lemma_unclosed_name(space, address);
    let from = space + seq!['<'] + address + seq!['>'] + rest;
    let none = Seq::<char>::empty();
    assert(lacks(space, '<'));
    lemma_found_after(space, '<', address + seq!['>'] + rest);
    assert(space + seq!['<'] + (address + seq!['>'] + rest) =~= from);
    let n = space.len() as int;
    assert(from.take(n) =~= space + none + none);
    text::law_trim_ignores_surrounding_space(space, none, none);
    assert(text::trimmed(none).len() == 0);
    let tail = from.skip(n);
    let front = seq!['<'] + address;
    assert(lacks(front, '>')) by {
        assert forall|i: int| 0 <= i < front.len() implies #[trigger] front[i] != '>' by {
            if i > 0 {
                assert(front[i] == address[i - 1]);
            }
        }
    }
    lemma_found_after(front, '>', rest);
    assert(tail =~= front + seq!['>'] + rest);
    assert(from.subrange(n + 1, n + front.len()) =~= address);
    if lacks(rest, '<') {
        lemma_not_found(rest, '<');
    }
}

} // verus!
