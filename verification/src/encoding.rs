//! The encodings of mail: quoted-printable bodies, and the encoded words of
//! headers in base64 and in their own form of quoted-printable.

use crate::text;
use crate::unicode;
use vstd::prelude::*;
use vstd::slice::slice_subrange;
use vstd::utf8::*;

verus! {

/// The value of a hexadecimal digit.
pub open spec fn hex_value(b: u8) -> Option<int> {
    if 0x30 <= b <= 0x39 {
        Some(b - 0x30)
    } else if 0x41 <= b <= 0x46 {
        Some(b - 0x41 + 10)
    } else if 0x61 <= b <= 0x66 {
        Some(b - 0x61 + 10)
    } else {
        None
    }
}

/// The byte that the two hexadecimal digits after the first byte of `s` write.
pub open spec fn escaped_byte(s: Seq<u8>) -> Option<u8> {
    if s.len() > 2 {
        match (hex_value(s[1]), hex_value(s[2])) {
            (Some(h), Some(l)) => Some((h * 16 + l) as u8),
            _ => None,
        }
    } else {
        None
    }
}

/// The bytes that a quoted-printable body stands for: an equals sign before a
/// line end joins the lines, before two hexadecimal digits it writes a byte, and
/// elsewhere it stands for itself.
pub open spec fn quoted_printable_bytes(s: Seq<u8>) -> Seq<u8>
    decreases s.len(),
{
    if s.len() == 0 {
        seq![]
    } else if s[0] != 0x3d {
        seq![s[0]] + quoted_printable_bytes(s.skip(1))
    } else if s.len() > 1 && s[1] == 0x0a {
        quoted_printable_bytes(s.skip(2))
    } else if s.len() > 2 && s[1] == 0x0d && s[2] == 0x0a {
        quoted_printable_bytes(s.skip(3))
    } else {
        match escaped_byte(s) {
            Some(b) => seq![b] + quoted_printable_bytes(s.skip(3)),
            None => seq![0x3du8] + quoted_printable_bytes(s.skip(1)),
        }
    }
}

/// The bytes that the text of a `Q` word stands for: an underscore is a space, an
/// equals sign before two hexadecimal digits writes a byte.
pub open spec fn q_bytes(s: Seq<u8>) -> Seq<u8>
    decreases s.len(),
{
    if s.len() == 0 {
        seq![]
    } else if s[0] == 0x5f {
        seq![0x20u8] + q_bytes(s.skip(1))
    } else if s[0] == 0x3d && escaped_byte(s) is Some {
        seq![escaped_byte(s).unwrap()] + q_bytes(s.skip(3))
    } else {
        seq![s[0]] + q_bytes(s.skip(1))
    }
}

/// The white space of ASCII.
pub open spec fn is_ascii_space(b: u8) -> bool {
    b == 0x20 || b == 0x09 || b == 0x0a || b == 0x0c || b == 0x0d
}

/// The six bits that a character of base64 stands for.
pub open spec fn sextet(b: u8) -> Option<int> {
    if 0x41 <= b <= 0x5a {
        Some(b - 0x41)
    } else if 0x61 <= b <= 0x7a {
        Some(b - 0x61 + 26)
    } else if 0x30 <= b <= 0x39 {
        Some(b - 0x30 + 52)
    } else if b == 0x2b {
        Some(62)
    } else if b == 0x2f {
        Some(63)
    } else {
        None
    }
}

/// The sextets of base64 text up to its padding, white space apart. Text with a
/// foreign character before the padding has none.
pub open spec fn sextets_of(s: Seq<u8>) -> Option<Seq<int>>
    decreases s.len(),
{
    if s.len() == 0 {
        Some(seq![])
    } else if is_ascii_space(s[0]) {
        sextets_of(s.skip(1))
    } else if s[0] == 0x3d {
        Some(seq![])
    } else {
        match (sextet(s[0]), sextets_of(s.skip(1))) {
            (Some(v), Some(rest)) => Some(seq![v] + rest),
            _ => None,
        }
    }
}

/// The whole bytes in a stream of sextets: four sextets make three bytes.
pub open spec fn sextets_bytes(v: Seq<int>) -> Seq<u8> {
    Seq::new(
        (v.len() * 3 / 4) as nat,
        |k: int|
            if k % 3 == 0 {
                (v[4 * (k / 3)] * 4 + v[4 * (k / 3) + 1] / 16) as u8
            } else if k % 3 == 1 {
                ((v[4 * (k / 3) + 1] % 16) * 16 + v[4 * (k / 3) + 2] / 4) as u8
            } else {
                ((v[4 * (k / 3) + 2] % 4) * 64 + v[4 * (k / 3) + 3]) as u8
            },
    )
}

/// The bytes that base64 text stands for.
pub open spec fn base64_bytes(s: Seq<u8>) -> Option<Seq<u8>> {
    match sextets_of(s) {
        Some(v) => Some(sextets_bytes(v)),
        None => None,
    }
}

/// The value of a hexadecimal digit.
fn hex(b: u8) -> (r: Option<u8>)
    ensures
        match r {
            Some(v) => hex_value(b) == Some(v as int) && v < 16,
            None => hex_value(b) is None,
        },
{
    if 0x30 <= b && b <= 0x39 {
        Some(b - 0x30)
    } else if 0x41 <= b && b <= 0x46 {
        Some(b - 0x41 + 10)
    } else if 0x61 <= b && b <= 0x66 {
        Some(b - 0x61 + 10)
    } else {
        None
    }
}

/// The byte that the two hexadecimal digits after index `i` write.
fn escape_at(s: &[u8], i: usize) -> (r: Option<u8>)
    requires
        i < s@.len(),
    ensures
        r == escaped_byte(s@.skip(i as int)),
{
    if s.len() - i > 2 {
        match (hex(s[i + 1]), hex(s[i + 2])) {
            (Some(h), Some(l)) => Some(h * 16 + l),
            _ => None,
        }
    } else {
        None
    }
}

/// The bytes of a quoted-printable body.
pub fn quoted_printable(bytes: &[u8]) -> (r: Vec<u8>)
    ensures
        r@ == quoted_printable_bytes(bytes@),
{
    let mut out: Vec<u8> = Vec::with_capacity(bytes.len());
    let n: usize = bytes.len();
    let mut i: usize = 0;
    proof {
        assert(bytes@.skip(0) =~= bytes@);
        assert(out@ + quoted_printable_bytes(bytes@) =~= quoted_printable_bytes(bytes@));
    }
    while i < n
        invariant
            n == bytes@.len(),
            i <= n,
            quoted_printable_bytes(bytes@) == out@ + quoted_printable_bytes(bytes@.skip(i as int)),
        decreases n - i,
    {
        let ghost before = out@;
        let ghost at = i as int;
        let ghost rest = bytes@.skip(at);
        if bytes[i] != 0x3d {
            out.push(bytes[i]);
            i = i + 1;
            assert(rest.skip(1) =~= bytes@.skip(i as int));
        } else if n - i > 1 && bytes[i + 1] == 0x0a {
            i = i + 2;
            assert(rest.skip(2) =~= bytes@.skip(i as int));
        } else if n - i > 2 && bytes[i + 1] == 0x0d && bytes[i + 2] == 0x0a {
            i = i + 3;
            assert(rest.skip(3) =~= bytes@.skip(i as int));
        } else {
            match escape_at(bytes, i) {
                Some(b) => {
                    out.push(b);
                    i = i + 3;
                    assert(rest.skip(3) =~= bytes@.skip(i as int));
                },
                None => {
                    out.push(0x3d);
                    i = i + 1;
                    assert(rest.skip(1) =~= bytes@.skip(i as int));
                },
            }
        }
        assert(out@ + quoted_printable_bytes(bytes@.skip(i as int)) =~= before
            + quoted_printable_bytes(rest));
    }
    assert(out@ + quoted_printable_bytes(bytes@.skip(i as int)) =~= out@);
    out
}

/// Decode a quoted-printable body: join soft line breaks (an equals sign before
/// CRLF or LF) and decode `=XX` escapes. What is not UTF-8 then is replaced.
pub fn decode_quoted_printable(s: &str) -> (r: String)
    ensures
        r@ == unicode::utf8_lossy(quoted_printable_bytes(encode_utf8(s@))),
{
    let bytes = quoted_printable(s.as_bytes());
    unicode::from_utf8_lossy(bytes.as_slice())
}

/// The bytes that the text of a `Q` word stands for.
pub fn decode_q(s: &str) -> (r: Vec<u8>)
    ensures
        r@ == q_bytes(encode_utf8(s@)),
{
    let bytes: &[u8] = s.as_bytes();
    let mut out: Vec<u8> = Vec::with_capacity(bytes.len());
    let n: usize = bytes.len();
    let mut i: usize = 0;
    proof {
        assert(bytes@.skip(0) =~= bytes@);
        assert(out@ + q_bytes(bytes@) =~= q_bytes(bytes@));
    }
    while i < n
        invariant
            n == bytes@.len(),
            i <= n,
            q_bytes(bytes@) == out@ + q_bytes(bytes@.skip(i as int)),
        decreases n - i,
    {
        let ghost before = out@;
        let ghost rest = bytes@.skip(i as int);
        let escape: Option<u8> = if bytes[i] == 0x3d {
            escape_at(bytes, i)
        } else {
            None
        };
        if bytes[i] == 0x5f {
            out.push(0x20);
            i = i + 1;
            assert(rest.skip(1) =~= bytes@.skip(i as int));
        } else if let Some(b) = escape {
            out.push(b);
            i = i + 3;
            assert(rest.skip(3) =~= bytes@.skip(i as int));
        } else {
            out.push(bytes[i]);
            i = i + 1;
            assert(rest.skip(1) =~= bytes@.skip(i as int));
        }
        assert(out@ + q_bytes(bytes@.skip(i as int)) =~= before + q_bytes(rest));
    }
    assert(out@ + q_bytes(bytes@.skip(i as int)) =~= out@);
    out
}

/// What one more sextet adds to the bytes.
proof fn lemma_sextets_push(v: Seq<int>, x: int)
    requires
        forall|i: int| 0 <= i < v.len() ==> 0 <= #[trigger] v[i] < 64,
        0 <= x < 64,
    ensures
        v.len() % 4 == 0 ==> sextets_bytes(v.push(x)) == sextets_bytes(v),
        v.len() % 4 == 1 ==> sextets_bytes(v.push(x)) == sextets_bytes(v).push(
            (v.last() * 4 + x / 16) as u8,
        ),
        v.len() % 4 == 2 ==> sextets_bytes(v.push(x)) == sextets_bytes(v).push(
            ((v.last() % 16) * 16 + x / 4) as u8,
        ),
        v.len() % 4 == 3 ==> sextets_bytes(v.push(x)) == sextets_bytes(v).push(
            ((v.last() % 4) * 64 + x) as u8,
        ),
{
    let w = v.push(x);
    let q = v.len() / 4;
    let n = sextets_bytes(v).len();
    if v.len() % 4 == 0 {
        assert(sextets_bytes(w) =~= sextets_bytes(v));
    } else if v.len() % 4 == 1 {
        assert(n == 3 * q);
        assert(sextets_bytes(w) =~= sextets_bytes(v).push((v.last() * 4 + x / 16) as u8));
    } else if v.len() % 4 == 2 {
        assert(n == 3 * q + 1);
        assert(sextets_bytes(w) =~= sextets_bytes(v).push(((v.last() % 16) * 16 + x / 4) as u8));
    } else {
        assert(n == 3 * q + 2);
        assert(sextets_bytes(w) =~= sextets_bytes(v).push(((v.last() % 4) * 64 + x) as u8));
    }
}

/// The bits of a buffer of sextets.
proof fn lemma_buffer_bits(buf: u32, val: u32)
    requires
        val < 64,
    ensures
        (((buf << 6) | val) & 0x3f) == val,
        ((((buf << 6) | val) >> 4) & 0xff) == (buf & 0x3f) * 4 + val / 16,
        ((((buf << 6) | val) >> 2) & 0xff) == ((buf & 0x3f) % 16) * 16 + val / 4,
        ((((buf << 6) | val) >> 0) & 0xff) == ((buf & 0x3f) % 4) * 64 + val,
{
    assert((((buf << 6) | val) & 0x3f) == val) by (bit_vector)
        requires
            val < 64,
    ;
    assert(((((buf << 6) | val) >> 4) & 0xff) == (buf & 0x3f) * 4 + val / 16) by (bit_vector)
        requires
            val < 64,
    ;
    assert(((((buf << 6) | val) >> 2) & 0xff) == ((buf & 0x3f) % 16) * 16 + val / 4) by (bit_vector)
        requires
            val < 64,
    ;
    assert(((((buf << 6) | val) >> 0) & 0xff) == ((buf & 0x3f) % 4) * 64 + val) by (bit_vector)
        requires
            val < 64,
    ;
}

/// The bytes that base64 text stands for, up to its padding; `None` where a
/// character before the padding is neither base64 nor white space.
pub fn decode_base64(s: &str) -> (r: Option<Vec<u8>>)
    ensures
        match r {
            Some(v) => base64_bytes(encode_utf8(s@)) == Some(v@),
            None => base64_bytes(encode_utf8(s@)) is None,
        },
{
    let bytes: &[u8] = s.as_bytes();
    let mut out: Vec<u8> = Vec::new();
    let mut buf: u32 = 0;
    let mut bits: u32 = 0;
    let ghost mut v: Seq<int> = seq![];
    let n: usize = bytes.len();
    let mut i: usize = 0;
    proof {
        assert(bytes@.skip(0) =~= bytes@);
        if let Some(w) = sextets_of(bytes@) {
            assert(v + w =~= w);
        }
        assert(sextets_bytes(v) =~= out@);
    }
    while i < n
        invariant
            bytes@ == encode_utf8(s@),
            n == bytes@.len(),
            i <= n,
            sextets_of(bytes@) == match sextets_of(bytes@.skip(i as int)) {
                Some(w) => Some(v + w),
                None => None,
            },
            forall|k: int| 0 <= k < v.len() ==> 0 <= #[trigger] v[k] < 64,
            out@ == sextets_bytes(v),
            v.len() > 0 ==> buf & 0x3f == v.last(),
            bits == if v.len() % 4 == 0 {
                0int
            } else {
                8 - 2 * (v.len() % 4)
            },
        decreases n - i,
    {
        let c: u8 = bytes[i];
        let ghost rest = bytes@.skip(i as int);
        assert(rest.skip(1) =~= bytes@.skip(i + 1));
        i = i + 1;
        if c == 0x20 || c == 0x09 || c == 0x0a || c == 0x0c || c == 0x0d {
            continue;
        }
        if c == 0x3d {
            assert(v + Seq::<int>::empty() =~= v);
            return Some(out);
        }
        let val: u32 = if 0x41 <= c && c <= 0x5a {
            (c - 0x41) as u32
        } else if 0x61 <= c && c <= 0x7a {
            (c - 0x61) as u32 + 26
        } else if 0x30 <= c && c <= 0x39 {
            (c - 0x30) as u32 + 52
        } else if c == 0x2b {
            62
        } else if c == 0x2f {
            63
        } else {
            return None;
        };
        proof {
            lemma_sextets_push(v, val as int);
            lemma_buffer_bits(buf, val);
            if let Some(w) = sextets_of(bytes@.skip(i as int)) {
                assert(v + (seq![val as int] + w) =~= v.push(val as int) + w);
            }
        }
        buf = (buf << 6) | val;
        bits = bits + 6;
        if bits >= 8 {
            bits = bits - 8;
            out.push(((buf >> bits) & 0xff) as u8);
        }
        proof {
            v = v.push(val as int);
        }
    }
    proof {
        assert(sextets_of(bytes@.skip(n as int)) == Some(Seq::<int>::empty()));
        assert(v + Seq::<int>::empty() =~= v);
    }
    Some(out)
}

// Encoded words in headers

/// The text of an encoded word, given what stands between its `=?` and its `?=`:
/// a charset, an encoding and the encoded text, parted by question marks. Only
/// the encodings `B` and `Q` are known.
pub open spec fn encoded_word(body: Seq<char>) -> Option<Seq<char>> {
    match text::find_char_in(body, '?') {
        None => None,
        Some(a) => {
            let rest = body.skip(a + 1);
            match text::find_char_in(rest, '?') {
                None => None,
                Some(b) => {
                    let encoding = text::ascii_uppered(rest.take(b));
                    let encoded = encode_utf8(rest.skip(b + 1));
                    if encoding == seq!['B'] {
                        match base64_bytes(encoded) {
                            Some(v) => Some(unicode::utf8_lossy(v)),
                            None => None,
                        }
                    } else if encoding == seq!['Q'] {
                        Some(unicode::utf8_lossy(q_bytes(encoded)))
                    } else {
                        None
                    }
                },
            }
        },
    }
}

/// A charset and the encoding `Q`, parted by a question mark.
pub open spec fn is_q_prefix(s: Seq<char>) -> bool {
    &&& s.len() >= 2
    &&& s.last() == 'Q' || s.last() == 'q'
    &&& text::find_char_in(s, '?') == Some(s.len() - 2)
}

/// What may stand as the encoded text of a word: neither a question mark nor
/// white space.
pub open spec fn is_encoded_text(s: Seq<char>) -> bool {
    forall|i: int| 0 <= i < s.len() ==> #[trigger] s[i] != '?' && !text::is_space(s[i])
}

/// The index of the `?=` that closes an encoded word, given what follows its
/// opening `=?`. It is the first one, unless that is the start of a `Q` text that
/// begins with an escape.
pub open spec fn word_close(after: Seq<char>) -> Option<int> {
    match text::find_in(after, seq!['?', '=']) {
        None => None,
        Some(e) => match text::first_match(after, seq!['?', '='], e + 1) {
            Some(c) if is_q_prefix(after.take(e)) && is_encoded_text(after.subrange(e + 1, c)) => Some(
                c,
            ),
            _ => Some(e),
        },
    }
}

/// All of `s` is white space.
pub open spec fn all_space(s: Seq<char>) -> bool {
    forall|i: int| 0 <= i < s.len() ==> text::is_space(#[trigger] s[i])
}

/// What stands before the `=?` at `start`: white space after a decoded word is
/// dropped.
pub open spec fn mime_lead(s: Seq<char>, start: int, after_word: bool) -> Seq<char> {
    if after_word && all_space(s.take(start)) {
        seq![]
    } else {
        s.take(start)
    }
}

/// What the word that opens with the `=?` at `start` gives: its text, the index
/// after it, and whether it was decoded. Marks that open no word stand as they are.
pub open spec fn mime_word(s: Seq<char>, start: int) -> (Seq<char>, int, bool) {
    let after = s.skip(start + 2);
    match word_close(after) {
        None => (seq!['=', '?'], start + 2, false),
        Some(end) => {
            let body = after.take(end);
            match encoded_word(body) {
                Some(word) => (word, start + 2 + end + 2, true),
                None => (seq!['=', '?'] + body + seq!['?', '='], start + 2 + end + 2, false),
            }
        },
    }
}

/// The text of a header with its encoded words decoded. White space between two
/// encoded words belongs to neither and is dropped; what is no encoded word
/// stands as it is. `after_word` tells that `s` follows a decoded word.
pub open spec fn mime_text(s: Seq<char>, after_word: bool) -> Seq<char>
    decreases s.len(),
{
    match text::find_in(s, seq!['=', '?']) {
        None => s,
        Some(start) => {
            proof {
                lemma_mime_word(s, start);
                text::lemma_first_match(s, seq!['=', '?'], 0);
            }
            let (word, next, decoded) = mime_word(s, start);
            mime_lead(s, start, after_word) + word + mime_text(s.skip(next), decoded)
        },
    }
}

/// A word ends after it starts, and inside the text.
pub proof fn lemma_mime_word(s: Seq<char>, start: int)
    requires
        text::find_in(s, seq!['=', '?']) == Some(start),
    ensures
        0 <= start,
        start + 2 <= mime_word(s, start).1 <= s.len(),
{
    text::lemma_first_match(s, seq!['=', '?'], 0);
    lemma_word_close(s.skip(start + 2));
}

/// The closing mark lies inside the text.
pub proof fn lemma_word_close(after: Seq<char>)
    ensures
        match word_close(after) {
            Some(e) => 0 <= e && e + 2 <= after.len(),
            None => true,
        },
{
    text::lemma_first_match(after, seq!['?', '='], 0);
    if let Some(e) = text::find_in(after, seq!['?', '=']) {
        text::lemma_first_match(after, seq!['?', '='], e + 1);
    }
}

/// The text of an encoded word, given what stands between its `=?` and its `?=`.
pub fn decode_encoded_word(body: &str) -> (r: Option<String>)
    ensures
        match r {
            Some(t) => encoded_word(body@) == Some(t@),
            None => encoded_word(body@) is None,
        },
{
    let chars = text::chars_of(body);
    let n: usize = chars.len();
    let a: usize = match text::find_char(chars.as_slice(), '?') {
        Some(a) => a,
        None => return None,
    };
    let rest = slice_subrange(chars.as_slice(), a + 1, n);
    assert(rest@ =~= body@.skip(a + 1));
    let b: usize = match text::find_char(rest, '?') {
        Some(b) => b,
        None => return None,
    };
    let encoding = text::to_ascii_upper(slice_subrange(rest, 0, b));
    let encoded = text::string_of(slice_subrange(rest, b + 1, rest.len()));
    assert(encoded@ =~= rest@.skip(b + 1));
    if encoding.len() != 1 {
        return None;
    }
    if encoding[0] == 'B' {
        assert(encoding@ =~= seq!['B']);
        match decode_base64(encoded.as_str()) {
            Some(bytes) => Some(unicode::from_utf8_lossy(bytes.as_slice())),
            None => None,
        }
    } else if encoding[0] == 'Q' {
        assert(encoding@ =~= seq!['Q']);
        let bytes = decode_q(encoded.as_str());
        Some(unicode::from_utf8_lossy(bytes.as_slice()))
    } else {
        assert(encoding@[0] != seq!['B'][0]);
        assert(encoding@[0] != seq!['Q'][0]);
        None
    }
}

/// Whether `s` may stand as the encoded text of a word.
fn encoded_text(s: &[char]) -> (r: bool)
    ensures
        r == is_encoded_text(s@),
{
    for i in 0..s.len()
        invariant
            forall|j: int| 0 <= j < i ==> #[trigger] s@[j] != '?' && !text::is_space(s@[j]),
    {
        if s[i] == '?' || text::is_whitespace(s[i]) {
            return false;
        }
    }
    true
}

/// Whether all of `s` is white space.
fn only_space(s: &[char]) -> (r: bool)
    ensures
        r == all_space(s@),
{
    for i in 0..s.len()
        invariant
            forall|j: int| 0 <= j < i ==> text::is_space(#[trigger] s@[j]),
    {
        if !text::is_whitespace(s[i]) {
            return false;
        }
    }
    true
}

/// The index of the `?=` that closes an encoded word.
fn find_close(after: &[char]) -> (r: Option<usize>)
    ensures
        match r {
            Some(e) => word_close(after@) == Some(e as int) && e + 2 <= after@.len(),
            None => word_close(after@) is None,
        },
{
    let close: Vec<char> = vec!['?', '='];
    assert(close@ =~= seq!['?', '=']);
    let n: usize = after.len();
    let e: usize = match text::find(after, close.as_slice()) {
        Some(e) => e,
        None => return None,
    };
    let second: Option<usize> = text::find_from(after, close.as_slice(), e + 1);
    proof {
        text::lemma_first_match(after@, seq!['?', '='], e + 1);
    }
    let prefix = slice_subrange(after, 0, e);
    assert(prefix@ =~= after@.take(e as int));
    if e >= 2 && (prefix[e - 1] == 'Q' || prefix[e - 1] == 'q') {
        if let Some(c) = second {
            let encoded = slice_subrange(after, e + 1, c);
            if let Some(q) = text::find_char(prefix, '?') {
                if q == e - 2 && encoded_text(encoded) {
                    return Some(c);
                }
            }
        }
    }
    Some(e)
}

/// Append what the word that opens at `start` gives; returns the index after it
/// and whether it was decoded.
fn push_word(out: &mut String, s: &[char], start: usize) -> (r: (usize, bool))
    requires
        text::find_in(s@, seq!['=', '?']) == Some(start as int),
    ensures
        final(out)@ == old(out)@ + mime_word(s@, start as int).0,
        r.0 == mime_word(s@, start as int).1,
        r.1 == mime_word(s@, start as int).2,
        start + 2 <= r.0 <= s@.len(),
{
    let n: usize = s.len();
    proof {
        lemma_mime_word(s@, start as int);
        text::lemma_first_match(s@, seq!['=', '?'], 0);
    }
    let after = slice_subrange(s, start + 2, n);
    assert(after@ =~= s@.skip(start + 2));
    match find_close(after) {
        None => {
            out.push('=');
            out.push('?');
            assert(out@ =~= old(out)@ + seq!['=', '?']);
            (start + 2, false)
        },
        Some(end) => {
            let body = text::string_of(slice_subrange(after, 0, end));
            assert(body@ =~= after@.take(end as int));
            match decode_encoded_word(body.as_str()) {
                Some(word) => {
                    out.push_str(word.as_str());
                    (start + 2 + end + 2, true)
                },
                None => {
                    out.push('=');
                    out.push('?');
                    out.push_str(body.as_str());
                    out.push('?');
                    out.push('=');
                    assert(out@ =~= old(out)@ + (seq!['=', '?'] + body@ + seq!['?', '=']));
                    (start + 2 + end + 2, false)
                },
            }
        },
    }
}

/// Decode RFC 2047 encoded words like `=?UTF-8?B?...?=` into text. Handles the
/// encodings `B` (base64) and `Q` (quoted-printable). A word in any charset is
/// decoded as UTF-8, with what is not UTF-8 replaced.
pub fn decode_mime_header(s: &str) -> (r: String)
    ensures
        r@ == mime_text(s@, false),
{
    let chars = text::chars_of(s);
    let open: Vec<char> = vec!['=', '?'];
    assert(open@ =~= seq!['=', '?']);
    let mut out = String::new();
    let mut rest: &[char] = chars.as_slice();
    let mut after_word: bool = false;
    assert(out@ + mime_text(s@, false) =~= mime_text(s@, false));
    loop
        invariant
            open@ == seq!['=', '?'],
            mime_text(s@, false) == out@ + mime_text(rest@, after_word),
        ensures
            text::find_in(rest@, seq!['=', '?']) is None,
        decreases rest@.len(),
    {
        let start: usize = match text::find(rest, open.as_slice()) {
            Some(start) => start,
            None => break,
        };
        let ghost before = out@;
        let ghost tail = rest@;
        let ghost lead = mime_lead(tail, start as int, after_word);
        let between = slice_subrange(rest, 0, start);
        assert(between@ =~= tail.take(start as int));
        if !(after_word && only_space(between)) {
            out.push_str(text::string_of(between).as_str());
        }
        assert(out@ =~= before + lead);
        let (next, decoded) = push_word(&mut out, rest, start);
        rest = slice_subrange(rest, next, rest.len());
        after_word = decoded;
        proof {
            assert(rest@ =~= tail.skip(next as int));
            let word = mime_word(tail, start as int).0;
            assert(before + lead + word + mime_text(rest@, decoded) =~= before + (lead + word
                + mime_text(rest@, decoded)));
        }
    }
    out.push_str(text::string_of(rest).as_str());
    out
}

// What was encoded is read back

/// The hexadecimal digit of a value.
pub open spec fn hex_digit(v: int) -> u8 {
    if v < 10 {
        (0x30 + v) as u8
    } else {
        (0x41 + v - 10) as u8
    }
}

/// The bytes, each written as an equals sign and two hexadecimal digits.
pub open spec fn escaped(bytes: Seq<u8>) -> Seq<u8>
    decreases bytes.len(),
{
    if bytes.len() == 0 {
        seq![]
    } else {
        seq![0x3du8, hex_digit(bytes[0] as int / 16), hex_digit(bytes[0] as int % 16)] + escaped(
            bytes.skip(1),
        )
    }
}

/// Bytes that were written as escapes are read back, from a body and from a `Q` word.
pub proof fn law_escapes_read_back(bytes: Seq<u8>)
    ensures
        quoted_printable_bytes(escaped(bytes)) == bytes,
        q_bytes(escaped(bytes)) == bytes,
    decreases bytes.len(),
{
    let s = escaped(bytes);
    if bytes.len() > 0 {
        let b = bytes[0];
        let rest = bytes.skip(1);
        law_escapes_read_back(rest);
        assert(s.skip(3) =~= escaped(rest));
        assert(hex_value(s[1]) == Some(b as int / 16));
        assert(hex_value(s[2]) == Some(b as int % 16));
        assert(escaped_byte(s) == Some(b));
        assert(seq![b] + rest =~= bytes);
    }
}

/// A body without equals signs stands for itself.
pub proof fn law_body_without_escapes_is_kept(bytes: Seq<u8>)
    requires
        forall|i: int| 0 <= i < bytes.len() ==> #[trigger] bytes[i] != 0x3d,
    ensures
        quoted_printable_bytes(bytes) == bytes,
    decreases bytes.len(),
{
    if bytes.len() > 0 {
        let rest = bytes.skip(1);
        assert forall|i: int| 0 <= i < rest.len() implies #[trigger] rest[i] != 0x3d by {
            assert(rest[i] == bytes[i + 1]);
        }
        law_body_without_escapes_is_kept(rest);
        assert(seq![bytes[0]] + rest =~= bytes);
    }
}

/// An equals sign before a line end joins the two lines.
pub proof fn law_soft_line_breaks_join(rest: Seq<u8>)
    ensures
        quoted_printable_bytes(seq![0x3du8, 0x0au8] + rest) == quoted_printable_bytes(rest),
        quoted_printable_bytes(seq![0x3du8, 0x0du8, 0x0au8] + rest) == quoted_printable_bytes(rest),
{
    assert((seq![0x3du8, 0x0au8] + rest).skip(2) =~= rest);
    assert((seq![0x3du8, 0x0du8, 0x0au8] + rest).skip(3) =~= rest);
}

/// The character of base64 for a sextet.
pub open spec fn sextet_char(v: int) -> u8 {
    if v < 26 {
        (0x41 + v) as u8
    } else if v < 52 {
        (0x61 + v - 26) as u8
    } else if v < 62 {
        (0x30 + v - 52) as u8
    } else if v == 62 {
        0x2b
    } else {
        0x2f
    }
}

/// The sextets that bytes are cut into, the last filled up with zeros.
pub open spec fn byte_sextets(bytes: Seq<u8>) -> Seq<int>
    decreases bytes.len(),
{
    if bytes.len() == 0 {
        seq![]
    } else if bytes.len() == 1 {
        seq![bytes[0] as int / 4, (bytes[0] as int % 4) * 16]
    } else if bytes.len() == 2 {
        seq![
            bytes[0] as int / 4,
            (bytes[0] as int % 4) * 16 + bytes[1] as int / 16,
            (bytes[1] as int % 16) * 4,
        ]
    } else {
        seq![
            bytes[0] as int / 4,
            (bytes[0] as int % 4) * 16 + bytes[1] as int / 16,
            (bytes[1] as int % 16) * 4 + bytes[2] as int / 64,
            bytes[2] as int % 64,
        ] + byte_sextets(bytes.skip(3))
    }
}

/// The padding at the end of base64 text.
pub open spec fn base64_padding(n: nat) -> Seq<u8> {
    if n % 3 == 0 {
        seq![]
    } else if n % 3 == 1 {
        seq![0x3du8, 0x3du8]
    } else {
        seq![0x3du8]
    }
}

/// The bytes in base64.
pub open spec fn base64_text(bytes: Seq<u8>) -> Seq<u8> {
    byte_sextets(bytes).map_values(|v: int| sextet_char(v)) + base64_padding(bytes.len())
}

/// Sextets are numbers of six bits.
proof fn lemma_sextets_fit(bytes: Seq<u8>)
    ensures
        forall|i: int|
            0 <= i < byte_sextets(bytes).len() ==> 0 <= #[trigger] byte_sextets(bytes)[i] < 64,
        bytes.len() > 0 ==> byte_sextets(bytes).len() > 0,
    decreases bytes.len(),
{
    if bytes.len() > 2 {
        let rest = bytes.skip(3);
        lemma_sextets_fit(rest);
        let v = byte_sextets(bytes);
        assert forall|i: int| 0 <= i < v.len() implies 0 <= #[trigger] v[i] < 64 by {
            if i >= 4 {
                assert(v[i] == byte_sextets(rest)[i - 4]);
            }
        }
    }
}

/// A character of base64 is the sextet that it was made of, and is neither white space
/// nor a mark.
proof fn lemma_sextet_char(v: int)
    requires
        0 <= v < 64,
    ensures
        sextet(sextet_char(v)) == Some(v),
        !is_ascii_space(sextet_char(v)),
        sextet_char(v) != 0x3d,
        sextet_char(v) != 0x3f,
        sextet_char(v) < 128,
{
}

/// The characters of sextets give the sextets back.
proof fn lemma_sextets_read_back(v: Seq<int>, pad: Seq<u8>)
    requires
        forall|i: int| 0 <= i < v.len() ==> 0 <= #[trigger] v[i] < 64,
        pad.len() > 0 ==> pad[0] == 0x3d,
    ensures
        sextets_of(v.map_values(|x: int| sextet_char(x)) + pad) == Some(v),
    decreases v.len(),
{
    let s = v.map_values(|x: int| sextet_char(x)) + pad;
    if v.len() == 0 {
        assert(v =~= Seq::<int>::empty());
        if pad.len() > 0 {
            assert(s[0] == 0x3d);
        }
    } else {
        let rest = v.skip(1);
        assert forall|i: int| 0 <= i < rest.len() implies 0 <= #[trigger] rest[i] < 64 by {
            assert(rest[i] == v[i + 1]);
        }
        lemma_sextets_read_back(rest, pad);
        lemma_sextet_char(v[0]);
        assert(s[0] == sextet_char(v[0]));
        assert(s.skip(1) =~= rest.map_values(|x: int| sextet_char(x)) + pad);
        assert(seq![v[0]] + rest =~= v);
    }
}

/// The sextets of bytes give the bytes back.
proof fn lemma_bytes_read_back(bytes: Seq<u8>)
    ensures
        sextets_bytes(byte_sextets(bytes)) == bytes,
    decreases bytes.len(),
{
    let v = byte_sextets(bytes);
    if bytes.len() == 0 {
        assert(sextets_bytes(v) =~= bytes);
    } else if bytes.len() == 1 {
        assert(sextets_bytes(v).len() == 1);
        assert(sextets_bytes(v)[0] == bytes[0]);
        assert(sextets_bytes(v) =~= bytes);
    } else if bytes.len() == 2 {
        assert(sextets_bytes(v).len() == 2);
        assert(sextets_bytes(v)[0] == bytes[0]);
        assert(sextets_bytes(v)[1] == bytes[1]);
        assert(sextets_bytes(v) =~= bytes);
    } else {
        let rest = bytes.skip(3);
        let w = byte_sextets(rest);
        lemma_bytes_read_back(rest);
        lemma_sextets_fit(bytes);
        let out = sextets_bytes(v);
        assert(v.len() == w.len() + 4);
        assert(out.len() == sextets_bytes(w).len() + 3);
        assert(out[0] == bytes[0]);
        assert(out[1] == bytes[1]);
        assert(out[2] == bytes[2]);
        assert forall|k: int| 3 <= k < out.len() implies #[trigger] out[k] == bytes[k] by {
            assert(k / 3 == (k - 3) / 3 + 1);
            assert(k % 3 == (k - 3) % 3);
            let m = 4 * (k / 3);
            let n = 4 * ((k - 3) / 3);
            assert(m == n + 4);
            assert(m + 1 < v.len());
            assert(v[m] == w[n] && v[m + 1] == w[n + 1]);
            if k % 3 >= 1 {
                assert(m + 2 < v.len());
                assert(v[m + 2] == w[n + 2]);
            }
            if k % 3 == 2 {
                assert(m + 3 < v.len());
                assert(v[m + 3] == w[n + 3]);
            }
            assert(out[k] == sextets_bytes(w)[k - 3]);
            assert(rest[k - 3] == bytes[k]);
        }
        assert(out =~= bytes);
    }
}

/// Bytes that were written in base64 are read back.
pub proof fn law_base64_reads_back(bytes: Seq<u8>)
    ensures
        base64_bytes(base64_text(bytes)) == Some(bytes),
{
    lemma_sextets_fit(bytes);
    lemma_sextets_read_back(byte_sextets(bytes), base64_padding(bytes.len()));
    lemma_bytes_read_back(bytes);
    assert(byte_sextets(bytes).map_values(|v: int| sextet_char(v)) =~= byte_sextets(
        bytes,
    ).map_values(|x: int| sextet_char(x)));
}

/// ASCII bytes as text.
pub open spec fn ascii_text(bytes: Seq<u8>) -> Seq<char> {
    bytes.map_values(|b: u8| b as char)
}

/// ASCII text is encoded byte by byte.
proof fn lemma_ascii_text(bytes: Seq<u8>)
    requires
        forall|i: int| 0 <= i < bytes.len() ==> #[trigger] bytes[i] < 128,
    ensures
        encode_utf8(ascii_text(bytes)) == bytes,
{
    let s = ascii_text(bytes);
    assert(is_ascii_chars(s)) by {
        assert forall|i: int| 0 <= i < s.len() implies '\0' <= #[trigger] s[i] <= '\u{7f}' by {
            assert(s[i] == bytes[i] as char);
        }
    }
    is_ascii_chars_encode_utf8(s);
    assert forall|i: int| 0 <= i < bytes.len() implies encode_utf8(s)[i] == bytes[i] by {
        assert(s[i] as u8 == bytes[i]);
    }
    assert(encode_utf8(s) =~= bytes);
}

/// What the encodings write is ASCII, and is encoded byte by byte.
pub proof fn lemma_encoded_text(bytes: Seq<u8>)
    ensures
        encode_utf8(ascii_text(base64_text(bytes))) == base64_text(bytes),
        encode_utf8(ascii_text(escaped(bytes))) == escaped(bytes),
{
    let raw = base64_text(bytes);
    let v = byte_sextets(bytes);
    lemma_sextets_fit(bytes);
    assert forall|i: int| 0 <= i < raw.len() implies #[trigger] raw[i] < 128 by {
        if i < v.len() {
            lemma_sextet_char(v[i]);
        }
    }
    lemma_ascii_text(raw);
    lemma_escaped_chars(bytes);
    lemma_ascii_text(escaped(bytes));
}

/// White space in base64 makes no difference: lines may be broken anywhere.
pub proof fn law_base64_ignores_white_space(a: Seq<u8>, space: Seq<u8>, b: Seq<u8>)
    requires
        forall|i: int| 0 <= i < space.len() ==> is_ascii_space(#[trigger] space[i]),
    ensures
        base64_bytes(a + space + b) == base64_bytes(a + b),
{
    lemma_sextets_ignore_space(a, space, b);
}

/// White space among sextets makes no difference.
proof fn lemma_sextets_ignore_space(a: Seq<u8>, space: Seq<u8>, b: Seq<u8>)
    requires
        forall|i: int| 0 <= i < space.len() ==> is_ascii_space(#[trigger] space[i]),
    ensures
        sextets_of(a + space + b) == sextets_of(a + b),
    decreases a.len() + space.len(),
{
    let s = a + space + b;
    if a.len() > 0 {
        let rest = a.skip(1);
        lemma_sextets_ignore_space(rest, space, b);
        assert(s.skip(1) =~= rest + space + b);
        assert((a + b).skip(1) =~= rest + b);
        assert(s[0] == a[0] && (a + b)[0] == a[0]);
    } else if space.len() > 0 {
        let rest = space.skip(1);
        assert forall|i: int| 0 <= i < rest.len() implies is_ascii_space(#[trigger] rest[i]) by {
            assert(rest[i] == space[i + 1]);
        }
        lemma_sextets_ignore_space(a, rest, b);
        assert(s.skip(1) =~= a + rest + b);
        assert(s[0] == space[0]);
    } else {
        assert(s =~= a + b);
    }
}

/// An encoded word: a charset, an encoding and text in it.
pub open spec fn word_text(charset: Seq<char>, encoding: char, encoded: Seq<char>) -> Seq<char> {
    seq!['=', '?'] + charset + seq!['?', encoding, '?'] + encoded + seq!['?', '=']
}

/// What a word gives whose closing mark is where it should be.
proof fn lemma_word_is_read(
    charset: Seq<char>,
    encoding: char,
    encoded: Seq<char>,
    rest: Seq<char>,
    after_word: bool,
    t: Seq<char>,
)
    requires
        forall|j: int| 0 <= j < charset.len() ==> #[trigger] charset[j] != '?',
        encoding == 'B' || encoding == 'Q',
        encoding == 'B' ==> base64_bytes(encode_utf8(encoded)) == Some(encode_utf8(t)),
        encoding == 'Q' ==> q_bytes(encode_utf8(encoded)) == encode_utf8(t),
        word_close(
            charset + seq!['?', encoding, '?'] + encoded + seq!['?', '='] + rest,
        ) == Some(charset.len() + 3 + encoded.len() as int),
    ensures
        mime_text(word_text(charset, encoding, encoded) + rest, after_word) == t + mime_text(
            rest,
            true,
        ),
{
    broadcast use encode_utf8_valid_utf8, encode_utf8_decode_utf8;

    let s = word_text(charset, encoding, encoded) + rest;
    let after = charset + seq!['?', encoding, '?'] + encoded + seq!['?', '='] + rest;
    let cs = charset.len() as int;
    let end = cs + 3 + encoded.len();
    assert(s.subrange(0, 2) =~= seq!['=', '?']);
    text::lemma_match_is_first(s, seq!['=', '?'], 0, 0);
    assert(s.skip(2) =~= after);
    let body = after.take(end);
    assert(body =~= charset + seq!['?', encoding, '?'] + encoded);
    assert(body[cs] == '?');
    assert forall|j: int| 0 <= j < cs implies body[j] != '?' by {
        assert(body[j] == charset[j]);
    }
    text::lemma_char_is_first(body, '?', cs);
    let tail = body.skip(cs + 1);
    assert(tail[0] == encoding && tail[1] == '?');
    text::lemma_char_is_first(tail, '?', 1);
    assert(text::ascii_uppered(tail.take(1)) =~= seq![encoding]);
    assert(tail.skip(2) =~= encoded);
    assert(seq!['B'][0] != seq!['Q'][0]);
    assert(encoded_word(body) == Some(t));
    assert(mime_word(s, 0) == (t, end + 4, true));
    assert(s.skip(end + 4) =~= rest);
    assert(mime_lead(s, 0, after_word) =~= Seq::<char>::empty());
    assert(mime_lead(s, 0, after_word) + t =~= t);
}

/// Text in a `B` word of any charset name is read back, wherever the word stands.
pub proof fn law_b_word_reads_back(
    charset: Seq<char>,
    t: Seq<char>,
    rest: Seq<char>,
    after_word: bool,
)
    requires
        forall|j: int| 0 <= j < charset.len() ==> #[trigger] charset[j] != '?',
    ensures
        mime_text(
            word_text(charset, 'B', ascii_text(base64_text(encode_utf8(t)))) + rest,
            after_word,
        ) == t + mime_text(rest, true),
{
    let bytes = encode_utf8(t);
    let raw = base64_text(bytes);
    let encoded = ascii_text(raw);
    let v = byte_sextets(bytes);
    lemma_sextets_fit(bytes);
    assert forall|i: int| 0 <= i < raw.len() implies #[trigger] raw[i] < 128 && raw[i] != 0x3f && (i
        == 0 ==> raw[i] != 0x3d) by {
        if i < v.len() {
            lemma_sextet_char(v[i]);
        }
    }
    lemma_ascii_text(raw);
    law_base64_reads_back(bytes);
    let after = charset + seq!['?', 'B', '?'] + encoded + seq!['?', '='] + rest;
    let mark = seq!['?', '='];
    let cs = charset.len() as int;
    let end = cs + 3 + encoded.len();
    assert(after.subrange(end, end + 2) =~= mark);
    assert forall|j: int| 0 <= j < end implies !#[trigger] text::occurs_at(after, mark, j) by {
        if text::occurs_at(after, mark, j) {
            assert(after.subrange(j, j + 2)[0] == after[j]);
            assert(after.subrange(j, j + 2)[1] == after[j + 1]);
            if j < cs {
                assert(after[j] == charset[j]);
            } else if j == cs + 2 {
                if encoded.len() > 0 {
                    assert(after[j + 1] == encoded[0]);
                    assert(raw[0] != 0x3d);
                } else {
                    assert(after[j + 1] == '?');
                }
            } else if j >= cs + 3 {
                assert(after[j] == encoded[j - cs - 3]);
                assert(raw[j - cs - 3] != 0x3f);
            }
        }
    }
    text::lemma_match_is_first(after, mark, 0, end);
    let body = after.take(end);
    assert(!is_q_prefix(body)) by {
        assert(body[cs] == '?');
        assert forall|j: int| 0 <= j < cs implies body[j] != '?' by {
            assert(body[j] == charset[j]);
        }
        text::lemma_char_is_first(body, '?', cs);
    }
    lemma_word_is_read(charset, 'B', encoded, rest, after_word, t);
}

/// Escapes are equals signs and hexadecimal digits, and open with an equals sign.
proof fn lemma_escaped_chars(bytes: Seq<u8>)
    ensures
        forall|i: int|
            0 <= i < escaped(bytes).len() ==> 0x30 <= #[trigger] escaped(bytes)[i] <= 0x46
                && escaped(bytes)[i] != 0x3f,
        bytes.len() > 0 ==> escaped(bytes).len() > 0 && escaped(bytes)[0] == 0x3d,
    decreases bytes.len(),
{
    if bytes.len() > 0 {
        let rest = bytes.skip(1);
        lemma_escaped_chars(rest);
        let s = escaped(bytes);
        assert forall|i: int| 0 <= i < s.len() implies 0x30 <= #[trigger] s[i] <= 0x46 && s[i]
            != 0x3f by {
            if i >= 3 {
                assert(s[i] == escaped(rest)[i - 3]);
            }
        }
    }
}

/// Text in a `Q` word of any charset name is read back, wherever the word stands: also
/// where the text opens with an escape.
pub proof fn law_q_word_reads_back(
    charset: Seq<char>,
    t: Seq<char>,
    rest: Seq<char>,
    after_word: bool,
)
    requires
        forall|j: int| 0 <= j < charset.len() ==> #[trigger] charset[j] != '?',
    ensures
        mime_text(
            word_text(charset, 'Q', ascii_text(escaped(encode_utf8(t)))) + rest,
            after_word,
        ) == t + mime_text(rest, true),
{
    let bytes = encode_utf8(t);
    let raw = escaped(bytes);
    let encoded = ascii_text(raw);
    lemma_escaped_chars(bytes);
    lemma_ascii_text(raw);
    law_escapes_read_back(bytes);
    let after = charset + seq!['?', 'Q', '?'] + encoded + seq!['?', '='] + rest;
    let mark = seq!['?', '='];
    let cs = charset.len() as int;
    let end = cs + 3 + encoded.len();
    assert(after.subrange(end, end + 2) =~= mark);
    assert forall|j: int| 0 <= j < end && j != cs + 2 implies !#[trigger] text::occurs_at(
        after,
        mark,
        j,
    ) by {
        if text::occurs_at(after, mark, j) {
            assert(after.subrange(j, j + 2)[0] == after[j]);
            assert(after.subrange(j, j + 2)[1] == after[j + 1]);
            if j < cs {
                assert(after[j] == charset[j]);
            } else if j >= cs + 3 {
                assert(after[j] == encoded[j - cs - 3]);
                assert(raw[j - cs - 3] != 0x3f);
            }
        }
    }
    if encoded.len() == 0 {
        assert(!text::occurs_at(after, mark, cs + 2)) by {
            if text::occurs_at(after, mark, cs + 2) {
                assert(after.subrange(cs + 2, cs + 4)[1] == after[cs + 3]);
            }
        }
        text::lemma_match_is_first(after, mark, 0, end);
        assert(after.take(end).last() == '?');
    } else {
        let open = cs + 2;
        assert(raw[0] == 0x3d);
        assert(after[open + 1] == encoded[0]);
        assert(after.subrange(open, open + 2) =~= mark);
        text::lemma_match_is_first(after, mark, 0, open);
        text::lemma_match_is_first(after, mark, open + 1, end);
        let prefix = after.take(open);
        assert(is_q_prefix(prefix)) by {
            assert(prefix[cs] == '?');
            assert forall|j: int| 0 <= j < cs implies prefix[j] != '?' by {
                assert(prefix[j] == charset[j]);
            }
            text::lemma_char_is_first(prefix, '?', cs);
        }
        assert(after.subrange(open + 1, end) =~= encoded);
        assert(is_encoded_text(encoded)) by {
            assert forall|i: int| 0 <= i < encoded.len() implies #[trigger] encoded[i] != '?'
                && !text::is_space(encoded[i]) by {
                assert(encoded[i] == raw[i] as char);
            }
        }
    }
    lemma_word_is_read(charset, 'Q', encoded, rest, after_word, t);
}

/// A header without marks of encoded words stands as it is.
pub proof fn law_text_without_words_is_kept(s: Seq<char>, after_word: bool)
    requires
        text::find_in(s, seq!['=', '?']) is None,
    ensures
        mime_text(s, after_word) == s,
{
}

// How each piece is read

/// What a hexadecimal digit stands for, in upper or lower case.
pub open spec fn is_hex_digit(b: u8, v: int) -> bool {
    0 <= v < 16 && (b == seq![
        0x30u8, 0x31, 0x32, 0x33, 0x34, 0x35, 0x36, 0x37, 0x38, 0x39, 0x41, 0x42, 0x43, 0x44, 0x45,
        0x46,
    ][v] || b == seq![
        0x30u8, 0x31, 0x32, 0x33, 0x34, 0x35, 0x36, 0x37, 0x38, 0x39, 0x61, 0x62, 0x63, 0x64, 0x65,
        0x66,
    ][v])
}

/// A digit has its value.
proof fn lemma_hex_digit(b: u8, v: int)
    requires
        is_hex_digit(b, v),
    ensures
        hex_value(b) == Some(v),
{
}

/// A quoted-printable body is read piece by piece: a byte that is no equals sign stands for
/// itself, and an equals sign before two hexadecimal digits, in upper or lower case, writes
/// the byte that they stand for.
pub proof fn law_quoted_printable_is_read_byte_by_byte(
    plain: u8,
    h: u8,
    high: int,
    l: u8,
    low: int,
    rest: Seq<u8>,
)
    requires
        plain != 0x3d,
        is_hex_digit(h, high),
        is_hex_digit(l, low),
    ensures
        quoted_printable_bytes(seq![plain] + rest) == seq![plain] + quoted_printable_bytes(rest),
        quoted_printable_bytes(seq![0x3du8, h, l] + rest) == seq![(high * 16 + low) as u8]
            + quoted_printable_bytes(rest),
        quoted_printable_bytes(seq![]) == Seq::<u8>::empty(),
{
    lemma_hex_digit(h, high);
    lemma_hex_digit(l, low);
    assert((seq![plain] + rest).skip(1) =~= rest);
    let s = seq![0x3du8, h, l] + rest;
    assert(s.skip(3) =~= rest);
    assert(s[1] == h && s[2] == l);
}

/// An equals sign that neither joins lines nor writes a byte stands for itself.
pub proof fn law_stray_equals_signs_are_kept(rest: Seq<u8>)
    requires
        rest.len() > 0 ==> rest[0] != 0x0a,
        rest.len() > 1 ==> !(rest[0] == 0x0d && rest[1] == 0x0a),
        rest.len() > 1 ==> forall|v: int, w: int|
            #![trigger is_hex_digit(rest[0], v), is_hex_digit(rest[1], w)]
            !(is_hex_digit(rest[0], v) && is_hex_digit(rest[1], w)),
    ensures
        quoted_printable_bytes(seq![0x3du8] + rest) == seq![0x3du8] + quoted_printable_bytes(rest),
        q_bytes(seq![0x3du8] + rest) == seq![0x3du8] + q_bytes(rest),
{
    let s = seq![0x3du8] + rest;
    assert(s.skip(1) =~= rest);
    if rest.len() > 1 {
        assert(s[1] == rest[0] && s[2] == rest[1]);
        match (hex_value(rest[0]), hex_value(rest[1])) {
            (Some(v), Some(w)) => {
                assert(is_hex_digit(rest[0], v));
                assert(is_hex_digit(rest[1], w));
            },
            _ => {},
        }
    }
}

/// The text of a `Q` word is read piece by piece: an underscore is a space, an equals sign
/// before two hexadecimal digits writes a byte, and any other byte stands for itself.
pub proof fn law_q_text_is_read_byte_by_byte(
    plain: u8,
    h: u8,
    high: int,
    l: u8,
    low: int,
    rest: Seq<u8>,
)
    requires
        plain != 0x3d && plain != 0x5f,
        is_hex_digit(h, high),
        is_hex_digit(l, low),
    ensures
        q_bytes(seq![plain] + rest) == seq![plain] + q_bytes(rest),
        q_bytes(seq![0x5fu8] + rest) == seq![0x20u8] + q_bytes(rest),
        q_bytes(seq![0x3du8, h, l] + rest) == seq![(high * 16 + low) as u8] + q_bytes(rest),
        q_bytes(seq![]) == Seq::<u8>::empty(),
{
    lemma_hex_digit(h, high);
    lemma_hex_digit(l, low);
    assert((seq![plain] + rest).skip(1) =~= rest);
    assert((seq![0x5fu8] + rest).skip(1) =~= rest);
    let s = seq![0x3du8, h, l] + rest;
    assert(s.skip(3) =~= rest);
    assert(s[1] == h && s[2] == l);
}

/// Base64 ends at its padding, whatever follows, and may lack it.
pub proof fn law_base64_ends_at_its_padding(bytes: Seq<u8>, rest: Seq<u8>)
    ensures
        base64_bytes(
            byte_sextets(bytes).map_values(|v: int| sextet_char(v)) + (seq![0x3du8] + rest),
        ) == Some(bytes),
        base64_bytes(byte_sextets(bytes).map_values(|v: int| sextet_char(v))) == Some(bytes),
{
    let v = byte_sextets(bytes);
    let none = Seq::<u8>::empty();
    lemma_sextets_fit(bytes);
    lemma_sextets_read_back(v, seq![0x3du8] + rest);
    lemma_sextets_read_back(v, none);
    lemma_bytes_read_back(bytes);
    let text = v.map_values(|x: int| sextet_char(x));
    assert(text =~= v.map_values(|v: int| sextet_char(v)));
    assert(text + none =~= text);
}

/// Text with a character before its padding that is neither base64 nor white space is not
/// base64.
pub proof fn law_foreign_characters_are_not_base64(a: Seq<u8>, c: u8, b: Seq<u8>)
    requires
        forall|i: int| 0 <= i < a.len() ==> #[trigger] a[i] != 0x3d,
        c != 0x3d && c != 0x20 && c != 0x09 && c != 0x0a && c != 0x0c && c != 0x0d,
        forall|v: int| 0 <= v < 64 ==> c != #[trigger] sextet_char(v),
    ensures
        base64_bytes(a + seq![c] + b) is None,
    decreases a.len(),
{
    let s = a + seq![c] + b;
    if a.len() == 0 {
        assert(s[0] == c);
        if let Some(v) = sextet(c) {
            assert(sextet_char(v) == c);
        }
    } else {
        let rest = a.skip(1);
        assert forall|i: int| 0 <= i < rest.len() implies #[trigger] rest[i] != 0x3d by {
            assert(rest[i] == a[i + 1]);
        }
        law_foreign_characters_are_not_base64(rest, c, b);
        assert(s.skip(1) =~= rest + seq![c] + b);
        assert(s[0] == a[0]);
        assert(a[0] != 0x3d);
    }
}

/// The text holds no mark that opens an encoded word.
pub open spec fn opens_no_word(s: Seq<char>) -> bool {
    forall|i: int| 0 <= i < s.len() - 1 ==> !(#[trigger] s[i] == '=' && s[i + 1] == '?')
}

/// Where the first mark stands.
proof fn lemma_first_mark(a: Seq<char>, s: Seq<char>)
    requires
        opens_no_word(a),
    ensures
        text::find_in(a, seq!['=', '?']) is None,
        text::find_in(a + seq!['=', '?'] + s, seq!['=', '?']) == Some(a.len() as int),
{
    let mark = seq!['=', '?'];
    let t = a + mark + s;
    let n = a.len() as int;
    assert forall|j: int| 0 <= j implies !#[trigger] text::occurs_at(a, mark, j) by {
        if text::occurs_at(a, mark, j) {
            assert(a.subrange(j, j + 2)[0] == a[j]);
            assert(a.subrange(j, j + 2)[1] == a[j + 1]);
        }
    }
    text::lemma_no_match(a, mark, 0);
    assert(t.subrange(n, n + 2) =~= mark);
    assert forall|j: int| 0 <= j < n implies !#[trigger] text::occurs_at(t, mark, j) by {
        if text::occurs_at(t, mark, j) {
            assert(t.subrange(j, j + 2)[0] == t[j]);
            assert(t.subrange(j, j + 2)[1] == t[j + 1]);
            assert(t[j] == a[j]);
            if j + 1 < n {
                assert(t[j + 1] == a[j + 1]);
            } else {
                assert(t[j + 1] == mark[0]);
            }
        }
    }
    text::lemma_match_is_first(t, mark, 0, n);
}

/// Text before an encoded word stands as it is, but for white space between two encoded
/// words, which is dropped. So do headers without encoded words.
pub proof fn law_text_around_words_is_kept(a: Seq<char>, s: Seq<char>)
    requires
        opens_no_word(a),
    ensures
        mime_text(a, false) == a,
        mime_text(a, true) == a,
        mime_text(a + (seq!['=', '?'] + s), false) == a + mime_text(seq!['=', '?'] + s, false),
        (exists|i: int| 0 <= i < a.len() && !text::is_space(#[trigger] a[i])) ==> mime_text(
            a + (seq!['=', '?'] + s),
            true,
        ) == a + mime_text(seq!['=', '?'] + s, false),
        (forall|i: int| 0 <= i < a.len() ==> text::is_space(#[trigger] a[i])) ==> mime_text(
            a + (seq!['=', '?'] + s),
            true,
        ) == mime_text(seq!['=', '?'] + s, false),
{
    let none = Seq::<char>::empty();
    let t = a + (seq!['=', '?'] + s);
    let w = seq!['=', '?'] + s;
    let n = a.len() as int;
    lemma_first_mark(a, s);
    lemma_first_mark(none, s);
    assert(t =~= a + seq!['=', '?'] + s);
    assert(w =~= none + seq!['=', '?'] + s);
    assert(t.take(n) =~= a);
    assert(w.take(0) =~= none);
    assert(t.skip(n + 2) =~= s);
    assert(w.skip(2) =~= s);
    let (word, next, decoded) = mime_word(t, n);
    let (word0, next0, decoded0) = mime_word(w, 0);
    assert(word == word0 && decoded == decoded0 && next == n + next0);
    lemma_mime_word(t, n);
    lemma_mime_word(w, 0);
    assert(t.skip(next) =~= w.skip(next0));
    let tail = mime_text(t.skip(next), decoded);
    assert(mime_text(w, false) =~= word + tail);
    assert(mime_text(t, false) =~= a + (word + tail));
    assert(mime_lead(t, n, false) == a);
    if exists|i: int| 0 <= i < a.len() && !text::is_space(#[trigger] a[i]) {
        assert(!all_space(a));
        assert(mime_text(t, true) =~= a + (word + tail));
    }
    if forall|i: int| 0 <= i < a.len() ==> text::is_space(#[trigger] a[i]) {
        assert(all_space(a));
        assert(mime_text(t, true) =~= word + tail);
    }
}

/// What text gives that opens with a word: what the word gives, and what the rest gives.
proof fn lemma_opening_word(body: Seq<char>, rest: Seq<char>, after_word: bool)
    requires
        word_close(body + seq!['?', '='] + rest) == Some(body.len() as int),
    ensures
        mime_text(seq!['=', '?'] + body + seq!['?', '='] + rest, after_word) == match encoded_word(
            body,
        ) {
            Some(w) => w + mime_text(rest, true),
            None => seq!['=', '?'] + body + seq!['?', '='] + mime_text(rest, false),
        },
{
    let none = Seq::<char>::empty();
    let after = body + seq!['?', '='] + rest;
    let s = seq!['=', '?'] + body + seq!['?', '='] + rest;
    let end = body.len() as int;
    assert(s =~= none + seq!['=', '?'] + after);
    lemma_first_mark(none, after);
    assert(s.skip(2) =~= after);
    assert(after.take(end) =~= body);
    assert(s.take(0) =~= none);
    assert(mime_lead(s, 0, after_word) =~= none);
    assert(s.skip(end + 4) =~= rest);
    match encoded_word(body) {
        Some(w) => {
            assert(mime_word(s, 0) == (w, end + 4, true));
            assert(none + w =~= w);
        },
        None => {
            let kept = seq!['=', '?'] + body + seq!['?', '='];
            assert(mime_word(s, 0) == (kept, end + 4, false));
            assert(none + kept =~= kept);
        },
    }
}

/// A word in an encoding that is not known stands as it is.
pub proof fn law_unknown_words_are_kept(
    charset: Seq<char>,
    encoding: char,
    t: Seq<char>,
    rest: Seq<char>,
)
    requires
        forall|j: int| 0 <= j < charset.len() ==> #[trigger] charset[j] != '?',
        forall|j: int| 0 <= j < t.len() ==> #[trigger] t[j] != '?' && t[j] != '=',
        encoding != 'B' && encoding != 'b' && encoding != 'Q' && encoding != 'q' && encoding != '?'
            && encoding != '=',
    ensures
        mime_text(word_text(charset, encoding, t) + rest, false) == word_text(charset, encoding, t)
            + mime_text(rest, false),
{
    let mark = seq!['?', '='];
    let body = charset + seq!['?', encoding, '?'] + t;
    let after = body + mark + rest;
    let cs = charset.len() as int;
    let end = body.len() as int;
    assert(after.subrange(end, end + 2) =~= mark);
    assert forall|j: int| 0 <= j < end implies !#[trigger] text::occurs_at(after, mark, j) by {
        if text::occurs_at(after, mark, j) {
            assert(after.subrange(j, j + 2)[0] == after[j]);
            assert(after.subrange(j, j + 2)[1] == after[j + 1]);
            if j < cs {
                assert(after[j] == charset[j]);
            } else if j == cs + 2 {
                if t.len() > 0 {
                    assert(after[j + 1] == t[0]);
                } else {
                    assert(after[j + 1] == '?');
                }
            } else if j >= cs + 3 {
                assert(after[j] == t[j - cs - 3]);
            }
        }
    }
    text::lemma_match_is_first(after, mark, 0, end);
    lemma_word_parts(charset, encoding, t);
    assert(after.take(end) =~= body);
    assert(!is_q_prefix(body)) by {
        if t.len() == 0 {
            assert(body.last() == '?');
        }
    }
    assert(word_close(after) == Some(end));
    assert(text::ascii_uppered(seq![encoding])[0] == text::ascii_upper(encoding));
    assert(seq!['B'][0] == 'B' && seq!['Q'][0] == 'Q');
    assert(encoded_word(body) is None);
    lemma_opening_word(body, rest, false);
    assert(seq!['=', '?'] + body + mark =~= word_text(charset, encoding, t));
}

/// Marks that no word follows stand as they are.
pub proof fn law_unclosed_marks_are_kept(rest: Seq<char>)
    requires
        forall|j: int| 0 <= j < rest.len() - 1 ==> !(#[trigger] rest[j] == '?' && rest[j + 1] == '='),
    ensures
        mime_text(seq!['=', '?'] + rest, false) == seq!['=', '?'] + mime_text(rest, false),
{
    let none = Seq::<char>::empty();
    let mark = seq!['?', '='];
    let w = seq!['=', '?'] + rest;
    assert(w =~= none + seq!['=', '?'] + rest);
    lemma_first_mark(none, rest);
    assert(w.skip(2) =~= rest);
    assert forall|j: int| 0 <= j implies !#[trigger] text::occurs_at(rest, mark, j) by {
        if text::occurs_at(rest, mark, j) {
            assert(rest.subrange(j, j + 2)[0] == rest[j]);
            assert(rest.subrange(j, j + 2)[1] == rest[j + 1]);
        }
    }
    text::lemma_no_match(rest, mark, 0);
    assert(w.take(0) =~= none);
    assert(mime_text(w, false) =~= seq!['=', '?'] + mime_text(rest, false));
}

/// The closing mark of a word is the one behind its text.
proof fn lemma_closes_behind_text(
    charset: Seq<char>,
    encoding: char,
    encoded: Seq<char>,
    rest: Seq<char>,
)
    requires
        forall|j: int| 0 <= j < charset.len() ==> #[trigger] charset[j] != '?',
        forall|j: int| 0 <= j < encoded.len() ==> #[trigger] encoded[j] != '?',
        encoded.len() > 0 && encoded[0] == '=' ==> forall|j: int|
            0 <= j < encoded.len() ==> !text::is_space(#[trigger] encoded[j]),
        encoding == 'Q' || encoding == 'q' || (encoding == 'B' || encoding == 'b') && (encoded.len()
            > 0 ==> encoded[0] != '='),
    ensures
        word_close(
            charset + seq!['?', encoding, '?'] + encoded + seq!['?', '='] + rest,
        ) == Some(charset.len() + 3 + encoded.len() as int),
{
    let after = charset + seq!['?', encoding, '?'] + encoded + seq!['?', '='] + rest;
    let mark = seq!['?', '='];
    let cs = charset.len() as int;
    let open = cs + 2;
    let end = cs + 3 + encoded.len();
    assert(after.subrange(end, end + 2) =~= mark);
    assert forall|j: int| 0 <= j < end && j != open implies !#[trigger] text::occurs_at(
        after,
        mark,
        j,
    ) by {
        if text::occurs_at(after, mark, j) {
            assert(after.subrange(j, j + 2)[0] == after[j]);
            assert(after.subrange(j, j + 2)[1] == after[j + 1]);
            if j < cs {
                assert(after[j] == charset[j]);
            } else if j >= cs + 3 {
                assert(after[j] == encoded[j - cs - 3]);
            }
        }
    }
    if encoded.len() > 0 && encoded[0] == '=' {
        assert(after[open + 1] == encoded[0]);
        assert(after.subrange(open, open + 2) =~= mark);
        text::lemma_match_is_first(after, mark, 0, open);
        text::lemma_match_is_first(after, mark, open + 1, end);
        let prefix = after.take(open);
        assert(is_q_prefix(prefix)) by {
            assert(prefix[cs] == '?');
            assert forall|j: int| 0 <= j < cs implies prefix[j] != '?' by {
                assert(prefix[j] == charset[j]);
            }
            text::lemma_char_is_first(prefix, '?', cs);
        }
        assert(after.subrange(open + 1, end) =~= encoded);
    } else {
        assert(!text::occurs_at(after, mark, open)) by {
            if text::occurs_at(after, mark, open) {
                assert(after.subrange(open, open + 2)[1] == after[open + 1]);
                if encoded.len() > 0 {
                    assert(after[open + 1] == encoded[0]);
                } else {
                    assert(after[open + 1] == '?');
                }
            }
        }
        text::lemma_match_is_first(after, mark, 0, end);
        let body = after.take(end);
        assert(!is_q_prefix(body)) by {
            assert(body[cs] == '?');
            assert forall|j: int| 0 <= j < cs implies body[j] != '?' by {
                assert(body[j] == charset[j]);
            }
            text::lemma_char_is_first(body, '?', cs);
        }
    }
}

/// An encoded word of any charset gives what its text stands for, by its encoding, in upper
/// or lower case, wherever it stands; where its text is not base64 as it should be, it
/// stands as it is.
pub proof fn law_words_are_decoded(
    charset: Seq<char>,
    encoding: char,
    encoded: Seq<char>,
    rest: Seq<char>,
    after_word: bool,
)
    requires
        forall|j: int| 0 <= j < charset.len() ==> #[trigger] charset[j] != '?',
        forall|j: int| 0 <= j < encoded.len() ==> #[trigger] encoded[j] != '?',
        encoded.len() > 0 && encoded[0] == '=' ==> forall|j: int|
            0 <= j < encoded.len() ==> !text::is_space(#[trigger] encoded[j]),
        encoding == 'Q' || encoding == 'q' || (encoding == 'B' || encoding == 'b') && (encoded.len()
            > 0 ==> encoded[0] != '='),
    ensures
        ({
            let word = word_text(charset, encoding, encoded);
            let bytes = if encoding == 'Q' || encoding == 'q' {
                Some(q_bytes(encode_utf8(encoded)))
            } else {
                base64_bytes(encode_utf8(encoded))
            };
            mime_text(word + rest, after_word) == match bytes {
                Some(v) => unicode::utf8_lossy(v) + mime_text(rest, true),
                None => word + mime_text(rest, false),
            }
        }),
{
    let word = word_text(charset, encoding, encoded);
    let body = charset + seq!['?', encoding, '?'] + encoded;
    lemma_closes_behind_text(charset, encoding, encoded, rest);
    lemma_opening_word(body, rest, after_word);
    assert(seq!['=', '?'] + body + seq!['?', '='] =~= word);
    lemma_word_parts(charset, encoding, encoded);
    let upper = text::ascii_uppered(seq![encoding]);
    assert(upper[0] == text::ascii_upper(encoding));
    assert(seq!['B'][0] == 'B' && seq!['Q'][0] == 'Q');
    if encoding == 'Q' || encoding == 'q' {
        assert(upper =~= seq!['Q']);
        assert(upper != seq!['B']);
    } else {
        assert(upper =~= seq!['B']);
    }
}

/// The letter of an encoding may be in upper or lower case.
pub proof fn law_encodings_ignore_case(charset: Seq<char>, a: char, b: char, encoded: Seq<char>)
    requires
        forall|j: int| 0 <= j < charset.len() ==> #[trigger] charset[j] != '?',
        (a == 'B' && b == 'b') || (a == 'Q' && b == 'q'),
    ensures
        encoded_word(charset + seq!['?', a, '?'] + encoded) == encoded_word(
            charset + seq!['?', b, '?'] + encoded,
        ),
{
    lemma_word_parts(charset, a, encoded);
    lemma_word_parts(charset, b, encoded);
    assert(text::ascii_uppered(seq![a]) =~= text::ascii_uppered(seq![b]));
}

/// The parts of a word.
proof fn lemma_word_parts(charset: Seq<char>, encoding: char, encoded: Seq<char>)
    requires
        forall|j: int| 0 <= j < charset.len() ==> #[trigger] charset[j] != '?',
        encoding != '?',
    ensures
        ({
            let body = charset + seq!['?', encoding, '?'] + encoded;
            let rest = body.skip(charset.len() as int + 1);
            &&& text::find_char_in(body, '?') == Some(charset.len() as int)
            &&& text::find_char_in(rest, '?') == Some(1int)
            &&& rest.take(1) == seq![encoding]
            &&& rest.skip(2) == encoded
        }),
{
    let body = charset + seq!['?', encoding, '?'] + encoded;
    let cs = charset.len() as int;
    assert(body[cs] == '?');
    assert forall|j: int| 0 <= j < cs implies body[j] != '?' by {
        assert(body[j] == charset[j]);
    }
    text::lemma_char_is_first(body, '?', cs);
    let rest = body.skip(cs + 1);
    assert(rest[0] == encoding && rest[1] == '?');
    text::lemma_char_is_first(rest, '?', 1);
    assert(rest.take(1) =~= seq![encoding]);
    assert(rest.skip(2) =~= encoded);
}

} // verus!
