//! A parsed mail: the headers of its raw text, decoded, its body, and the text
//! that is made of them.

use crate::encoding;
use crate::header;
use crate::patch;
use crate::patch::PatchTag;
use crate::text;
use crate::time;
use crate::time::MailDate;
use crate::unicode;
use vstd::prelude::*;

verus! {

/// A mail: its raw RFC 5322 text plus the headers we care about, decoded, and the
/// mirror `epoch` and `commit` it was read from.
#[derive(Debug)]
pub struct Mail {
    /// The raw mail text, kept so that the body can be rendered on demand.
    pub raw: String,
    pub subject: String,
    pub from: String,
    pub author: String,
    pub sender: String,
    pub to: String,
    pub date: Option<MailDate>,
    pub message_id: String,
    /// The mail this one replies to: `In-Reply-To`, or the last id in `References`
    /// when `In-Reply-To` is absent. Empty for thread roots.
    pub in_reply_to: String,
    /// The whole `References` chain, oldest first. Its head names the thread root,
    /// the cover letter of a patch series.
    pub references: Vec<String>,
    /// The decoded `[PATCH ...]` subject tag, or `None` when this is not a patch
    /// mail but a review reply or ordinary discussion.
    pub patch_tag: Option<PatchTag>,
    pub epoch: u32,
    pub commit: String,
}

/// A mail in its mathematical form.
#[verifier::ext_equal]
pub struct MailView {
    pub raw: Seq<char>,
    pub subject: Seq<char>,
    pub from: Seq<char>,
    pub author: Seq<char>,
    pub sender: Seq<char>,
    pub to: Seq<char>,
    pub date: Option<((int, int), int)>,
    pub message_id: Seq<char>,
    pub in_reply_to: Seq<char>,
    pub references: Seq<Seq<char>>,
    pub patch_tag: Option<PatchTag>,
    pub epoch: u32,
    pub commit: Seq<char>,
}

impl View for Mail {
    type V = MailView;

    open spec fn view(&self) -> MailView {
        MailView {
            raw: self.raw@,
            subject: self.subject@,
            from: self.from@,
            author: self.author@,
            sender: self.sender@,
            to: self.to@,
            date: time::date_view(self.date),
            message_id: self.message_id@,
            in_reply_to: self.in_reply_to@,
            references: text::strings(self.references@),
            patch_tag: self.patch_tag,
            epoch: self.epoch,
            commit: self.commit@,
        }
    }
}

/// The mathematical form of a list of mails.
pub open spec fn mail_views(mails: Seq<Mail>) -> Seq<MailView> {
    mails.map_values(|m: Mail| m@)
}

impl Default for Mail {
    fn default() -> (r: Mail)
        ensures
            r@ == (MailView {
                raw: seq![],
                subject: seq![],
                from: seq![],
                author: seq![],
                sender: seq![],
                to: seq![],
                date: None,
                message_id: seq![],
                in_reply_to: seq![],
                references: seq![],
                patch_tag: None,
                epoch: 0,
                commit: seq![],
            }),
    {
        Mail {
            raw: String::new(),
            subject: String::new(),
            from: String::new(),
            author: String::new(),
            sender: String::new(),
            to: String::new(),
            date: None,
            message_id: String::new(),
            in_reply_to: String::new(),
            references: Vec::new(),
            patch_tag: None,
            epoch: 0,
            commit: String::new(),
        }
    }
}

impl Clone for Mail {
    fn clone(&self) -> (r: Mail)
        ensures
            r@ == self@,
    {
        let mut references: Vec<String> = Vec::new();
        for i in 0..self.references.len()
            invariant
                references@.len() == i,
                forall|j: int| 0 <= j < i ==> #[trigger] references@[j]@ == self.references@[j]@,
        {
            references.push(self.references[i].clone());
        }
        assert(text::strings(references@) =~= text::strings(self.references@));
        Mail {
            raw: self.raw.clone(),
            subject: self.subject.clone(),
            from: self.from.clone(),
            author: self.author.clone(),
            sender: self.sender.clone(),
            to: self.to.clone(),
            date: self.date,
            message_id: self.message_id.clone(),
            in_reply_to: self.in_reply_to.clone(),
            references,
            patch_tag: self.patch_tag,
            epoch: self.epoch,
            commit: self.commit.clone(),
        }
    }
}

/// The value of a header, its encoded words decoded; empty where it is missing.
pub open spec fn decoded_header(headers: Seq<char>, name: Seq<char>) -> Seq<char> {
    match header::header_value(headers, name) {
        Some(v) => encoding::mime_text(v, false),
        None => seq![],
    }
}

/// The mail that a mail with the given headers replies to.
pub open spec fn replied_to(headers: Seq<char>) -> Seq<char> {
    match header::header_value(headers, "In-Reply-To"@) {
        Some(v) => v,
        None => {
            let chain = text::words(header::header_or_empty(headers, "References"@));
            if chain.len() > 0 {
                chain.last()
            } else {
                seq![]
            }
        },
    }
}

/// The date that the headers state.
pub open spec fn date_of(headers: Seq<char>) -> Option<((int, int), int)> {
    match header::header_value(headers, "Date"@) {
        Some(v) => time::rfc_date(v),
        None => None,
    }
}

/// The mail that raw text holds.
pub open spec fn mail_of(raw: Seq<char>, epoch: u32, commit: Seq<char>) -> MailView {
    let headers = header::headers_of(raw);
    let subject = decoded_header(headers, "Subject"@);
    let from = decoded_header(headers, "From"@);
    MailView {
        raw,
        subject,
        from,
        author: header::display_name(from),
        sender: header::sender_of(from),
        to: decoded_header(headers, "To"@),
        date: date_of(headers),
        message_id: header::header_or_empty(headers, "Message-ID"@),
        in_reply_to: replied_to(headers),
        references: text::words(header::header_or_empty(headers, "References"@)),
        patch_tag: patch::patch_tag_of(subject),
        epoch,
        commit,
    }
}

/// The transfer encoding that a mail's headers state, in lower case.
pub open spec fn transfer_encoding(raw: Seq<char>) -> Seq<char> {
    text::trimmed(
        text::ascii_lowered(
            header::header_or_empty(header::headers_of(raw), "Content-Transfer-Encoding"@),
        ),
    )
}

/// The body of a mail, decoded according to its transfer encoding: quoted-printable, or
/// base64 as far as its padding. A body with anything else before the padding is not
/// base64 and stands as it is, as does a body in any other encoding. What follows the
/// padding, the plain text of a list's footer, say, is no part of the text.
pub open spec fn body_text(raw: Seq<char>) -> Seq<char> {
    let body = header::body_of(raw);
    let bytes = vstd::utf8::encode_utf8(body);
    if transfer_encoding(raw) == "quoted-printable"@ {
        unicode::utf8_lossy(encoding::quoted_printable_bytes(bytes))
    } else if transfer_encoding(raw) == "base64"@ {
        match encoding::base64_bytes(bytes) {
            Some(decoded) => unicode::utf8_lossy(decoded),
            None => body,
        }
    } else {
        body
    }
}

/// The line that shows a header, if the mail has it.
pub open spec fn field_line(headers: Seq<char>, name: Seq<char>) -> Seq<char> {
    match header::header_value(headers, name) {
        Some(v) => name + ": "@ + encoding::mime_text(v, false) + seq!['\n'],
        None => seq![],
    }
}

/// A mail as plain text: its headers in a fixed order, then its body.
pub open spec fn full_text(raw: Seq<char>) -> Seq<char> {
    let headers = header::headers_of(raw);
    field_line(headers, "From"@) + field_line(headers, "Date"@) + field_line(headers, "Subject"@)
        + field_line(headers, "To"@) + field_line(headers, "Cc"@) + field_line(
        headers,
        "Message-ID"@,
    ) + "\n--\n\n"@ + body_text(raw)
}

/// Nothing but white space.
pub open spec fn is_blank(s: Seq<char>) -> bool {
    text::trimmed(s).len() == 0
}

/// Both lists of addresses in one, without those that are blank.
pub open spec fn joined_addresses(to: Seq<char>, cc: Seq<char>) -> Seq<char> {
    if is_blank(to) && is_blank(cc) {
        seq![]
    } else if is_blank(cc) {
        to
    } else if is_blank(to) {
        cc
    } else {
        to + ", "@ + cc
    }
}

/// The subject of a reply.
pub open spec fn reply_subject(subject: Seq<char>) -> Seq<char> {
    if patch::is_reply(subject) {
        subject
    } else {
        "Re: "@ + subject
    }
}

/// A line of a header, left out where its value is empty.
pub open spec fn optional_line(name: Seq<char>, value: Seq<char>) -> Seq<char> {
    if value.len() == 0 {
        seq![]
    } else {
        name + ": "@ + value + seq!['\n']
    }
}

/// One line of a quotation.
pub open spec fn quoted_line(line: Seq<char>) -> Seq<char> {
    if line.len() == 0 {
        seq!['>', '\n']
    } else {
        seq!['>', ' '] + line + seq!['\n']
    }
}

/// Lines, quoted.
pub open spec fn quoted(lines: Seq<Seq<char>>) -> Seq<char>
    decreases lines.len(),
{
    if lines.len() == 0 {
        seq![]
    } else {
        quoted(lines.drop_last()) + quoted_line(lines.last())
    }
}

/// The headers of the draft of a reply, each with its line end.
pub open spec fn draft_headers(mail: MailView) -> Seq<char> {
    let cc = decoded_header(header::headers_of(mail.raw), "Cc"@);
    "Subject: "@ + reply_subject(mail.subject) + "\nTo: "@ + mail.from + seq!['\n'] + optional_line(
        "Cc"@,
        joined_addresses(mail.to, cc),
    ) + optional_line("In-Reply-To"@, mail.message_id)
}

/// The draft of a reply to a mail that was sent on the given date.
pub open spec fn draft_text(mail: MailView, date: Seq<char>) -> Seq<char> {
    draft_headers(mail) + "\nOn "@ + date + ", "@ + mail.author + " wrote:\n\n"@ + quoted(
        text::lines_of(body_text(mail.raw)),
    )
}

/// What may be shown as the date of a mail: a time in the local time zone, or a
/// dash where the mail has no date.
pub open spec fn shows_date(date: Option<((int, int), int)>, shown: Seq<char>) -> bool {
    match date {
        Some(d) => time::is_local_time(d.0, shown),
        None => shown == "-"@,
    }
}

/// The mails that were read, each tagged with the commit it was read at. A commit
/// without a mail is left out.
pub open spec fn mails_read(
    epoch: u32,
    commits: Seq<Seq<char>>,
    blobs: Seq<Option<Seq<char>>>,
) -> Seq<MailView>
    decreases blobs.len(),
{
    if commits.len() == 0 || blobs.len() == 0 {
        seq![]
    } else {
        let rest = mails_read(epoch, commits.drop_first(), blobs.drop_first());
        match blobs[0] {
            Some(raw) => seq![mail_of(raw, epoch, commits[0])] + rest,
            None => rest,
        }
    }
}

/// The mathematical form of what was read at each commit.
pub open spec fn blob_views(blobs: Seq<Option<String>>) -> Seq<Option<Seq<char>>> {
    blobs.map_values(
        |b: Option<String>|
            match b {
                Some(s) => Some(s@),
                None => None,
            },
    )
}

/// Parse the mails that were read at `commits` of an epoch, in the order of the
/// commits. A commit whose mail could not be read is skipped.
pub fn read(epoch: u32, commits: &Vec<String>, blobs: &Vec<Option<String>>) -> (r: Vec<Mail>)
    ensures
        mail_views(r@) == mails_read(epoch, text::strings(commits@), blob_views(blobs@)),
{
    let mut out: Vec<Mail> = Vec::new();
    let ghost cs = text::strings(commits@);
    let ghost bs = blob_views(blobs@);
    let mut i: usize = 0;
    proof {
        assert(cs.skip(0) =~= cs);
        assert(bs.skip(0) =~= bs);
        assert(mail_views(out@) + mails_read(epoch, cs, bs) =~= mails_read(epoch, cs, bs));
    }
    while i < commits.len() && i < blobs.len()
        invariant
            cs == text::strings(commits@),
            bs == blob_views(blobs@),
            i <= commits@.len(),
            i <= blobs@.len(),
            mails_read(epoch, cs, bs) == mail_views(out@) + mails_read(
                epoch,
                cs.skip(i as int),
                bs.skip(i as int),
            ),
        decreases commits@.len() - i,
    {
        let ghost before = mail_views(out@);
        let ghost rest = mails_read(epoch, cs.skip(i + 1), bs.skip(i + 1));
        assert(cs.skip(i as int).drop_first() =~= cs.skip(i + 1));
        assert(bs.skip(i as int).drop_first() =~= bs.skip(i + 1));
        match &blobs[i] {
            Some(raw) => {
                out.push(Mail::new(raw.clone(), epoch, commits[i].clone()));
                proof {
                    let m = out@.last()@;
                    assert(mail_views(out@) =~= before.push(m));
                    assert(before.push(m) + rest =~= before + (seq![m] + rest));
                }
            },
            None => {},
        }
        i = i + 1;
    }
    assert(mail_views(out@) + Seq::<MailView>::empty() =~= mail_views(out@));
    out
}

/// The value of a header, its encoded words decoded; empty where it is missing.
fn decode_header(headers: &str, name: &str) -> (r: String)
    ensures
        r@ == decoded_header(headers@, name@),
{
    match header::parse_header(headers, name) {
        Some(v) => encoding::decode_mime_header(v.as_str()),
        None => String::new(),
    }
}

/// Append the line that shows a header, if the mail has it.
fn push_field(out: &mut String, headers: &str, name: &str)
    ensures
        final(out)@ == old(out)@ + field_line(headers@, name@),
{
    match header::parse_header(headers, name) {
        Some(v) => {
            out.push_str(name);
            out.push_str(": ");
            out.push_str(encoding::decode_mime_header(v.as_str()).as_str());
            out.push('\n');
        },
        None => {},
    }
    assert(out@ =~= old(out)@ + field_line(headers@, name@));
}

/// Append a line of a header, unless its value is empty.
fn push_optional(out: &mut String, name: &str, value: &str)
    ensures
        final(out)@ == old(out)@ + optional_line(name@, value@),
{
    if !value.is_empty() {
        out.push_str(name);
        out.push_str(": ");
        out.push_str(value);
        out.push('\n');
    }
    assert(out@ =~= old(out)@ + optional_line(name@, value@));
}

/// Whether `s` is nothing but white space.
fn blank(s: &str) -> (r: bool)
    ensures
        r == is_blank(s@),
{
    let chars = text::chars_of(s);
    text::trim(chars.as_slice()).len() == 0
}

/// Both lists of addresses in one, without those that are blank.
fn join_addresses(to: &str, cc: &str) -> (r: String)
    ensures
        r@ == joined_addresses(to@, cc@),
{
    let mut out = String::new();
    if !blank(to) {
        out.push_str(to);
        if !blank(cc) {
            out.push_str(", ");
            out.push_str(cc);
        }
    } else if !blank(cc) {
        out.push_str(cc);
    }
    assert(out@ =~= joined_addresses(to@, cc@));
    out
}

impl Mail {
    /// Parse raw mail text into a mail, tagged with the mirror `epoch` and `commit`
    /// it came from. Subject, From and To are MIME-decoded; the Message-ID is kept
    /// verbatim.
    pub fn new(raw: String, epoch: u32, commit: String) -> (r: Mail)
        ensures
            r@ == mail_of(raw@, epoch, commit@),
    {
        let (headers, _body) = header::split_headers(raw.as_str());
        let subject = decode_header(headers, "Subject");
        let from = decode_header(headers, "From");
        let to = decode_header(headers, "To");
        let message_id = match header::parse_header(headers, "Message-ID") {
            Some(v) => v,
            None => String::new(),
        };
        let chain = match header::parse_header(headers, "References") {
            Some(v) => v,
            None => String::new(),
        };
        let chain_chars = text::chars_of(chain.as_str());
        let ids = text::split_whitespace(chain_chars.as_slice());
        let mut references: Vec<String> = Vec::new();
        for i in 0..ids.len()
            invariant
                references@.len() == i,
                forall|j: int| 0 <= j < i ==> #[trigger] references@[j]@ == ids@[j]@,
        {
            references.push(text::string_of(ids[i].as_slice()));
        }
        assert(text::strings(references@) =~= text::rows(ids@));
        let in_reply_to = match header::parse_header(headers, "In-Reply-To") {
            Some(v) => v,
            None => {
                if references.len() > 0 {
                    assert(text::strings(references@).last() == references@.last()@);
                    references[references.len() - 1].clone()
                } else {
                    String::new()
                }
            },
        };
        let date = match header::parse_header(headers, "Date") {
            Some(v) => time::parse_rfc_date(v.as_str()),
            None => None,
        };
        let author = header::pretty_from(from.as_str());
        let sender = header::parse_sender(from.as_str());
        let patch_tag = patch::parse_patch_tag(subject.as_str());
        Mail {
            raw,
            subject,
            from,
            author,
            sender,
            to,
            date,
            message_id,
            in_reply_to,
            references,
            patch_tag,
            epoch,
            commit,
        }
    }

    /// The `Date` header formatted for display in the local time zone, or `-` when
    /// the mail states none. Rendering every mail in one zone (rather than its own
    /// offset) makes a date-sorted list read monotonically.
    pub fn date_str(&self) -> (r: String)
        ensures
            shows_date(self@.date, r@),
    {
        match self.date {
            Some(d) => time::format_local(d.at.secs(), d.at.nanos(), time::LOCAL_FORMAT),
            None => {
                let mut out = String::new();
                out.push_str("-");
                assert(out@ =~= "-"@);
                out
            },
        }
    }

    /// Render the mail as plain text: a fixed set of headers followed by the decoded
    /// body.
    pub fn render_full(&self) -> (r: String)
        ensures
            r@ == full_text(self@.raw),
    {
        let (headers, _body) = header::split_headers(self.raw.as_str());
        let mut out = String::new();
        push_field(&mut out, headers, "From");
        push_field(&mut out, headers, "Date");
        push_field(&mut out, headers, "Subject");
        push_field(&mut out, headers, "To");
        push_field(&mut out, headers, "Cc");
        push_field(&mut out, headers, "Message-ID");
        out.push_str("\n--\n\n");
        out.push_str(self.body().as_str());
        assert(out@ =~= full_text(self@.raw));
        out
    }

    /// The body, decoded according to `Content-Transfer-Encoding`. A body that is said
    /// to be base64 and holds anything else before its padding is left as it is; what
    /// follows the padding, the plain text of a list's footer, say, is dropped.
    pub fn body(&self) -> (r: String)
        ensures
            r@ == body_text(self@.raw),
    {
        let (headers, body) = header::split_headers(self.raw.as_str());
        let transfer = match header::parse_header(headers, "Content-Transfer-Encoding") {
            Some(v) => v,
            None => String::new(),
        };
        let transfer_chars = text::chars_of(transfer.as_str());
        let lower = text::to_ascii_lower(transfer_chars.as_slice());
        let encoding_name = text::trim(lower.as_slice());
        let quoted_printable = text::chars_of("quoted-printable");
        if text::same(encoding_name, quoted_printable.as_slice()) {
            return encoding::decode_quoted_printable(body);
        }
        let base64 = text::chars_of("base64");
        if text::same(encoding_name, base64.as_slice()) {
            if let Some(decoded) = encoding::decode_base64(body) {
                return unicode::from_utf8_lossy(decoded.as_slice());
            }
        }
        body.to_owned()
    }

    /// An mbox draft of a reply to this mail: the sender becomes `To`, the original
    /// `To` and `Cc` become `Cc`, `In-Reply-To` threads it, and the body is quoted
    /// under an attribution line.
    ///
    /// `From` and `Message-ID` are deliberately absent: whoever sends the draft
    /// fills them in from the user's own identity, so no account information has to
    /// pass through here.
    pub fn reply_draft(&self) -> (r: String)
        ensures
            exists|date: Seq<char>|
                shows_date(self@.date, date) && r@ == #[trigger] draft_text(self@, date),
    {
        let date = self.date_str();
        self.reply_draft_dated(date.as_str())
    }

    /// The draft of a reply, with the date in its attribution line given.
    pub fn reply_draft_dated(&self, date: &str) -> (r: String)
        ensures
            r@ == draft_text(self@, date@),
    {
        let (headers, _body) = header::split_headers(self.raw.as_str());
        let orig_cc = decode_header(headers, "Cc");
        let cc = join_addresses(self.to.as_str(), orig_cc.as_str());
        let subject = text::chars_of(self.subject.as_str());
        let mut out = String::new();
        out.push_str("Subject: ");
        let ghost s0 = out@;
        if !patch::starts_with_re(subject.as_slice()) {
            out.push_str("Re: ");
        }
        out.push_str(self.subject.as_str());
        assert(out@ =~= s0 + reply_subject(self@.subject));
        out.push_str("\nTo: ");
        out.push_str(self.from.as_str());
        out.push('\n');
        push_optional(&mut out, "Cc", cc.as_str());
        push_optional(&mut out, "In-Reply-To", self.message_id.as_str());
        assert(out@ =~= draft_headers(self@));
        out.push_str("\nOn ");
        out.push_str(date);
        out.push_str(", ");
        out.push_str(self.author.as_str());
        out.push_str(" wrote:\n\n");
        let ghost head = out@;
        let body = self.body();
        let chars = text::chars_of(body.as_str());
        let lines = text::lines(chars.as_slice());
        let ghost all = text::lines_of(body@);
        assert(quoted(all.take(0)) =~= Seq::<char>::empty());
        assert(out@ =~= head + quoted(all.take(0)));
        for i in 0..lines.len()
            invariant
                text::rows(lines@) == all,
                out@ == head + quoted(all.take(i as int)),
        {
            let ghost before = out@;
            let line: &[char] = lines[i].as_slice();
            out.push('>');
            if line.len() > 0 {
                out.push(' ');
            }
            out.push_str(text::string_of(line).as_str());
            out.push('\n');
            proof {
                assert(all.take(i + 1).drop_last() =~= all.take(i as int));
                assert(all.take(i + 1).last() == line@);
                assert(out@ =~= before + quoted_line(line@));
                assert(out@ =~= head + quoted(all.take(i + 1)));
            }
        }
        assert(all.take(all.len() as int) =~= all);
        assert(out@ =~= draft_text(self@, date@));
        out
    }
}

/// Text that was sent in base64, or with every byte escaped in quoted-printable, is what
/// the body is read as.
pub proof fn law_encoded_bodies_read_back(raw: Seq<char>, t: Seq<char>)
    requires
        ({
            let bytes = vstd::utf8::encode_utf8(t);
            ||| transfer_encoding(raw) == "base64"@ && header::body_of(raw)
                == encoding::ascii_text(encoding::base64_text(bytes))
            ||| transfer_encoding(raw) == "quoted-printable"@ && header::body_of(raw)
                == encoding::ascii_text(encoding::escaped(bytes))
        }),
    ensures
        body_text(raw) == t,
{
    broadcast use vstd::utf8::encode_utf8_valid_utf8, vstd::utf8::encode_utf8_decode_utf8;

    let bytes = vstd::utf8::encode_utf8(t);
    reveal_strlit("base64");
    reveal_strlit("quoted-printable");
    assert("base64"@.len() != "quoted-printable"@.len());
    assert(unicode::utf8_lossy(bytes) == t);
    encoding::lemma_encoded_text(bytes);
    encoding::law_base64_reads_back(bytes);
    encoding::law_escapes_read_back(bytes);
}

/// A body of no known transfer encoding stands as it is.
pub proof fn law_plain_bodies_are_kept(raw: Seq<char>)
    requires
        transfer_encoding(raw) != "base64"@,
        transfer_encoding(raw) != "quoted-printable"@,
    ensures
        body_text(raw) == header::body_of(raw),
{
}

// The draft as a mail

/// Lines, each with its line end.
pub open spec fn unlines(lines: Seq<Seq<char>>) -> Seq<char>
    decreases lines.len(),
{
    if lines.len() == 0 {
        seq![]
    } else {
        lines[0] + seq!['\n'] + unlines(lines.drop_first())
    }
}

/// `s` holds no line end.
pub open spec fn on_one_line(s: Seq<char>) -> bool {
    forall|i: int| 0 <= i < s.len() ==> #[trigger] s[i] != '\n' && s[i] != '\r'
}

/// None of the lines is empty or holds a line end.
pub open spec fn are_lines(lines: Seq<Seq<char>>) -> bool {
    forall|i: int| 0 <= i < lines.len() ==> (#[trigger] lines[i]).len() > 0 && on_one_line(lines[i])
}

/// Lines that are put together, but for the last line end, are taken apart again.
proof fn lemma_lines_read_back(lines: Seq<Seq<char>>)
    requires
        lines.len() > 0,
        are_lines(lines),
    ensures
        unlines(lines).len() > 0,
        unlines(lines).last() == '\n',
        unlines(lines)[0] == lines[0][0],
        text::lines_of(unlines(lines).drop_last()) == lines,
        forall|j: int|
            0 <= j < unlines(lines).len() - 1 && #[trigger] unlines(lines)[j] == '\n'
                ==> unlines(lines)[j + 1] != '\n',
        forall|j: int| 0 <= j < unlines(lines).len() ==> #[trigger] unlines(lines)[j] != '\r',
    decreases lines.len(),
{
    let first = lines[0];
    let rest = lines.drop_first();
    let s = unlines(lines);
    let n = first.len() as int;
    assert(s[n] == '\n');
    assert forall|j: int| 0 <= j < n implies s[j] == first[j] by {}
    if rest.len() == 0 {
        assert(unlines(rest) =~= Seq::<char>::empty());
        assert(s =~= first + seq!['\n']);
        assert(s.drop_last() =~= first);
        text::lemma_find_char(first, '\n');
        assert(text::lines_of(first) =~= seq![first]);
        assert(lines =~= seq![first]);
    } else {
        assert forall|i: int| 0 <= i < rest.len() implies (#[trigger] rest[i]).len() > 0
            && on_one_line(rest[i]) by {
            assert(rest[i] == lines[i + 1]);
        }
        lemma_lines_read_back(rest);
        let r = unlines(rest);
        assert(s =~= first + seq!['\n'] + r);
        let t = s.drop_last();
        assert(t[n] == '\n');
        assert forall|j: int| 0 <= j < n implies t[j] != '\n' by {
            assert(t[j] == first[j]);
        }
        text::lemma_char_is_first(t, '\n', n);
        assert(t.take(n) =~= first);
        assert(t.skip(n + 1) =~= r.drop_last());
        assert(text::without_cr(first) == first);
        assert(seq![first] + rest =~= lines);
        assert forall|j: int| 0 <= j < s.len() - 1 && #[trigger] s[j] == '\n' implies s[j + 1]
            != '\n' by {
            if j == n {
                assert(s[j + 1] == r[0]);
                assert(r[0] == rest[0][0]);
            } else if j > n {
                assert(s[j] == r[j - n - 1]);
                assert(s[j + 1] == r[j - n]);
            }
        }
        assert forall|j: int| 0 <= j < s.len() implies #[trigger] s[j] != '\r' by {
            if j > n {
                assert(s[j] == r[j - n - 1]);
            }
        }
    }
}

/// Text that is made of lines, a blank line and more is parted there.
proof fn lemma_lines_are_headers(lines: Seq<Seq<char>>, body: Seq<char>)
    requires
        lines.len() > 0,
        are_lines(lines),
    ensures
        header::headers_of(unlines(lines) + seq!['\n'] + body) == unlines(lines).drop_last(),
        header::body_of(unlines(lines) + seq!['\n'] + body) == body,
{
    let h = unlines(lines);
    let raw = h + seq!['\n'] + body;
    let at = h.len() - 1;
    let lf = header::lf_blank();
    let crlf = header::crlf_blank();
    lemma_lines_read_back(lines);
    assert(raw[at] == '\n');
    assert(raw[at + 1] == '\n');
    assert(raw.subrange(at, at + 2) =~= lf);
    assert forall|j: int| 0 <= j < at implies !#[trigger] text::occurs_at(raw, lf, j) by {
        if text::occurs_at(raw, lf, j) {
            assert(raw.subrange(j, j + 2)[0] == raw[j]);
            assert(raw.subrange(j, j + 2)[1] == raw[j + 1]);
            assert(raw[j] == h[j]);
            assert(raw[j + 1] == h[j + 1]);
        }
    }
    text::lemma_match_is_first(raw, lf, 0, at);
    text::lemma_first_match(raw, crlf, 0);
    if let Some(i) = text::find_in(raw, crlf) {
        if i <= at {
            assert(raw.subrange(i, i + 4)[0] == raw[i]);
            assert(raw[i] == h[i]);
        }
    }
    assert(raw.take(at) =~= h.drop_last());
    assert(raw.skip(at + 2) =~= body);
}

/// A line that states a header.
pub open spec fn header_line(name: Seq<char>, value: Seq<char>) -> Seq<char> {
    name + seq![':', ' '] + value
}

/// The name of a header line, in lower case, is what it is found by.
proof fn lemma_header_line(name: Seq<char>, value: Seq<char>)
    requires
        forall|i: int| 0 <= i < name.len() ==> #[trigger] name[i] != ':',
    ensures
        text::find_char_in(header_line(name, value), ':') == Some(name.len() as int),
        header_line(name, value).take(name.len() as int) == name,
        text::trimmed(header_line(name, value).skip(name.len() as int + 1)) == text::trimmed(value),
{
    let line = header_line(name, value);
    let n = name.len() as int;
    assert(line[n] == ':');
    assert forall|j: int| 0 <= j < n implies line[j] != ':' by {
        assert(line[j] == name[j]);
    }
    text::lemma_char_is_first(line, ':', n);
    assert(line.take(n) =~= name);
    let none = Seq::<char>::empty();
    assert(line.skip(n + 1) =~= seq![' '] + value + none);
    text::law_trim_ignores_surrounding_space(seq![' '], value, none);
}

/// A name of a header: ASCII letters and hyphens.
spec fn is_name(s: Seq<char>) -> bool {
    s.len() > 0 && forall|i: int|
        0 <= i < s.len() ==> ('a' <= #[trigger] s[i] <= 'z') || ('A' <= s[i] <= 'Z') || s[i] == '-'
}

proof fn lemma_is_name(s: Seq<char>)
    requires
        is_name(s),
    ensures
        vstd::utf8::is_ascii_chars(s),
        unicode::lowercase(s) == text::ascii_lowered(s),
        on_one_line(s),
        forall|i: int| 0 <= i < s.len() ==> #[trigger] s[i] != ':',
        !text::is_space(s[0]),
{
}

/// The names that a draft states and those that it leaves out.
proof fn lemma_draft_names()
    ensures
        is_name("Subject"@) && text::ascii_lowered("Subject"@).len() == 7,
        is_name("To"@) && text::ascii_lowered("To"@).len() == 2 && text::ascii_lowered("To"@)[0]
            == 't',
        is_name("Cc"@) && text::ascii_lowered("Cc"@).len() == 2 && text::ascii_lowered("Cc"@)[0]
            == 'c',
        is_name("In-Reply-To"@) && text::ascii_lowered("In-Reply-To"@).len() == 11,
        is_name("From"@) && text::ascii_lowered("From"@).len() == 4,
        is_name("Message-ID"@) && text::ascii_lowered("Message-ID"@).len() == 10,
{
    reveal_strlit("Subject");
    reveal_strlit("To");
    reveal_strlit("Cc");
    reveal_strlit("In-Reply-To");
    reveal_strlit("From");
    reveal_strlit("Message-ID");
}

/// The lines of the draft's headers.
pub open spec fn draft_lines(mail: MailView) -> Seq<Seq<char>> {
    let cc = joined_addresses(mail.to, decoded_header(header::headers_of(mail.raw), "Cc"@));
    seq![
        header_line("Subject"@, reply_subject(mail.subject)),
        header_line("To"@, mail.from),
    ] + (if cc.len() > 0 {
        seq![header_line("Cc"@, cc)]
    } else {
        seq![]
    }) + (if mail.message_id.len() > 0 {
        seq![header_line("In-Reply-To"@, mail.message_id)]
    } else {
        seq![]
    })
}

/// What follows the headers of a draft.
pub open spec fn draft_body(mail: MailView, date: Seq<char>) -> Seq<char> {
    seq!['O', 'n', ' '] + date + ", "@ + mail.author + " wrote:\n\n"@ + quoted(
        text::lines_of(body_text(mail.raw)),
    )
}

/// The headers that the draft takes over stand on one line each.
pub open spec fn has_plain_fields(mail: MailView) -> bool {
    &&& on_one_line(mail.subject)
    &&& on_one_line(mail.from)
    &&& on_one_line(mail.to)
    &&& on_one_line(decoded_header(header::headers_of(mail.raw), "Cc"@))
    &&& on_one_line(mail.message_id)
}

proof fn lemma_joined_lines(a: Seq<char>, b: Seq<char>)
    requires
        on_one_line(a),
        on_one_line(b),
    ensures
        on_one_line(a + b),
{
    assert forall|i: int| 0 <= i < (a + b).len() implies #[trigger] (a + b)[i] != '\n' && (a + b)[i]
        != '\r' by {
        if i < a.len() {
            assert((a + b)[i] == a[i]);
        } else {
            assert((a + b)[i] == b[i - a.len()]);
        }
    }
}

proof fn lemma_plain_line(name: Seq<char>, value: Seq<char>)
    requires
        is_name(name),
        on_one_line(value),
    ensures
        header_line(name, value).len() > 0,
        on_one_line(header_line(name, value)),
        !header::is_continuation(header_line(name, value)),
{
    lemma_is_name(name);
    assert(on_one_line(seq![':', ' ']));
    lemma_joined_lines(name, seq![':', ' ']);
    lemma_joined_lines(name + seq![':', ' '], value);
    assert(header_line(name, value)[0] == name[0]);
}

/// What the draft's lines are made of stands on one line.
proof fn lemma_plain_values(mail: MailView)
    requires
        has_plain_fields(mail),
    ensures
        on_one_line(reply_subject(mail.subject)),
        on_one_line(
            joined_addresses(mail.to, decoded_header(header::headers_of(mail.raw), "Cc"@)),
        ),
{
    reveal_strlit("Re: ");
    reveal_strlit(", ");
    let orig = decoded_header(header::headers_of(mail.raw), "Cc"@);
    assert(on_one_line("Re: "@));
    assert(on_one_line(", "@));
    lemma_joined_lines("Re: "@, mail.subject);
    lemma_joined_lines(mail.to, ", "@);
    lemma_joined_lines(mail.to + ", "@, orig);
}

/// The draft's header lines are lines, none of which continues another.
proof fn lemma_draft_lines(mail: MailView)
    requires
        has_plain_fields(mail),
    ensures
        are_lines(draft_lines(mail)),
        forall|i: int|
            0 <= i < draft_lines(mail).len() ==> !header::is_continuation(
                #[trigger] draft_lines(mail)[i],
            ),
{
    let cc = joined_addresses(mail.to, decoded_header(header::headers_of(mail.raw), "Cc"@));
    lemma_draft_names();
    lemma_plain_values(mail);
    lemma_plain_line("Subject"@, reply_subject(mail.subject));
    lemma_plain_line("To"@, mail.from);
    lemma_plain_line("Cc"@, cc);
    lemma_plain_line("In-Reply-To"@, mail.message_id);
}

/// An optional header line is the lines of what may be there.
proof fn lemma_optional_lines(name: Seq<char>, value: Seq<char>, rest: Seq<Seq<char>>)
    ensures
        unlines(
            (if value.len() > 0 {
                seq![header_line(name, value)]
            } else {
                seq![]
            }) + rest,
        ) == optional_line(name, value) + unlines(rest),
{
    reveal_strlit(": ");
    if value.len() > 0 {
        let all = seq![header_line(name, value)] + rest;
        assert(all.drop_first() =~= rest);
        assert(": "@ =~= seq![':', ' ']);
    } else {
        assert(Seq::<Seq<char>>::empty() + rest =~= rest);
        assert(Seq::<char>::empty() + unlines(rest) =~= unlines(rest));
    }
}

/// The draft's headers are its header lines.
proof fn lemma_draft_headers(mail: MailView)
    ensures
        draft_headers(mail) == unlines(draft_lines(mail)),
{
    let cc = joined_addresses(mail.to, decoded_header(header::headers_of(mail.raw), "Cc"@));
    let id = mail.message_id;
    let subject = reply_subject(mail.subject);
    let l1 = header_line("Subject"@, subject);
    let l2 = header_line("To"@, mail.from);
    let none = Seq::<Seq<char>>::empty();
    let e4: Seq<Seq<char>> = if id.len() > 0 {
        seq![header_line("In-Reply-To"@, id)]
    } else {
        seq![]
    };
    let e3: Seq<Seq<char>> = if cc.len() > 0 {
        seq![header_line("Cc"@, cc)]
    } else {
        seq![]
    };
    let lines = draft_lines(mail);
    let tail = e3 + e4;
    assert(unlines(none) =~= Seq::<char>::empty());
    lemma_optional_lines("In-Reply-To"@, id, none);
    assert(e4 + none =~= e4);
    lemma_optional_lines("Cc"@, cc, e4);
    let o3 = optional_line("Cc"@, cc);
    let o4 = optional_line("In-Reply-To"@, id);
    assert(unlines(e4) =~= o4);
    assert(unlines(tail) == o3 + o4);
    let after = seq![l2] + tail;
    assert(after.drop_first() =~= tail);
    assert(lines =~= seq![l1] + after);
    assert(lines.drop_first() =~= after);
    assert(unlines(after) == l2 + seq!['\n'] + unlines(tail));
    assert(unlines(lines) == l1 + seq!['\n'] + unlines(after));
    assert(unlines(lines) == l1 + seq!['\n'] + (l2 + seq!['\n'] + (o3 + o4)));
    assert(l1 =~= "Subject: "@ + subject) by {
        reveal_strlit("Subject");
        reveal_strlit("Subject: ");
    }
    assert(seq!['\n'] + l2 =~= "\nTo: "@ + mail.from) by {
        reveal_strlit("To");
        reveal_strlit("\nTo: ");
    }
    let h = draft_headers(mail);
    assert(h =~= "Subject: "@ + subject + ("\nTo: "@ + mail.from) + seq!['\n'] + o3 + o4);
    assert(h =~= l1 + (seq!['\n'] + l2) + seq!['\n'] + o3 + o4);
    assert(h =~= unlines(lines));
}

/// The draft is its header lines, a blank line and its body.
proof fn lemma_draft_is_lines(mail: MailView, date: Seq<char>)
    ensures
        draft_text(mail, date) == unlines(draft_lines(mail)) + seq!['\n'] + draft_body(mail, date),
{
    lemma_draft_headers(mail);
    reveal_strlit("\nOn ");
    assert("\nOn "@ =~= seq!['\n'] + seq!['O', 'n', ' ']);
    let h = draft_headers(mail);
    let rest = date + ", "@ + mail.author + " wrote:\n\n"@ + quoted(
        text::lines_of(body_text(mail.raw)),
    );
    assert(draft_text(mail, date) =~= h + "\nOn "@ + rest);
    assert(draft_body(mail, date) =~= seq!['O', 'n', ' '] + rest);
}

/// Where the first line does not state the header, the others are looked at.
proof fn lemma_skip_line(lines: Seq<Seq<char>>, name: Seq<char>, value: Seq<char>, wanted: Seq<char>)
    requires
        lines.len() > 0,
        lines[0] == header_line(name, value),
        is_name(name),
        is_name(wanted),
        text::ascii_lowered(name) != text::ascii_lowered(wanted),
    ensures
        header::header_in(lines, unicode::lowercase(wanted)) == header::header_in(
            lines.drop_first(),
            unicode::lowercase(wanted),
        ),
{
    lemma_is_name(name);
    lemma_is_name(wanted);
    lemma_header_line(name, value);
}

/// Where the first line states the header and the next does not continue it, its value
/// is found.
proof fn lemma_find_line(lines: Seq<Seq<char>>, name: Seq<char>, value: Seq<char>)
    requires
        lines.len() > 0,
        lines[0] == header_line(name, value),
        is_name(name),
        lines.len() > 1 ==> !header::is_continuation(lines[1]),
    ensures
        header::header_in(lines, unicode::lowercase(name)) == Some(text::trimmed(value)),
{
    lemma_is_name(name);
    lemma_header_line(name, value);
    let rest = lines.drop_first();
    if rest.len() > 0 {
        assert(rest[0] == lines[1]);
    }
}

/// A draft of a reply is a mail of its own: the subject is that of a reply, the sender
/// becomes `To`, the recipients become `Cc`, `In-Reply-To` threads it, and the quotation
/// is its body. It has neither `From` nor `Message-ID`: whoever sends it fills them in.
pub proof fn law_draft_is_addressed_and_threaded(mail: MailView, date: Seq<char>)
    requires
        has_plain_fields(mail),
    ensures
        ({
            let headers = header::headers_of(draft_text(mail, date));
            let cc = joined_addresses(
                mail.to,
                decoded_header(header::headers_of(mail.raw), "Cc"@),
            );
            &&& header::header_value(headers, "Subject"@) == Some(
                text::trimmed(reply_subject(mail.subject)),
            )
            &&& header::header_value(headers, "To"@) == Some(text::trimmed(mail.from))
            &&& header::header_value(headers, "Cc"@) == if cc.len() > 0 {
                Some(text::trimmed(cc))
            } else {
                None
            }
            &&& header::header_value(headers, "In-Reply-To"@) == if mail.message_id.len() > 0 {
                Some(text::trimmed(mail.message_id))
            } else {
                None
            }
            &&& header::header_value(headers, "From"@) is None
            &&& header::header_value(headers, "Message-ID"@) is None
        }),
        header::body_of(draft_text(mail, date)) == draft_body(mail, date),
{
    let lines = draft_lines(mail);
    let cc = joined_addresses(mail.to, decoded_header(header::headers_of(mail.raw), "Cc"@));
    let subject = reply_subject(mail.subject);
    lemma_draft_lines(mail);
    lemma_draft_is_lines(mail, date);
    lemma_lines_are_headers(lines, draft_body(mail, date));
    lemma_lines_read_back(lines);
    lemma_draft_names();
    let headers = header::headers_of(draft_text(mail, date));
    assert(text::lines_of(headers) == lines);
    let r1 = lines.drop_first();
    let r2 = r1.drop_first();
    let r3 = r2.drop_first();
    let has_cc = cc.len() > 0;
    let has_id = mail.message_id.len() > 0;
    let last = if has_cc {
        r3
    } else {
        r2
    };
    assert(lines[0] == header_line("Subject"@, subject));
    assert(r1[0] == lines[1] && r1[0] == header_line("To"@, mail.from));
    if r1.len() > 1 {
        assert(r1[1] == lines[2]);
    }
    if has_cc {
        assert(r2[0] == lines[2] && r2[0] == header_line("Cc"@, cc));
        if r2.len() > 1 {
            assert(r2[1] == lines[3]);
        }
    }
    if has_id {
        assert(last.len() == 1);
        assert(last[0] == header_line("In-Reply-To"@, mail.message_id));
    } else {
        assert(last.len() == 0);
    }
    lemma_find_line(lines, "Subject"@, subject);
    lemma_skip_line(lines, "Subject"@, subject, "To"@);
    lemma_find_line(r1, "To"@, mail.from);
    lemma_skip_line(lines, "Subject"@, subject, "Cc"@);
    lemma_skip_line(r1, "To"@, mail.from, "Cc"@);
    lemma_skip_line(lines, "Subject"@, subject, "In-Reply-To"@);
    lemma_skip_line(r1, "To"@, mail.from, "In-Reply-To"@);
    lemma_skip_line(lines, "Subject"@, subject, "From"@);
    lemma_skip_line(r1, "To"@, mail.from, "From"@);
    lemma_skip_line(lines, "Subject"@, subject, "Message-ID"@);
    lemma_skip_line(r1, "To"@, mail.from, "Message-ID"@);
    if has_cc {
        lemma_find_line(r2, "Cc"@, cc);
        lemma_skip_line(r2, "Cc"@, cc, "In-Reply-To"@);
        lemma_skip_line(r2, "Cc"@, cc, "From"@);
        lemma_skip_line(r2, "Cc"@, cc, "Message-ID"@);
    }
    if has_id {
        lemma_find_line(last, "In-Reply-To"@, mail.message_id);
        lemma_skip_line(last, "In-Reply-To"@, mail.message_id, "Cc"@);
        lemma_skip_line(last, "In-Reply-To"@, mail.message_id, "From"@);
        lemma_skip_line(last, "In-Reply-To"@, mail.message_id, "Message-ID"@);
        assert(last.drop_first().len() == 0);
    }
}

/// A draft leaves no recipient out: the list that the mail was sent to and the list that got
/// copies become `Cc`, each as it stands, with a comma between where there are both. Only
/// where both are blank is there no `Cc`.
pub proof fn law_draft_leaves_no_recipient_out(mail: MailView, date: Seq<char>)
    requires
        has_plain_fields(mail),
    ensures
        ({
            let copies = match header::header_value(header::headers_of(mail.raw), "Cc"@) {
                Some(v) => encoding::mime_text(v, false),
                None => seq![],
            };
            let sent = text::trimmed(mail.to).len() > 0;
            let copied = text::trimmed(copies).len() > 0;
            let cc = header::header_value(header::headers_of(draft_text(mail, date)), "Cc"@);
            &&& sent && !copied ==> cc == Some(text::trimmed(mail.to))
            &&& !sent && copied ==> cc == Some(text::trimmed(copies))
            &&& sent && copied ==> cc == Some(text::trimmed(mail.to + seq![',', ' '] + copies))
            &&& !sent && !copied ==> cc is None
        }),
{
    law_draft_is_addressed_and_threaded(mail, date);
    reveal_strlit(", ");
    assert(", "@ =~= seq![',', ' ']);
    let none = Seq::<char>::empty();
    assert(text::trimmed(none).len() == 0);
}

/// The subject of a draft is that of the mail, where that is a reply's, in upper or lower
/// case; otherwise it is marked as a reply's.
pub proof fn law_draft_answers_the_subject(mail: MailView, date: Seq<char>)
    requires
        has_plain_fields(mail),
    ensures
        ({
            let reply = mail.subject.len() >= 3 && text::ascii_lowered(mail.subject.take(3)) == seq![
                'r',
                'e',
                ':',
            ];
            header::header_value(header::headers_of(draft_text(mail, date)), "Subject"@) == Some(
                text::trimmed(
                    if reply {
                        mail.subject
                    } else {
                        seq!['R', 'e', ':', ' '] + mail.subject
                    },
                ),
            )
        }),
{
    law_draft_is_addressed_and_threaded(mail, date);
    reveal_strlit("Re: ");
    assert("Re: "@ =~= seq!['R', 'e', ':', ' ']);
    if mail.subject.len() >= 3 {
        assert(text::ascii_lowered(mail.subject).subrange(0, 3) =~= text::ascii_lowered(
            mail.subject.take(3),
        ));
    }
}

/// A draft quotes the whole body under a line that says who wrote it and when: every line
/// of it is there, in order, after a mark, with a space where the line is not empty.
pub proof fn law_draft_quotes_the_body(mail: MailView, date: Seq<char>)
    requires
        has_plain_fields(mail),
    ensures
        header::body_of(draft_text(mail, date)) == seq!['O', 'n', ' '] + date + seq![',', ' ']
            + mail.author + seq![' ', 'w', 'r', 'o', 't', 'e', ':', '\n', '\n'] + unlines(
            text::lines_of(body_text(mail.raw)).map_values(
                |line: Seq<char>|
                    if line.len() == 0 {
                        seq!['>']
                    } else {
                        seq!['>', ' '] + line
                    },
            ),
        ),
{
    law_draft_is_addressed_and_threaded(mail, date);
    reveal_strlit(", ");
    reveal_strlit(" wrote:\n\n");
    assert(", "@ =~= seq![',', ' ']);
    assert(" wrote:\n\n"@ =~= seq![' ', 'w', 'r', 'o', 't', 'e', ':', '\n', '\n']);
    lemma_quoted(text::lines_of(body_text(mail.raw)));
}

/// Quoted lines are the lines, each after a mark.
proof fn lemma_quoted(lines: Seq<Seq<char>>)
    ensures
        quoted(lines) == unlines(
            lines.map_values(
                |line: Seq<char>|
                    if line.len() == 0 {
                        seq!['>']
                    } else {
                        seq!['>', ' '] + line
                    },
            ),
        ),
    decreases lines.len(),
{
    let mark = |line: Seq<char>|
        if line.len() == 0 {
            seq!['>']
        } else {
            seq!['>', ' '] + line
        };
    let marked = lines.map_values(mark);
    if lines.len() == 0 {
        assert(marked =~= Seq::<Seq<char>>::empty());
    } else {
        let front = lines.drop_last();
        lemma_quoted(front);
        assert(marked.drop_last() =~= front.map_values(mark));
        assert(marked.last() == mark(lines.last()));
        lemma_unlines_last(marked);
        assert(quoted_line(lines.last()) =~= marked.last() + seq!['\n']);
        assert(quoted(lines) =~= unlines(marked));
    }
}

/// The last line stands after the others.
proof fn lemma_unlines_last(lines: Seq<Seq<char>>)
    requires
        lines.len() > 0,
    ensures
        unlines(lines) == unlines(lines.drop_last()) + (lines.last() + seq!['\n']),
    decreases lines.len(),
{
    let rest = lines.drop_first();
    let none = Seq::<Seq<char>>::empty();
    if rest.len() == 0 {
        assert(rest =~= none);
        assert(lines.drop_last() =~= none);
        assert(unlines(none) =~= Seq::<char>::empty());
        assert(unlines(lines) =~= lines[0] + seq!['\n']);
    } else {
        lemma_unlines_last(rest);
        assert(rest.last() == lines.last());
        assert(lines.drop_last().drop_first() =~= rest.drop_last());
        assert(lines.drop_last()[0] == lines[0]);
        assert(unlines(lines) =~= unlines(lines.drop_last()) + (lines.last() + seq!['\n']));
    }
}

// A mail and its headers

/// What a header says, or nothing where there is none.
pub open spec fn stated_or_empty(fields: Seq<header::Field>, name: Seq<char>) -> Seq<char> {
    match header::stated(fields, name) {
        Some(v) => v,
        None => seq![],
    }
}

/// A mail is what its headers say, whichever way they are folded and whatever stands
/// between them: ids verbatim, references one by one, and what it replies to is
/// `In-Reply-To`, or else the last reference. Subject, sender and recipients are decoded.
pub proof fn law_mail_is_what_its_headers_say(
    fields: Seq<header::Field>,
    crlf: bool,
    body: Seq<char>,
    epoch: u32,
    commit: Seq<char>,
)
    requires
        fields.len() > 0,
        forall|i: int| 0 <= i < fields.len() ==> header::is_field(#[trigger] fields[i]),
    ensures
        ({
            let raw = text::written_lines(header::fields_lines(fields), crlf) + text::line_mark(crlf)
                + body;
            let mail = mail_of(raw, epoch, commit);
            let chain = text::words(stated_or_empty(fields, "References"@));
            &&& mail.raw == raw && mail.epoch == epoch && mail.commit == commit
            &&& mail.message_id == stated_or_empty(fields, "Message-ID"@)
            &&& mail.references == chain
            &&& mail.in_reply_to == match header::stated(fields, "In-Reply-To"@) {
                Some(v) => v,
                None => if chain.len() > 0 {
                    chain[chain.len() - 1]
                } else {
                    seq![]
                },
            }
            &&& mail.subject == encoding::mime_text(stated_or_empty(fields, "Subject"@), false)
            &&& mail.from == encoding::mime_text(stated_or_empty(fields, "From"@), false)
            &&& mail.to == encoding::mime_text(stated_or_empty(fields, "To"@), false)
            &&& mail.author == header::display_name(mail.from)
            &&& mail.sender == header::sender_of(mail.from)
            &&& mail.patch_tag == patch::patch_tag_of(mail.subject)
            &&& mail.date == match header::stated(fields, "Date"@) {
                Some(v) => time::rfc_date(v),
                None => None,
            }
        }),
{
    lemma_mail_names();
    header::law_headers_of_a_mail_read_back(fields, crlf, body, "References"@);
    header::law_headers_of_a_mail_read_back(fields, crlf, body, "Message-ID"@);
    header::law_headers_of_a_mail_read_back(fields, crlf, body, "In-Reply-To"@);
    header::law_headers_of_a_mail_read_back(fields, crlf, body, "Subject"@);
    header::law_headers_of_a_mail_read_back(fields, crlf, body, "From"@);
    header::law_headers_of_a_mail_read_back(fields, crlf, body, "To"@);
    header::law_headers_of_a_mail_read_back(fields, crlf, body, "Date"@);
    let none = Seq::<char>::empty();
    text::lemma_first_match(none, seq!['=', '?'], 0);
    assert(encoding::mime_text(none, false) == none);
}

/// The names of the headers that are read.
proof fn lemma_mail_names()
    ensures
        is_name("References"@) && vstd::utf8::is_ascii_chars("References"@),
        is_name("Message-ID"@) && vstd::utf8::is_ascii_chars("Message-ID"@),
        is_name("In-Reply-To"@) && vstd::utf8::is_ascii_chars("In-Reply-To"@),
        is_name("Subject"@) && vstd::utf8::is_ascii_chars("Subject"@),
        is_name("From"@) && vstd::utf8::is_ascii_chars("From"@),
        is_name("To"@) && vstd::utf8::is_ascii_chars("To"@),
        is_name("Date"@) && vstd::utf8::is_ascii_chars("Date"@),
        is_name("Content-Transfer-Encoding"@) && vstd::utf8::is_ascii_chars(
            "Content-Transfer-Encoding"@,
        ),
{
    reveal_strlit("References");
    reveal_strlit("Message-ID");
    reveal_strlit("In-Reply-To");
    reveal_strlit("Subject");
    reveal_strlit("From");
    reveal_strlit("To");
    reveal_strlit("Date");
    reveal_strlit("Content-Transfer-Encoding");
}

/// The references of a mail are the ids on the lines of its `References`, one after the
/// other: ids on different lines stay apart, and none is lost. Without `In-Reply-To`, the
/// mail replies to the last of them.
pub proof fn law_folded_references_stay_apart(
    before: Seq<header::Field>,
    f: header::Field,
    after: Seq<header::Field>,
    crlf: bool,
    body: Seq<char>,
    epoch: u32,
    commit: Seq<char>,
)
    requires
        forall|i: int| 0 <= i < before.len() ==> header::is_field(#[trigger] before[i]),
        forall|i: int| 0 <= i < after.len() ==> header::is_field(#[trigger] after[i]),
        header::is_field(f),
        f.name == "References"@,
        forall|i: int|
            0 <= i < before.len() ==> text::ascii_lowered(#[trigger] before[i].name)
                != text::ascii_lowered("References"@),
        header::stated(before + seq![f] + after, "In-Reply-To"@) is None,
    ensures
        ({
            let fields = before + seq![f] + after;
            let raw = text::written_lines(header::fields_lines(fields), crlf) + text::line_mark(crlf)
                + body;
            let mail = mail_of(raw, epoch, commit);
            let ids = text::words(f.first) + header::words_of_lines(f.more);
            &&& mail.references == ids
            &&& ids.len() > 0 ==> mail.in_reply_to == ids[ids.len() - 1]
            &&& ids.len() == 0 ==> mail.in_reply_to == Seq::<char>::empty()
        }),
{
    let fields = before + seq![f] + after;
    assert forall|i: int| 0 <= i < fields.len() implies header::is_field(#[trigger] fields[i]) by {
        if i < before.len() {
            assert(fields[i] == before[i]);
        } else if i > before.len() {
            assert(fields[i] == after[i - before.len() - 1]);
        }
    }
    law_mail_is_what_its_headers_say(fields, crlf, body, epoch, commit);
    header::lemma_stated_after(before, f, after, "References"@);
    header::law_folded_words_stay_apart(f);
}

/// The transfer encoding that a mail's headers state decides how its body is read, in upper
/// or lower case and with white space around it: text that was sent in base64 or in
/// quoted-printable is read back, and a body of any other encoding stands as it is.
pub proof fn law_transfer_encoding_decides(
    fields: Seq<header::Field>,
    crlf: bool,
    body: Seq<char>,
    t: Seq<char>,
)
    requires
        fields.len() > 0,
        forall|i: int| 0 <= i < fields.len() ==> header::is_field(#[trigger] fields[i]),
    ensures
        ({
            let raw = text::written_lines(header::fields_lines(fields), crlf) + text::line_mark(crlf)
                + body;
            let stated = text::trimmed(
                text::ascii_lowered(stated_or_empty(fields, "Content-Transfer-Encoding"@)),
            );
            let bytes = vstd::utf8::encode_utf8(t);
            &&& stated == "base64"@ && body == encoding::ascii_text(encoding::base64_text(bytes))
                ==> body_text(raw) == t
            &&& stated == "quoted-printable"@ && body == encoding::ascii_text(
                encoding::escaped(bytes),
            ) ==> body_text(raw) == t
            &&& stated != "base64"@ && stated != "quoted-printable"@ ==> body_text(raw) == body
            &&& stated == "quoted-printable"@ ==> body_text(raw) == unicode::utf8_lossy(
                encoding::quoted_printable_bytes(vstd::utf8::encode_utf8(body)),
            )
            &&& stated == "base64"@ ==> body_text(raw) == match encoding::base64_bytes(
                vstd::utf8::encode_utf8(body),
            ) {
                Some(v) => unicode::utf8_lossy(v),
                None => body,
            }
        }),
{
    reveal_strlit("base64");
    reveal_strlit("quoted-printable");
    assert("base64"@.len() != "quoted-printable"@.len());
    let raw = text::written_lines(header::fields_lines(fields), crlf) + text::line_mark(crlf) + body;
    lemma_mail_names();
    header::law_headers_of_a_mail_read_back(fields, crlf, body, "Content-Transfer-Encoding"@);
    header::law_mail_is_parted_at_its_first_blank_line(fields, crlf, body);
    if transfer_encoding(raw) == "base64"@ && body == encoding::ascii_text(
        encoding::base64_text(vstd::utf8::encode_utf8(t)),
    ) {
        law_encoded_bodies_read_back(raw, t);
    }
    if transfer_encoding(raw) == "quoted-printable"@ && body == encoding::ascii_text(
        encoding::escaped(vstd::utf8::encode_utf8(t)),
    ) {
        law_encoded_bodies_read_back(raw, t);
    }
}

/// The full text shows the headers `From`, `Date`, `Subject`, `To`, `Cc` and `Message-ID`,
/// in that order, as far as the mail has them, decoded, then a rule and the body.
pub proof fn law_full_text_shows_headers_and_body(raw: Seq<char>)
    ensures
        ({
            let shown = |name: Seq<char>|
                match header::header_value(header::headers_of(raw), name) {
                    Some(v) => name + seq![':', ' '] + encoding::mime_text(v, false) + seq!['\n'],
                    None => seq![],
                };
            full_text(raw) == shown("From"@) + shown("Date"@) + shown("Subject"@) + shown("To"@)
                + shown("Cc"@) + shown("Message-ID"@) + seq!['\n', '-', '-', '\n', '\n']
                + body_text(raw)
        }),
{
    reveal_strlit(": ");
    reveal_strlit("\n--\n\n");
    assert(": "@ =~= seq![':', ' ']);
    assert("\n--\n\n"@ =~= seq!['\n', '-', '-', '\n', '\n']);
}

/// A mail without a date is shown with a dash, and one with a date at that point in time.
pub proof fn law_dates_are_shown(at: (int, int), offset: int, shown: Seq<char>)
    ensures
        shows_date(None, shown) <==> shown == seq!['-'],
        shows_date(Some((at, offset)), shown) <==> time::is_local_time(at, shown),
{
    reveal_strlit("-");
    assert("-"@ =~= seq!['-']);
}

/// A commit whose mail could not be read is skipped, and the mails of the others stay with
/// their commits.
pub proof fn law_unreadable_mails_are_skipped(
    epoch: u32,
    commits: Seq<Seq<char>>,
    blobs: Seq<Option<Seq<char>>>,
    k: int,
)
    requires
        commits.len() == blobs.len(),
        0 <= k < blobs.len(),
        blobs[k] is None,
    ensures
        mails_read(epoch, commits, blobs) == mails_read(epoch, commits.remove(k), blobs.remove(k)),
    decreases blobs.len(),
{
    if k == 0 {
        assert(commits.remove(0) =~= commits.drop_first());
        assert(blobs.remove(0) =~= blobs.drop_first());
    } else {
        let later = blobs.drop_first();
        law_unreadable_mails_are_skipped(epoch, commits.drop_first(), later, k - 1);
        assert(commits.remove(k).drop_first() =~= commits.drop_first().remove(k - 1));
        assert(blobs.remove(k).drop_first() =~= later.remove(k - 1));
        assert(commits.remove(k)[0] == commits[0]);
        assert(blobs.remove(k)[0] == blobs[0]);
    }
}

/// A reply to a reply keeps its subject.
pub proof fn law_reply_subjects_do_not_pile_up(subject: Seq<char>)
    ensures
        reply_subject(reply_subject(subject)) == reply_subject(subject),
{
    let once = reply_subject(subject);
    if !patch::is_reply(subject) {
        reveal_strlit("Re: ");
        assert(text::ascii_lowered(once).subrange(0, 3) =~= seq!['r', 'e', ':']);
    }
}

/// Where every commit's mail could be read, the mails come one for each commit, in the
/// order of the commits, each tagged with its own.
pub proof fn law_mails_stay_with_their_commits(
    epoch: u32,
    commits: Seq<Seq<char>>,
    blobs: Seq<Option<Seq<char>>>,
)
    requires
        commits.len() == blobs.len(),
        forall|i: int| 0 <= i < blobs.len() ==> #[trigger] blobs[i] is Some,
    ensures
        mails_read(epoch, commits, blobs).len() == commits.len(),
        forall|i: int|
            0 <= i < commits.len() ==> #[trigger] mails_read(epoch, commits, blobs)[i] == mail_of(
                blobs[i]->0,
                epoch,
                commits[i],
            ),
    decreases blobs.len(),
{
    if blobs.len() > 0 {
        let later = blobs.drop_first();
        assert forall|i: int| 0 <= i < later.len() implies #[trigger] later[i] is Some by {
            assert(later[i] == blobs[i + 1]);
        }
        law_mails_stay_with_their_commits(epoch, commits.drop_first(), later);
        let rest = mails_read(epoch, commits.drop_first(), later);
        let all = mails_read(epoch, commits, blobs);
        assert(blobs[0] is Some);
        assert forall|i: int| 0 <= i < commits.len() implies #[trigger] all[i] == mail_of(
            blobs[i]->0,
            epoch,
            commits[i],
        ) by {
            if i > 0 {
                assert(all[i] == rest[i - 1]);
            }
        }
    }
}

} // verus!
