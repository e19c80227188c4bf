use lkml_core::header::{parse_header, parse_sender, pretty_from, split_headers};
use lkml_core::mail::{read, Mail};
use lkml_core::parse::normalize_message_id;
use lkml_core::patch::{parse_patch_tag, PatchTag};
use lkml_core::time::{mail_date, parse_rfc_date, Timestamp, MAX_SECS};

const RAW: &str = "From: =?UTF-8?B?SsO2cmc=?= <joerg@host>\n\
Subject: [PATCH v2 1/3] mm: do\n\
\tthings\n\
to: list@host,\n\
\x20 other@host\n\
Cc: third@host\n\
Date: Thu, 1 Jan 2026 12:30:00 +0100\n\
Message-ID: <m1@host>\n\
References: <root@host> <mid@host>\n\
\n\
Hello\n\
\n\
world\n";

fn tag(version: u32, number: u32, total: u32) -> Option<PatchTag> {
    Some(PatchTag { version, number, total })
}

#[test]
fn a_mail_is_parsed_from_its_headers() {
    let m = Mail::new(RAW.to_string(), 7, "c0ffee".to_string());
    assert_eq!(m.raw, RAW);
    assert_eq!(m.subject, "[PATCH v2 1/3] mm: do things");
    assert_eq!(m.from, "Jörg <joerg@host>");
    assert_eq!(m.author, "Jörg");
    assert_eq!(m.sender, "joerg@host");
    assert_eq!(m.to, "list@host, other@host");
    assert_eq!(m.message_id, "<m1@host>");
    assert_eq!(m.in_reply_to, "<mid@host>");
    assert_eq!(m.references, ["<root@host>", "<mid@host>"]);
    assert_eq!(m.patch_tag, tag(2, 1, 3));
    assert_eq!(m.epoch, 7);
    assert_eq!(m.commit, "c0ffee");
    let date = m.date.unwrap();
    assert_eq!(date.at, Timestamp::new(1767267000, 0).unwrap());
    assert_eq!(date.offset, 3600);
}

#[test]
fn missing_headers_are_empty() {
    let m = Mail::new("\n\nbody".to_string(), 0, String::new());
    assert_eq!(m.subject, "");
    assert_eq!(m.in_reply_to, "");
    assert!(m.references.is_empty());
    assert!(m.date.is_none());
    assert_eq!(m.patch_tag, None);
    assert_eq!(m.date_str(), "-");
    assert_eq!(m.body(), "body");
}

#[test]
fn in_reply_to_goes_before_references() {
    let raw = "In-Reply-To: <a>\nReferences: <b> <c>\n\n";
    assert_eq!(Mail::new(raw.to_string(), 0, String::new()).in_reply_to, "<a>");
}

#[test]
fn a_clone_is_the_same_mail() {
    let m = Mail::new(RAW.to_string(), 7, "c0ffee".to_string());
    let c = m.clone();
    assert_eq!(format!("{m:?}"), format!("{c:?}"));
}

#[test]
fn the_date_is_shown_in_local_time() {
    let m = Mail::new(RAW.to_string(), 0, String::new());
    let local = chrono::DateTime::from_timestamp(1767267000, 0)
        .unwrap()
        .with_timezone(&chrono::Local);
    assert_eq!(m.date_str(), local.format("%Y/%m/%d %H:%M").to_string());
}

#[test]
fn the_full_text_shows_a_fixed_set_of_headers() {
    let m = Mail::new(RAW.to_string(), 0, String::new());
    assert_eq!(
        m.render_full(),
        "From: Jörg <joerg@host>\nDate: Thu, 1 Jan 2026 12:30:00 +0100\n\
         Subject: [PATCH v2 1/3] mm: do things\nTo: list@host, other@host\nCc: third@host\n\
         Message-ID: <m1@host>\n\n--\n\nHello\n\nworld\n"
    );
}

#[test]
fn bodies_are_decoded_according_to_their_encoding() {
    let body = |raw: &str| Mail::new(raw.to_string(), 0, String::new()).body();
    assert_eq!(
        body("Content-Transfer-Encoding: Quoted-Printable\n\na=3Db=\nc"),
        "a=bc"
    );
    assert_eq!(body("Content-Transfer-Encoding: base64\n\nSGVsbG8="), "Hello");
    assert_eq!(body("Content-Transfer-Encoding:  BASE64 \n\nSsO2\r\ncmcK\n"), "Jörg\n");
    assert_eq!(body("Content-Transfer-Encoding: base64\n\n/w=="), "\u{fffd}");
    assert_eq!(body("Content-Transfer-Encoding: base64\n\nnot base64!"), "not base64!");
    // Without padding a footer spoils the body; after padding it is dropped.
    let footer = "\n__ list@host __\n";
    let unpadded = format!("SGVsbG8h{footer}");
    assert_eq!(body(&format!("Content-Transfer-Encoding: base64\n\n{unpadded}")), unpadded);
    assert_eq!(body(&format!("Content-Transfer-Encoding: base64\n\nSGVsbG8={footer}")), "Hello");
    assert_eq!(body("Content-Transfer-Encoding: 8bit\n\nSGVsbG8="), "SGVsbG8=");
    assert_eq!(body("Subject: x\n\na=3Db"), "a=3Db");
}

#[test]
fn a_draft_is_addressed_threaded_and_quotes() {
    let m = Mail::new(RAW.to_string(), 0, String::new());
    let draft = m.reply_draft_dated("2026/01/01 12:30");
    assert_eq!(
        draft,
        "Subject: Re: [PATCH v2 1/3] mm: do things\nTo: Jörg <joerg@host>\n\
         Cc: list@host, other@host, third@host\nIn-Reply-To: <m1@host>\n\n\
         On 2026/01/01 12:30, Jörg wrote:\n\n> Hello\n>\n> world\n"
    );
    assert_eq!(m.reply_draft(), m.reply_draft_dated(&m.date_str()));
    let (headers, body) = split_headers(&draft);
    assert_eq!(parse_header(headers, "to").unwrap(), "Jörg <joerg@host>");
    assert_eq!(parse_header(headers, "In-Reply-To").unwrap(), "<m1@host>");
    assert_eq!(parse_header(headers, "From"), None);
    assert_eq!(parse_header(headers, "Message-ID"), None);
    assert!(body.starts_with("On "));
}

#[test]
fn a_draft_leaves_out_what_is_empty() {
    let raw = "From: a@host\nSubject: RE: x\nTo:  \n\n";
    let m = Mail::new(raw.to_string(), 0, String::new());
    assert_eq!(
        m.reply_draft_dated("-"),
        "Subject: RE: x\nTo: a@host\n\nOn -, a@host wrote:\n\n"
    );
}

#[test]
fn mails_keep_their_commits() {
    let commits: Vec<String> = vec!["a".into(), "b".into(), "c".into()];
    let blobs = vec![Some("Subject: 1\n\n".to_string()), None, Some("Subject: 3\n\n".to_string())];
    let mails = read(4, &commits, &blobs);
    assert_eq!(mails.len(), 2);
    assert_eq!((mails[0].subject.as_str(), mails[0].commit.as_str()), ("1", "a"));
    assert_eq!((mails[1].subject.as_str(), mails[1].commit.as_str()), ("3", "c"));
    assert_eq!(mails[1].epoch, 4);
    assert!(read(4, &commits, &vec![]).is_empty());
}

#[test]
fn a_mail_is_parted_at_its_first_blank_line() {
    assert_eq!(split_headers("a\nb\n\nc\n\nd"), ("a\nb", "c\n\nd"));
    assert_eq!(split_headers("a\r\nb\r\n\r\nc"), ("a\r\nb", "c"));
    assert_eq!(split_headers("a\n\nb\r\n\r\nc"), ("a", "b\r\n\r\nc"));
    assert_eq!(split_headers("a\r\n\r\nb\n\nc"), ("a", "b\n\nc"));
    assert_eq!(split_headers("a\nb"), ("a\nb", ""));
    assert_eq!(split_headers(""), ("", ""));
}

#[test]
fn headers_are_found_and_unfolded() {
    let h = "X: 1\nno colon\nsUbJect:  a \n b\n\t c \nSubject: second\n d";
    assert_eq!(parse_header(h, "SUBJECT").unwrap(), "a b c");
    assert_eq!(parse_header(h, "x").unwrap(), "1");
    assert_eq!(parse_header(h, "y"), None);
    assert_eq!(parse_header("A:\r\n b\r\n", "a").unwrap(), " b");
    assert_eq!(parse_header("ÄRGER: x", "ärger").unwrap(), "x");
}

#[test]
fn senders_are_bare_addresses() {
    assert_eq!(parse_sender("Jane <jane@host>"), "jane@host");
    assert_eq!(parse_sender("jane@host (Jane Doe)"), "jane@host");
    assert_eq!(parse_sender("(jane@host) x"), "jane@host");
    assert_eq!(parse_sender(" nobody "), "nobody");
    assert_eq!(parse_sender(">x< a@b"), "a@b");
}

#[test]
fn display_names_fall_back_to_the_address() {
    assert_eq!(pretty_from("\"Doe, Jane\" <jane@host>"), "Doe, Jane");
    assert_eq!(pretty_from("<jane@host>"), "jane@host");
    assert_eq!(pretty_from(" jane@host "), "jane@host");
    assert_eq!(pretty_from(" <jane@host"), "<jane@host");
}

#[test]
fn ids_compare_without_brackets_and_space() {
    assert_eq!(normalize_message_id("<id@host>"), "id@host");
    assert_eq!(normalize_message_id(" id@host\n"), "id@host");
    assert_eq!(normalize_message_id(" << a > "), "a");
    assert_eq!(normalize_message_id("<>"), "");
}

#[test]
fn tags_are_read_from_subjects() {
    assert_eq!(parse_patch_tag("[PATCH] x"), tag(1, 1, 1));
    assert_eq!(parse_patch_tag("[PATCH v3 02/17] x"), tag(3, 2, 17));
    assert_eq!(parse_patch_tag(" [RFC patch 0/4] x"), tag(1, 0, 4));
    assert_eq!(parse_patch_tag("[for-next][PATCH 05/10] x"), tag(1, 5, 10));
    assert_eq!(parse_patch_tag("[RFC] [PATCH 2/5] x"), tag(1, 2, 5));
    assert_eq!(parse_patch_tag("[PATCH v9,0/7] x"), tag(9, 0, 7));
    assert_eq!(parse_patch_tag("[PATCH 1/3, V2] x"), tag(2, 1, 3));
    assert_eq!(parse_patch_tag("[PATCH net/tcp] x"), tag(1, 1, 1));
    assert_eq!(parse_patch_tag("[PATCH vfs 1/x] x"), tag(1, 1, 1));
    assert_eq!(parse_patch_tag("[PATCH v4294967296] x"), tag(1, 1, 1));
    assert_eq!(parse_patch_tag("rE: [PATCH 1/2] x"), None);
    assert_eq!(parse_patch_tag("x [PATCH 1/2]"), None);
    assert_eq!(parse_patch_tag("[PATCH"), None);
    assert_eq!(parse_patch_tag("[x] y"), None);
    assert_eq!(PatchTag::default(), PatchTag { version: 0, number: 0, total: 0 });
}

#[test]
fn dates_come_in_two_forms() {
    let date = parse_rfc_date("Thu, 1 Jan 1970 00:00:10 +0000").unwrap();
    assert_eq!((date.at.secs(), date.at.nanos(), date.offset), (10, 0, 0));
    let date = parse_rfc_date("1970-01-01T01:00:10.5+01:00").unwrap();
    assert_eq!((date.at.secs(), date.at.nanos(), date.offset), (10, 500_000_000, 3600));
    let date = mail_date(Some((-1, 5, -60))).unwrap();
    assert_eq!((date.at.secs(), date.at.nanos(), date.offset), (-1, 5, -60));
    assert_eq!(mail_date(Some((MAX_SECS + 1, 0, 0))), None);
    assert_eq!(mail_date(None), None);
    assert_eq!(parse_rfc_date("yesterday"), None);
    assert_eq!(parse_rfc_date(""), None);
}
