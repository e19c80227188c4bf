use lkml_core::encoding::{
    decode_base64, decode_encoded_word, decode_mime_header, decode_q, decode_quoted_printable,
};

/// Standard base64, as mailers write it.
fn to_base64(bytes: &[u8]) -> String {
    let table = b"ABCDEFGHIJKLMNOPQRSTUVWXYZabcdefghijklmnopqrstuvwxyz0123456789+/";
    let mut out = String::new();
    for chunk in bytes.chunks(3) {
        let b = [chunk[0], *chunk.get(1).unwrap_or(&0), *chunk.get(2).unwrap_or(&0)];
        let n = (b[0] as usize) << 16 | (b[1] as usize) << 8 | b[2] as usize;
        for i in 0..4 {
            if i <= chunk.len() {
                out.push(table[n >> (18 - 6 * i) & 63] as char);
            } else {
                out.push('=');
            }
        }
    }
    out
}

#[test]
fn base64_is_read_back() {
    for text in ["", "f", "fo", "foo", "foob", "fooba", "foobar"] {
        assert_eq!(decode_base64(&to_base64(text.as_bytes())).unwrap(), text.as_bytes());
    }
    let all: Vec<u8> = (0..=255).collect();
    assert_eq!(decode_base64(&to_base64(&all)).unwrap(), all);
}

#[test]
fn base64_skips_space_and_stops_at_padding() {
    assert_eq!(decode_base64("Zm\n 9v").unwrap(), b"foo");
    assert_eq!(decode_base64("Zg==Zg==").unwrap(), b"f");
    assert_eq!(decode_base64("Zm9").unwrap(), b"fo");
    assert_eq!(decode_base64("Z").unwrap(), b"");
    assert_eq!(decode_base64("Zm9v!"), None);
    assert_eq!(decode_base64("Zm9vé"), None);
}

#[test]
fn quoted_printable_joins_lines_and_reads_escapes() {
    assert_eq!(decode_quoted_printable("plain text"), "plain text");
    assert_eq!(decode_quoted_printable("a=3Db"), "a=b");
    assert_eq!(decode_quoted_printable("a=\nb=\r\nc"), "abc");
    assert_eq!(decode_quoted_printable("=C3=a4"), "ä");
    assert_eq!(decode_quoted_printable("=FF"), "\u{fffd}");
    assert_eq!(decode_quoted_printable("=XY=4=="), "=XY=4==");
    assert_eq!(decode_quoted_printable("=4"), "=4");
    assert_eq!(decode_quoted_printable("=\r"), "=\r");
}

#[test]
fn q_text_reads_underscores_and_escapes() {
    assert_eq!(decode_q("a_b=20c"), b"a b c");
    assert_eq!(decode_q("=4_="), b"=4 =");
    assert_eq!(decode_q("=zz"), b"=zz");
}

#[test]
fn words_are_decoded_where_they_stand() {
    assert_eq!(decode_mime_header("no words = here?"), "no words = here?");
    assert_eq!(decode_mime_header("=?UTF-8?B?SsO2cmc=?= <j@h>"), "Jörg <j@h>");
    assert_eq!(decode_mime_header("a =?utf-8?q?b_c?= d"), "a b c d");
    assert_eq!(decode_mime_header("=?x?Q?a?=  =?x?Q?b?= =?x?Q?c?="), "abc");
    assert_eq!(decode_mime_header("=?x?Q?a?= b =?x?Q?c?="), "a b c");
}

#[test]
fn a_q_word_may_open_with_an_escape() {
    assert_eq!(decode_mime_header("=?UTF-8?Q?=C3=96zg=C3=BCr?= <o@h>"), "Özgür <o@h>");
    assert_eq!(decode_mime_header("=?UTF-8?q?=41?="), "A");
    assert_eq!(decode_mime_header("=?UTF-8?Q??=x"), "x");
}

#[test]
fn what_is_no_word_stands_as_it_is() {
    assert_eq!(decode_mime_header("=?x"), "=?x");
    assert_eq!(decode_mime_header("=?x?="), "=?x?=");
    assert_eq!(decode_mime_header("=?x?Z?a?= b"), "=?x?Z?a?= b");
    assert_eq!(decode_mime_header("=?x?B?!?="), "=?x?B?!?=");
    assert_eq!(decode_mime_header("=?x?B?!?= =?x?Q?a?="), "=?x?B?!?= a");
}

#[test]
fn a_word_needs_three_parts() {
    assert_eq!(decode_encoded_word("utf-8?b?Zm9v").unwrap(), "foo");
    assert_eq!(decode_encoded_word("utf-8?Q?a?b").unwrap(), "a?b");
    assert_eq!(decode_encoded_word("utf-8?B"), None);
    assert_eq!(decode_encoded_word("utf-8"), None);
    assert_eq!(decode_encoded_word("utf-8?BB?Zm9v"), None);
}
