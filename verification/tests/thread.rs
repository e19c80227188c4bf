use lkml_core::mail::Mail;
use lkml_core::patch::PatchTag;
use lkml_core::thread::{
    group_series, is_whole, patch_series, reply_counts, series_search, series_tag, thread_root,
    SeriesTag,
};

/// Patch `number/total` (v1) of the series rooted at `<root>`; `number` 0 is the
/// cover letter, so it is its own root.
fn patch(root: &str, number: u32, total: u32) -> Mail {
    Mail {
        subject: format!("[{root} {number}/{total}]"),
        message_id: if number == 0 {
            format!("<{root}>")
        } else {
            format!("<{root}.{number}>")
        },
        references: if number == 0 {
            Vec::new()
        } else {
            vec![format!("<{root}>")]
        },
        patch_tag: Some(PatchTag { version: 1, number, total }),
        ..Mail::default()
    }
}

fn plain(subject: &str) -> Mail {
    Mail { subject: subject.to_string(), ..Mail::default() }
}

/// A mail with an id that replies to another.
fn reply(id: &str, to: &str) -> Mail {
    Mail {
        subject: id.to_string(),
        message_id: format!("<{id}>"),
        in_reply_to: if to.is_empty() { String::new() } else { format!("<{to}>") },
        ..Mail::default()
    }
}

fn subjects(mails: &[Mail]) -> Vec<&str> {
    mails.iter().map(|m| m.subject.as_str()).collect()
}

#[test]
fn series_forms_a_block_where_its_newest_mail_sat() {
    let mails = vec![patch("a", 2, 3), plain("x"), patch("a", 1, 3), patch("a", 3, 3)];
    let (out, indent) = group_series(&mails);
    assert_eq!(subjects(&out), ["[a 1/3]", "[a 2/3]", "[a 3/3]", "x"]);
    assert_eq!(indent, [false, true, true, false]);
}

#[test]
fn cover_letter_heads_its_block() {
    let mails = vec![patch("a", 1, 2), patch("a", 0, 2), patch("a", 2, 2)];
    let (out, indent) = group_series(&mails);
    assert_eq!(subjects(&out), ["[a 0/2]", "[a 1/2]", "[a 2/2]"]);
    assert_eq!(indent, [false, true, true]);
}

#[test]
fn two_series_group_independently() {
    let mails = vec![patch("a", 2, 2), patch("b", 2, 2), patch("b", 1, 2), patch("a", 1, 2)];
    let (out, _) = group_series(&mails);
    assert_eq!(subjects(&out), ["[a 1/2]", "[a 2/2]", "[b 1/2]", "[b 2/2]"]);
}

#[test]
fn stray_member_and_lone_patch_stay_put() {
    // Only 2/9 of its series is here, and a lone [PATCH 1/1] is no series: nothing to
    // pull together, nothing indented.
    let mails = vec![plain("x"), patch("s", 2, 9), patch("l", 1, 1)];
    let (out, indent) = group_series(&mails);
    assert_eq!(subjects(&out), ["x", "[s 2/9]", "[l 1/1]"]);
    assert_eq!(indent, [false, false, false]);
}

#[test]
fn is_whole_ignores_missing_cover_and_other_series() {
    let mails = vec![patch("a", 1, 2), patch("b", 2, 2), patch("a", 2, 2)];
    let tag_a = series_tag(&mails[0]).unwrap();
    assert!(is_whole(&mails, &tag_a)); // 1..=2 present; no cover needed
    let tag_b = series_tag(&mails[1]).unwrap();
    assert!(!is_whole(&mails, &tag_b)); // b is missing 1/2
}

#[test]
fn thread_root_falls_back_to_in_reply_to_then_self() {
    let mut m = plain("x");
    m.message_id = "<self>".into();
    assert_eq!(thread_root(&m), "self");
    m.in_reply_to = "<parent>".into();
    assert_eq!(thread_root(&m), "parent");
    m.references = vec!["<root>".into(), "<parent>".into()];
    assert_eq!(thread_root(&m), "root");
}

#[test]
fn reply_counts_size_each_subtree() {
    let mut root = plain("r");
    root.message_id = "<r>".into();
    let mut a = plain("a");
    a.message_id = "<a>".into();
    a.in_reply_to = "<r>".into();
    let mut b = plain("b");
    b.message_id = "<b>".into();
    b.in_reply_to = "<a>".into();
    assert_eq!(reply_counts(&[root, a, b]), [2, 1, 0]);
}

#[test]
fn equal_numbers_keep_their_order() {
    let mut first = patch("a", 1, 2);
    first.subject = "first".into();
    let mut second = patch("a", 1, 2);
    second.subject = "second".into();
    let mails = vec![patch("a", 2, 2), first, plain("x"), second];
    let (out, indent) = group_series(&mails);
    assert_eq!(subjects(&out), ["first", "second", "[a 2/2]", "x"]);
    assert_eq!(indent, [false, true, true, false]);
}

#[test]
fn adjacent_blocks_each_have_a_head() {
    let mails = vec![patch("a", 1, 2), patch("b", 1, 2), patch("a", 2, 2), patch("b", 2, 2)];
    let (out, indent) = group_series(&mails);
    assert_eq!(subjects(&out), ["[a 1/2]", "[a 2/2]", "[b 1/2]", "[b 2/2]"]);
    assert_eq!(indent, [false, true, false, true]);
}

#[test]
fn revisions_of_one_thread_are_different_series() {
    let mut v2 = patch("a", 1, 2);
    v2.patch_tag = Some(PatchTag { version: 2, number: 1, total: 2 });
    assert_ne!(series_tag(&v2), series_tag(&patch("a", 1, 2)));
    assert_eq!(
        series_tag(&v2),
        Some(SeriesTag { root: "a".into(), version: 2, total: 2 })
    );
    assert_eq!(series_tag(&v2).clone(), series_tag(&v2));
    let (out, indent) = group_series(&[v2.clone(), plain("x"), patch("a", 2, 2)]);
    assert_eq!(subjects(&out), ["[a 1/2]", "x", "[a 2/2]"]);
    assert_eq!(indent, [false, false, false]);
}

#[test]
fn grouping_twice_changes_nothing() {
    let mails = vec![
        patch("a", 2, 3),
        patch("b", 2, 2),
        plain("x"),
        patch("a", 2, 3),
        patch("b", 1, 2),
        patch("a", 0, 3),
        patch("l", 1, 1),
    ];
    let (once, flags) = group_series(&mails);
    assert_ne!(subjects(&once), subjects(&mails));
    let (twice, again) = group_series(&once);
    assert_eq!(subjects(&twice), subjects(&once));
    assert_eq!(again, flags);
}

#[test]
fn grouping_nothing_gives_nothing() {
    let (out, indent) = group_series(&[]);
    assert!(out.is_empty());
    assert!(indent.is_empty());
}

#[test]
fn a_lone_patch_and_plain_mail_have_no_series() {
    assert_eq!(series_tag(&patch("l", 1, 1)), None);
    assert_eq!(series_tag(&plain("x")), None);
}

#[test]
fn a_cover_letter_does_not_make_a_series_whole() {
    let mails = vec![patch("a", 0, 2), patch("a", 2, 2)];
    let tag = series_tag(&mails[0]).unwrap();
    assert!(!is_whole(&mails, &tag));
    let more = vec![patch("a", 0, 2), patch("a", 2, 2), patch("a", 1, 2)];
    assert!(is_whole(&more, &tag));
    let still = vec![more[2].clone(), plain("x"), more[1].clone(), patch("b", 1, 2)];
    assert!(is_whole(&still, &tag));
    let none = SeriesTag { root: "a".into(), version: 1, total: 0 };
    assert!(is_whole(&mails, &none));
}

#[test]
fn replies_share_the_root_of_their_thread() {
    let cover = patch("a", 0, 2);
    let mut answer = plain("Re: cover");
    answer.message_id = "<r>".into();
    answer.references = vec!["<a>".into()];
    let mut again = plain("Re: Re: cover");
    again.references = vec!["<a>".into(), "<r>".into()];
    assert_eq!(thread_root(&answer), thread_root(&cover));
    assert_eq!(thread_root(&again), thread_root(&answer));
}

#[test]
fn the_series_comes_in_apply_order() {
    let sel = patch("a", 2, 3);
    let found = vec![patch("a", 3, 3), patch("a", 0, 3), patch("a", 1, 3), patch("b", 1, 3)];
    let series = patch_series(&sel, &found);
    assert_eq!(subjects(&series), ["[a 1/3]", "[a 2/3]", "[a 3/3]"]);
}

#[test]
fn a_resend_beats_the_original() {
    let sel = patch("a", 2, 2);
    let mut resend = patch("a", 1, 2);
    resend.subject = "resend".into();
    let mut newer_sel = patch("a", 2, 2);
    newer_sel.subject = "newer".into();
    let found = vec![resend, patch("a", 1, 2), newer_sel];
    assert_eq!(subjects(&patch_series(&sel, &found)), ["resend", "newer"]);
}

#[test]
fn fixups_and_other_revisions_stay_out_of_the_series() {
    let sel = patch("a", 1, 2);
    let mut fixup = patch("a", 1, 1);
    fixup.subject = "fixup".into();
    let mut v2 = patch("a", 2, 2);
    v2.patch_tag = Some(PatchTag { version: 2, number: 2, total: 2 });
    let found = vec![fixup, v2, plain("x")];
    assert_eq!(subjects(&patch_series(&sel, &found)), ["[a 1/2]"]);
}

#[test]
fn the_root_may_stand_anywhere_in_the_references() {
    let sel = patch("a", 1, 2);
    let mut deep = patch("a", 2, 2);
    deep.references = vec!["<v1>".into(), "<a>".into()];
    assert_eq!(subjects(&patch_series(&sel, &vec![deep])), ["[a 1/2]", "[a 2/2]"]);
}

#[test]
fn in_reply_to_alone_ties_a_patch_to_its_thread() {
    let sel = patch("a", 1, 2);
    let mut bare = patch("a", 2, 2);
    bare.references = Vec::new();
    bare.in_reply_to = "<a>".into();
    assert_eq!(series_tag(&bare), series_tag(&sel));
    assert_eq!(subjects(&patch_series(&sel, &vec![bare])), ["[a 1/2]", "[a 2/2]"]);
    let mut other = patch("a", 2, 2);
    other.references = Vec::new();
    other.in_reply_to = "<b>".into();
    assert_eq!(subjects(&patch_series(&sel, &vec![other])), ["[a 1/2]"]);
}

#[test]
fn no_series_without_a_patch() {
    assert!(patch_series(&patch("a", 0, 2), &vec![patch("a", 1, 2)]).is_empty());
    assert!(patch_series(&plain("x"), &vec![patch("a", 1, 2)]).is_empty());
    assert_eq!(series_search(&patch("a", 0, 2)), None);
    assert_eq!(series_search(&plain("x")), None);
}

#[test]
fn the_search_is_for_patches_of_the_sender() {
    let mut sel = patch("a", 1, 2);
    sel.sender = "jane@host".into();
    assert_eq!(
        series_search(&sel).unwrap(),
        [
            "log",
            "--pretty=format:%H %at",
            "--fixed-strings",
            "--regexp-ignore-case",
            "--grep=PATCH",
            "--author=jane@host"
        ]
    );
}

#[test]
fn mails_of_a_circle_share_one_count() {
    assert_eq!(reply_counts(&[reply("a", "b"), reply("b", "a")]), [1, 1]);
    // a -> c -> b -> a, and d replies to b.
    let mails = vec![reply("a", "c"), reply("b", "a"), reply("c", "b"), reply("d", "b")];
    assert_eq!(reply_counts(&mails), [3, 3, 3, 0]);
    let mails = vec![reply("d", "b"), reply("c", "b"), reply("b", "a"), reply("a", "c")];
    assert_eq!(reply_counts(&mails), [0, 3, 3, 3]);
    let mails = vec![reply("x", ""), reply("b", "a"), reply("a", "b"), reply("y", "x")];
    assert_eq!(reply_counts(&mails), [1, 1, 1, 0]);
}

#[test]
fn long_threads_and_two_circles_are_counted() {
    let mut mails: Vec<Mail> = vec![reply("0", "")];
    for i in 1..200 {
        mails.push(reply(&i.to_string(), &(i - 1).to_string()));
    }
    let want: Vec<usize> = (0..200).rev().collect();
    assert_eq!(reply_counts(&mails), want);
    let mails = vec![
        reply("a", "b"),
        reply("p", "r"),
        reply("b", "a"),
        reply("q", "p"),
        reply("r", "q"),
        reply("under", "q"),
        reply("deep", "under"),
    ];
    assert_eq!(reply_counts(&mails), [1, 4, 1, 4, 4, 1, 0]);
}

#[test]
fn a_mail_does_not_reply_to_itself_or_to_strangers() {
    let mails = vec![reply("a", "a"), reply("b", "elsewhere"), plain("x")];
    assert_eq!(reply_counts(&mails), [0, 0, 0]);
    assert!(reply_counts(&[]).is_empty());
}

#[test]
fn the_first_mail_with_an_id_gets_the_replies() {
    let mails = vec![reply("a", ""), reply("a", ""), reply("b", "a"), reply("c", " a ")];
    assert_eq!(reply_counts(&mails), [2, 0, 0, 0]);
}
