use flate2::read::GzEncoder;
use flate2::Compression;
use lkml_core::archive::{
    batch_args, batch_requests, cache_base, clone_args, clone_outcome, ensure_epoch,
    epoch_start_date, git_outcome, list_all_commits, list_commits_since, list_epochs,
    manifest_epochs, manifest_url, mirror_args, mirror_dir, published_epochs, repo_url,
    search_args, search_commits, show_mails, since_args, since_args_for, split_batch,
    start_date_args, ArchiveError, EpochWalk, MirrorStep,
};
use lkml_core::time::Timestamp;
use std::io::Read;

const MANIFEST: &str = r#"{
  "/lkml/git/0.git":  { "description": "LKML [epoch 0]" },
  "/lkml/git/10.git": { "description": "LKML [epoch 10]" },
  "/lkml/git/2.git":  { "description": "LKML [epoch 2]" },
  "/lkml/git/2.git":  { "description": "twice" },
  "/damon/git/7.git": { "description": "DAMON" },
  "/lkml/git/x.git":  { "description": "no number" },
  "/lkml/git/4294967296.git": { "description": "too large" }
}"#;

fn strings(list: &[&str]) -> Vec<String> {
    list.iter().map(|s| s.to_string()).collect()
}

fn gzip(text: &[u8]) -> Vec<u8> {
    let mut out = Vec::new();
    GzEncoder::new(text, Compression::default()).read_to_end(&mut out).unwrap();
    out
}

fn stamp(secs: i64) -> Timestamp {
    Timestamp::new(secs, 0).unwrap()
}

#[test]
fn epochs_come_oldest_first_and_once() {
    assert_eq!(manifest_epochs(MANIFEST, "lkml"), [0, 2, 10]);
    assert_eq!(manifest_epochs(MANIFEST, "damon"), [7]);
    assert!(manifest_epochs(MANIFEST, "lkm").is_empty());
    assert_eq!(manifest_epochs("\"/a/git/3", "a"), [3]);
    assert!(manifest_epochs("\"/a/git/", "a").is_empty());
}

#[test]
fn the_manifest_is_decompressed() {
    assert_eq!(list_epochs(&gzip(MANIFEST.as_bytes()), "lkml"), Ok(vec![0, 2, 10]));
    assert_eq!(
        list_epochs(&gzip(MANIFEST.as_bytes()), "lkm"),
        Err(ArchiveError::NoEpochs("lkm".into()))
    );
    assert_eq!(list_epochs(b"not gzip", "lkml"), Err(ArchiveError::Decompress));
    assert_eq!(list_epochs(&gzip(b"\xff\xfe"), "lkml"), Err(ArchiveError::Decompress));
    assert_eq!(
        published_epochs("{}", "lkml"),
        Err(ArchiveError::NoEpochs("lkml".into()))
    );
}

#[test]
fn addresses_and_directories() {
    assert_eq!(manifest_url(), "https://lore.kernel.org/manifest.js.gz");
    assert_eq!(repo_url("lkml", 19), "https://lore.kernel.org/lkml/git/19.git");
    assert_eq!(repo_url("lkml", 4294967295), "https://lore.kernel.org/lkml/git/4294967295.git");
    assert_eq!(mirror_dir("damon", 0), "damon/0.git");
    assert_eq!(cache_base(Some("/c".into()), Some("/h".into())), "/c");
    assert_eq!(cache_base(None, Some("/h".into())), "/h/.cache");
    assert_eq!(cache_base(None, None), "/tmp");
}

#[test]
fn a_present_epoch_is_updated_and_a_missing_one_cloned() {
    let path = "/h/.cache/lkml/3.git";
    let update = ensure_epoch("lkml", 3, path, true);
    match &update {
        MirrorStep::Update(args) => assert_eq!(args, &["remote", "update"]),
        MirrorStep::Clone(_) => panic!("cloned"),
    }
    assert_eq!(update.words(path), ["--git-dir=/h/.cache/lkml/3.git", "remote", "update"]);
    assert_eq!(update.outcome(true, b"x"), Ok(()));
    assert_eq!(
        update.outcome(false, b"x").unwrap_err().message(),
        "git remote update failed: x"
    );

    let clone = ensure_epoch("lkml", 3, path, false);
    let words = ["clone", "--mirror", "https://lore.kernel.org/lkml/git/3.git", path];
    match &clone {
        MirrorStep::Clone(args) => assert_eq!(args, &words),
        MirrorStep::Update(_) => panic!("updated"),
    }
    assert_eq!(clone.words("elsewhere"), words);
    assert_eq!(clone.outcome(true, b"x"), Ok(()));
    assert_eq!(
        clone.outcome(false, b"x").unwrap_err().message(),
        "git clone --mirror failed: x"
    );
}

#[test]
fn git_is_told_where_the_mirror_lies() {
    assert_eq!(clone_args("u", "p"), ["clone", "--mirror", "u", "p"]);
    assert_eq!(batch_args(), ["cat-file", "--batch"]);
    assert_eq!(
        mirror_args("a b/0.git", &batch_args()),
        ["--git-dir=a b/0.git", "cat-file", "--batch"]
    );
    assert_eq!(mirror_args("", &vec![]), ["--git-dir="]);
}

#[test]
fn git_fails_with_its_own_words() {
    let args = strings(&["remote", "update"]);
    assert_eq!(git_outcome(&args, true, b"out", b"err"), Ok("out".to_string()));
    let e = git_outcome(&args, false, b"out", b"fatal: \xff").unwrap_err();
    assert_eq!(e.message(), "git remote update failed: fatal: \u{fffd}");
    assert_eq!(git_outcome(&vec![], false, b"", b"").unwrap_err().message(), "git  failed: ");
    assert_eq!(clone_outcome(true, b"x"), Ok(()));
    assert_eq!(
        clone_outcome(false, b"x").unwrap_err().message(),
        "git clone --mirror failed: x"
    );
}

#[test]
fn errors_have_messages() {
    assert_eq!(ArchiveError::Decompress.message(), "decompressing manifest");
    assert_eq!(
        ArchiveError::NoEpochs("lkm".into()).message(),
        "no epochs found for list 'lkm'"
    );
    assert_eq!(ArchiveError::Batch.message(), "git cat-file --batch failed");
}

#[test]
fn an_epoch_starts_at_its_earliest_commit() {
    assert_eq!(epoch_start_date("30\n 10 \nx\n20\n"), Some(stamp(10)));
    assert_eq!(epoch_start_date("-5\r\n+7"), Some(stamp(-5)));
    assert_eq!(epoch_start_date(""), None);
    assert_eq!(epoch_start_date("x\n\n"), None);
    assert_eq!(epoch_start_date("9223372036854775807"), None);
    assert_eq!(epoch_start_date("9223372036854775808\n1"), Some(stamp(1)));
    assert_eq!(start_date_args(), ["log", "--pretty=format:%ct"]);
}

#[test]
fn the_walk_stops_where_the_window_is_covered() {
    let starts = [0, 100, 200, 300];
    let mut walk = EpochWalk::new(vec![0, 1, 2, 3]).unwrap();
    let window = stamp(150);
    let mut asked = Vec::new();
    loop {
        let epoch = walk.epoch();
        asked.push(epoch);
        if !walk.advance(Some(stamp(starts[epoch as usize])), &window) {
            break;
        }
    }
    assert_eq!(asked, [3, 2, 1]);
    assert_eq!(walk.used(), [3, 2, 1]);
}

#[test]
fn the_walk_stops_at_the_first_epoch() {
    let mut walk = EpochWalk::new(vec![4, 6]).unwrap();
    assert_eq!(walk.epoch(), 6);
    assert_eq!(walk.used(), [6]);
    assert!(walk.advance(None, &stamp(0)));
    assert_eq!(walk.epoch(), 4);
    assert!(!walk.advance(None, &stamp(0)));
    assert_eq!(walk.used(), [6, 4]);
    assert!(EpochWalk::new(vec![]).is_none());
}

#[test]
fn an_epoch_that_starts_with_the_window_covers_it() {
    let mut walk = EpochWalk::new(vec![0, 1]).unwrap();
    assert!(!walk.advance(Some(stamp(50)), &stamp(50)));
    assert!(walk.advance(Some(stamp(51)), &stamp(50)));
}

#[test]
fn searches_are_for_fixed_strings_in_any_case() {
    assert_eq!(search_args(None, None), ["log", "--pretty=format:%H %at"]);
    assert_eq!(
        search_args(Some("a b"), None),
        [
            "log",
            "--pretty=format:%H %at",
            "--fixed-strings",
            "--regexp-ignore-case",
            "--grep=a b"
        ]
    );
    assert_eq!(
        search_args(Some("s"), Some("a")),
        [
            "log",
            "--pretty=format:%H %at",
            "--fixed-strings",
            "--regexp-ignore-case",
            "--grep=s",
            "--author=a"
        ]
    );
}

#[test]
fn commits_come_newest_first() {
    let log = "a 10\nb 30\nno-space\nc 10\nd x\ne -9223372036854775808\nf 20 \n";
    assert_eq!(search_commits(log), ["b", "f", "a", "c", "d", "e"]);
    assert_eq!(list_all_commits("x 1\ny 2"), ["y", "x"]);
    assert!(search_commits("").is_empty());
}

#[test]
fn many_commits_are_sorted() {
    let log: String = (0..1000).map(|i| format!("c{i} {}\n", (i * 37) % 100)).collect();
    let mut rows: Vec<(i64, String)> =
        (0..1000).map(|i| (-((i * 37) % 100), format!("c{i}"))).collect();
    rows.sort_by_key(|row| row.0);
    let want: Vec<String> = rows.into_iter().map(|row| row.1).collect();
    assert_eq!(search_commits(&log), want);
}

#[test]
fn commits_since_a_time() {
    assert_eq!(
        since_args(&stamp(0)),
        ["log", "--pretty=format:%H", "--since=1970-01-01 00:00:00 +0000"]
    );
    assert_eq!(
        since_args(&Timestamp::new(1767267000, 999_999_999).unwrap()),
        ["log", "--pretty=format:%H", "--since=2026-01-01 11:30:00 +0000"]
    );
    assert_eq!(since_args_for("now"), ["log", "--pretty=format:%H", "--since=now"]);
    assert_eq!(list_commits_since("a\n\nb\r\n c"), ["a", "b", " c"]);
    assert!(list_commits_since("").is_empty());
}

#[test]
fn mails_are_asked_for_by_commit() {
    assert_eq!(batch_requests(&strings(&["a", "b"])), "a:m\nb:m\n");
    assert_eq!(batch_requests(&vec![]), "");
}

fn hit(text: &[u8]) -> Vec<u8> {
    let mut out = format!("0123abcd blob {}\n", text.len()).into_bytes();
    out.extend_from_slice(text);
    out.push(b'\n');
    out
}

#[test]
fn answers_are_read_back_in_order() {
    let mut out = hit(b"first\n\nmail");
    out.extend(b"c1:m missing\n");
    out.extend(hit(b""));
    out.extend(hit("zwölf 12\n".as_bytes()));
    assert_eq!(
        split_batch(&out),
        [
            Some("first\n\nmail".to_string()),
            None,
            Some(String::new()),
            Some("zwölf 12\n".to_string())
        ]
    );
    assert_eq!(split_batch(&hit(b"\xff")), [Some("\u{fffd}".to_string())]);
    assert!(split_batch(b"").is_empty());
    assert!(split_batch(b"no end of line").is_empty());
}

#[test]
fn truncated_output_loses_mails_but_shifts_none() {
    let mut out = hit(b"one");
    out.extend(b"c:m missing\n");
    out.extend(hit(b"three"));
    let commits = strings(&["a", "b", "c"]);
    let whole = show_mails(&commits, true, &out).unwrap();
    assert_eq!(whole, [Some("one".to_string()), None, Some("three".to_string())]);
    for k in 0..out.len() {
        let part = show_mails(&commits, true, &out[..k]).unwrap();
        assert_eq!(part.len(), 3);
        for i in 0..3 {
            assert!(part[i].is_none() || part[i] == whole[i]);
        }
    }
}

#[test]
fn answers_fit_the_commits() {
    let mut out = hit(b"one");
    out.extend(hit(b"two"));
    assert_eq!(
        show_mails(&strings(&["a"]), true, &out).unwrap(),
        [Some("one".to_string())]
    );
    assert_eq!(show_mails(&vec![], false, b""), Ok(vec![]));
    assert_eq!(show_mails(&strings(&["a"]), false, b""), Err(ArchiveError::Batch));
}
