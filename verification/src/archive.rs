//! The archive of a mailing list: a chain of git mirrors, its epochs, each with a
//! commit for every mail. What to ask of git and of the archive's server, and what
//! their answers mean; asking is left to the caller.

use crate::mail;
use crate::number;
use crate::order;
use crate::text;
use crate::time;
use crate::time::Timestamp;
use crate::unicode;
use flate2::read::GzDecoder;
use std::io::Read;
use vstd::prelude::*;
use vstd::slice::slice_subrange;

verus! {

/// The server that publishes the archives.
pub const BASE: &'static str = "https://lore.kernel.org";

/// Where the mirrors lie, below the user's cache directory.
pub const ARCHIVES_DIR: &'static str = "lkml-tools/archives";

/// Why the archive could not answer.
#[derive(Debug, PartialEq, Eq)]
pub enum ArchiveError {
    /// The manifest is not gzip-compressed text.
    Decompress,
    /// The manifest names no epoch of this list.
    NoEpochs(String),
    /// Git, run with these arguments, failed and said why.
    Git { args: String, stderr: String },
    /// Git could not clone a mirror, and said why.
    Clone(String),
    /// Git could not be read from.
    Batch,
}

/// Why the archive could not answer, in mathematical form.
pub enum ArchiveErrorView {
    Decompress,
    NoEpochs(Seq<char>),
    Git { args: Seq<char>, stderr: Seq<char> },
    Clone(Seq<char>),
    Batch,
}

impl View for ArchiveError {
    type V = ArchiveErrorView;

    open spec fn view(&self) -> ArchiveErrorView {
        match self {
            ArchiveError::Decompress => ArchiveErrorView::Decompress,
            ArchiveError::NoEpochs(list) => ArchiveErrorView::NoEpochs(list@),
            ArchiveError::Git { args, stderr } => ArchiveErrorView::Git {
                args: args@,
                stderr: stderr@,
            },
            ArchiveError::Clone(stderr) => ArchiveErrorView::Clone(stderr@),
            ArchiveError::Batch => ArchiveErrorView::Batch,
        }
    }
}

/// The message for the user.
pub open spec fn error_text(e: ArchiveErrorView) -> Seq<char> {
    match e {
        ArchiveErrorView::Decompress => "decompressing manifest"@,
        ArchiveErrorView::NoEpochs(list) => "no epochs found for list '"@ + list + "'"@,
        ArchiveErrorView::Git { args, stderr } => "git "@ + args + " failed: "@ + stderr,
        ArchiveErrorView::Clone(stderr) => "git clone --mirror failed: "@ + stderr,
        ArchiveErrorView::Batch => "git cat-file --batch failed"@,
    }
}

impl ArchiveError {
    /// The message for the user.
    pub fn message(&self) -> (r: String)
        ensures
            r@ == error_text(self@),
    {
        let mut out = String::new();
        match self {
            ArchiveError::Decompress => {
                out.push_str("decompressing manifest");
            },
            ArchiveError::NoEpochs(list) => {
                out.push_str("no epochs found for list '");
                out.push_str(list.as_str());
                out.push_str("'");
            },
            ArchiveError::Git { args, stderr } => {
                out.push_str("git ");
                out.push_str(args.as_str());
                out.push_str(" failed: ");
                out.push_str(stderr.as_str());
            },
            ArchiveError::Clone(stderr) => {
                out.push_str("git clone --mirror failed: ");
                out.push_str(stderr.as_str());
            },
            ArchiveError::Batch => {
                out.push_str("git cat-file --batch failed");
            },
        }
        assert(out@ =~= error_text(self@));
        out
    }
}

// The manifest

/// The text that `GzDecoder` and `Read::read_to_string` make of gzip-compressed
/// bytes, where they are that and hold UTF-8.
pub uninterp spec fn gunzipped(bytes: Seq<u8>) -> Option<Seq<char>>;

/// The mathematical form of text that may be missing.
pub open spec fn text_view(s: Option<String>) -> Option<Seq<char>> {
    match s {
        Some(t) => Some(t@),
        None => None,
    }
}

/// `flate2::read::GzDecoder` read to its end with `Read::read_to_string`. What it
/// gives for which bytes is named, not described.
#[verifier::external_body]
fn gunzip(bytes: &[u8]) -> (r: Option<String>)
    ensures
        text_view(r) == gunzipped(bytes@),
{
    let mut out = String::new();
    match GzDecoder::new(bytes).read_to_string(&mut out) {
        Ok(_) => Some(out),
        Err(_) => None,
    }
}

/// What stands before the number of an epoch of the list.
pub open spec fn epoch_prefix(list: Seq<char>) -> Seq<char> {
    seq!['"', '/'] + list + seq!['/', 'g', 'i', 't', '/']
}

/// The places at which `pat` stands in `s` from `from` on, each after the end of the
/// one before.
pub open spec fn matches_from(s: Seq<char>, pat: Seq<char>, from: int) -> Seq<int>
    decreases s.len() - from,
{
    if pat.len() == 0 {
        seq![]
    } else {
        match text::first_match(s, pat, from) {
            Some(i) => {
                proof {
                    text::lemma_first_match(s, pat, from);
                }
                seq![i] + matches_from(s, pat, i + pat.len())
            },
            None => seq![],
        }
    }
}

/// The digits at the front of `s`.
pub open spec fn leading_digits(s: Seq<char>) -> Seq<char> {
    s.take(s.len() - text::strip_front(s, |c: char| number::is_digit(c)).len())
}

/// The number of the epoch that is written at `start`.
pub open spec fn epoch_at(json: Seq<char>, start: int) -> Option<int> {
    number::unsigned_value(leading_digits(json.skip(start)), u32::MAX as int)
}

/// The manifest names epoch `e` of the list.
pub open spec fn publishes(json: Seq<char>, list: Seq<char>, e: int) -> bool {
    let prefix = epoch_prefix(list);
    let found = matches_from(json, prefix, 0);
    exists|k: int|
        0 <= k < found.len() && #[trigger] epoch_at(json, found[k] + prefix.len()) == Some(e)
}

/// The list holds the epochs that `known` says, each once, oldest first.
pub open spec fn lists_epochs(epochs: Seq<u32>, known: spec_fn(int) -> bool) -> bool {
    &&& forall|a: int, b: int| 0 <= a < b < epochs.len() ==> epochs[a] < epochs[b]
    &&& forall|e: u32| #[trigger] epochs.contains(e) <==> known(e as int)
}

/// Put a number in its place in an ascending list, unless it is there.
fn add_epoch(epochs: &mut Vec<u32>, e: u32, Ghost(known): Ghost<spec_fn(int) -> bool>)
    requires
        lists_epochs(old(epochs)@, known),
    ensures
        lists_epochs(final(epochs)@, |x: int| known(x) || x == e),
{
    let ghost before = epochs@;
    let len: usize = epochs.len();
    let mut at: usize = 0;
    while at < len && epochs[at] < e
        invariant
            epochs@ == before,
            len == before.len(),
            at <= len,
            forall|k: int| 0 <= k < at ==> #[trigger] before[k] < e,
        decreases len - at,
    {
        at = at + 1;
    }
    if at < len && epochs[at] == e {
        proof {
            assert(before.contains(e));
            assert(known(e as int));
            assert forall|x: u32| #[trigger] epochs@.contains(x) <==> known(x as int) || x
                == e by {}
        }
    } else {
        epochs.insert(at, e);
        proof {
            let now = epochs@;
            assert(now =~= before.insert(at as int, e));
            assert forall|a: int, b: int| 0 <= a < b < now.len() implies now[a] < now[b] by {
                let a0 = if a > at {
                    a - 1
                } else {
                    a
                };
                let b0 = if b > at {
                    b - 1
                } else {
                    b
                };
                if a != at && b != at {
                    assert(before[a0] < before[b0]);
                } else if a == at {
                    if b0 > at {
                        assert(before[at as int] < before[b0]);
                    }
                } else {
                    assert(before[a0] < e);
                }
            }
            assert forall|x: u32| #[trigger] now.contains(x) <==> known(x as int) || x == e by {
                if before.contains(x) {
                    let k = choose|k: int| 0 <= k < before.len() && before[k] == x;
                    if k >= at {
                        assert(now[k + 1] == x);
                    } else {
                        assert(now[k] == x);
                    }
                }
                assert(now[at as int] == e);
                if now.contains(x) && x != e {
                    let k = choose|k: int| 0 <= k < now.len() && now[k] == x;
                    if k > at {
                        assert(before[k - 1] == x);
                    } else {
                        assert(before[k] == x);
                    }
                }
            }
        }
    }
}

/// How many digits stand at the front of `s`.
fn digit_run(s: &[char]) -> (r: usize)
    ensures
        r <= s@.len(),
        s@.take(r as int) == leading_digits(s@),
{
    let ghost p = |c: char| number::is_digit(c);
    let n: usize = s.len();
    let mut k: usize = 0;
    while k < n && '0' <= s[k] && s[k] <= '9'
        invariant
            n == s@.len(),
            k <= n,
            p == (|c: char| number::is_digit(c)),
            forall|j: int| 0 <= j < k ==> p(#[trigger] s@[j]),
        decreases n - k,
    {
        k = k + 1;
    }
    proof {
        text::lemma_strip_front(s@, p, k as int);
        assert(text::strip_front(s@, p).len() == s@.len() - k);
        assert(p =~= |c: char| number::is_digit(c));
    }
    k
}

/// The epochs that the manifest names of `list`, oldest first.
pub fn manifest_epochs(json: &str, list: &str) -> (r: Vec<u32>)
    ensures
        lists_epochs(r@, |e: int| publishes(json@, list@, e)),
{
    let chars = text::chars_of(json);
    let n: usize = chars.len();
    let mut prefix: Vec<char> = vec!['"', '/'];
    let mut name = text::chars_of(list);
    prefix.append(&mut name);
    let mut tail: Vec<char> = vec!['/', 'g', 'i', 't', '/'];
    prefix.append(&mut tail);
    let ghost s = json@;
    let ghost pat = epoch_prefix(list@);
    assert(prefix@ =~= pat);
    let ghost all = matches_from(s, pat, 0);
    let ghost mut done = Seq::<int>::empty();
    let width: usize = prefix.len();
    let mut out: Vec<u32> = Vec::new();
    let mut from: usize = 0;
    assert(done + matches_from(s, pat, 0) =~= all);
    loop
        invariant_except_break
            chars@ == s,
            n == s.len(),
            prefix@ == pat,
            width == pat.len(),
            width > 0,
            from <= n,
            all == matches_from(s, pat, 0),
            all == done + matches_from(s, pat, from as int),
            lists_epochs(
                out@,
                |e: int|
                    exists|k: int|
                        0 <= k < done.len() && #[trigger] epoch_at(s, done[k] + pat.len()) == Some(
                            e,
                        ),
            ),
        ensures
            lists_epochs(
                out@,
                |e: int|
                    exists|k: int|
                        0 <= k < all.len() && #[trigger] epoch_at(s, all[k] + pat.len()) == Some(e),
            ),
        decreases n - from,
    {
        match text::find_from(chars.as_slice(), prefix.as_slice(), from) {
            None => {
                proof {
                    assert(matches_from(s, pat, from as int) =~= Seq::<int>::empty());
                    assert(all =~= done);
                }
                break;
            },
            Some(i) => {
                proof {
                    text::lemma_first_match(s, pat, from as int);
                }
                let start: usize = i + width;
                let rest = slice_subrange(chars.as_slice(), start, n);
                assert(rest@ =~= s.skip(start as int));
                let run: usize = digit_run(rest);
                let digits = slice_subrange(rest, 0, run);
                assert(digits@ =~= rest@.take(run as int));
                let ghost before = done;
                let ghost known = |e: int|
                    exists|k: int|
                        0 <= k < before.len() && #[trigger] epoch_at(s, before[k] + pat.len())
                            == Some(e);
                proof {
                    done = done.push(i as int);
                    assert(all =~= done + matches_from(s, pat, start as int));
                }
                let ghost next = |e: int|
                    exists|k: int|
                        0 <= k < done.len() && #[trigger] epoch_at(s, done[k] + pat.len()) == Some(
                            e,
                        );
                proof {
                    assert forall|e: int| #[trigger] next(e) <==> known(e) || epoch_at(
                        s,
                        start as int,
                    ) == Some(e) by {
                        assert(done[before.len() as int] + pat.len() == start);
                        if known(e) {
                            let k = choose|k: int|
                                0 <= k < before.len() && #[trigger] epoch_at(
                                    s,
                                    before[k] + pat.len(),
                                ) == Some(e);
                            assert(epoch_at(s, done[k] + pat.len()) == Some(e));
                        }
                        if next(e) {
                            let k = choose|k: int|
                                0 <= k < done.len() && #[trigger] epoch_at(s, done[k] + pat.len())
                                    == Some(e);
                            if k < before.len() {
                                assert(epoch_at(s, before[k] + pat.len()) == Some(e));
                            }
                        }
                        if epoch_at(s, start as int) == Some(e) {
                            assert(epoch_at(s, done[before.len() as int] + pat.len()) == Some(e));
                        }
                    }
                }
                match number::parse_u32(digits) {
                    Some(e) => {
                        add_epoch(&mut out, e, Ghost(known));
                        assert(next =~= |x: int| known(x) || x == e);
                    },
                    None => {
                        assert(next =~= known);
                    },
                }
                from = start;
            },
        }
    }
    assert((|e: int|
        exists|k: int|
            0 <= k < all.len() && #[trigger] epoch_at(s, all[k] + pat.len()) == Some(e)) =~= (
    |e: int| publishes(s, list@, e)));
    out
}

/// The mathematical form of an answer that is a list of numbers.
pub open spec fn epochs_answer(
    r: Result<Vec<u32>, ArchiveError>,
    json: Seq<char>,
    list: Seq<char>,
) -> bool {
    match r {
        Ok(epochs) => epochs@.len() > 0 && lists_epochs(
            epochs@,
            |e: int| publishes(json, list, e),
        ),
        Err(e) => e@ == ArchiveErrorView::NoEpochs(list) && forall|n: u32|
            !#[trigger] publishes(json, list, n as int),
    }
}

/// The epochs that the manifest names of `list`, oldest first. Errors if the list has
/// no epochs (typically a misspelled name).
pub fn published_epochs(manifest: &str, list: &str) -> (r: Result<Vec<u32>, ArchiveError>)
    ensures
        epochs_answer(r, manifest@, list@),
{
    let epochs = manifest_epochs(manifest, list);
    if epochs.len() == 0 {
        proof {
            let known = |e: int| publishes(manifest@, list@, e);
            assert forall|n: u32| !#[trigger] publishes(manifest@, list@, n as int) by {
                assert(epochs@.contains(n) <==> known(n as int));
            }
        }
        return Err(ArchiveError::NoEpochs(list.to_owned()));
    }
    Ok(epochs)
}

/// The epochs published for `list` in the manifest that the server sent, oldest
/// first. Errors if the manifest cannot be decompressed, or if the list has no epochs
/// (typically a misspelled name).
pub fn list_epochs(body: &[u8], list: &str) -> (r: Result<Vec<u32>, ArchiveError>)
    ensures
        match gunzipped(body@) {
            Some(json) => epochs_answer(r, json, list@),
            None => r matches Err(e) && e@ == ArchiveErrorView::Decompress,
        },
{
    match gunzip(body) {
        Some(manifest) => published_epochs(manifest.as_str(), list),
        None => Err(ArchiveError::Decompress),
    }
}

// The mirrors

/// Where the manifest is published.
pub open spec fn manifest_url_text() -> Seq<char> {
    BASE@ + "/manifest.js.gz"@
}

/// Where the manifest is published.
pub fn manifest_url() -> (r: String)
    ensures
        r@ == manifest_url_text(),
{
    let mut out = String::new();
    out.push_str(BASE);
    out.push_str("/manifest.js.gz");
    assert(out@ =~= manifest_url_text());
    out
}

/// Where an epoch of the list is published.
pub open spec fn repo_url_text(list: Seq<char>, epoch: u32) -> Seq<char> {
    BASE@ + "/"@ + list + "/git/"@ + number::decimal(epoch as nat) + ".git"@
}

/// Where an epoch of the list is published.
pub fn repo_url(list: &str, epoch: u32) -> (r: String)
    ensures
        r@ == repo_url_text(list@, epoch),
{
    let mut out = String::new();
    out.push_str(BASE);
    out.push_str("/");
    out.push_str(list);
    out.push_str("/git/");
    number::push_decimal(&mut out, epoch);
    out.push_str(".git");
    assert(out@ =~= repo_url_text(list@, epoch));
    out
}

/// The user's cache directory: the one that is set for caches, else one below the
/// home directory, else a temporary one.
pub open spec fn cache_base_text(cache: Option<Seq<char>>, home: Option<Seq<char>>) -> Seq<char> {
    match (cache, home) {
        (Some(c), _) => c,
        (None, Some(h)) => h + "/.cache"@,
        (None, None) => "/tmp"@,
    }
}

/// The user's cache directory, given what `XDG_CACHE_HOME` and `HOME` are set to.
pub fn cache_base(cache: Option<String>, home: Option<String>) -> (r: String)
    ensures
        r@ == cache_base_text(text_view(cache), text_view(home)),
{
    match cache {
        Some(c) => c,
        None => match home {
            Some(h) => {
                let mut out = h;
                out.push_str("/.cache");
                out
            },
            None => "/tmp".to_owned(),
        },
    }
}

/// Where the mirror of an epoch lies, below the directory of all mirrors.
pub open spec fn mirror_dir_text(list: Seq<char>, epoch: u32) -> Seq<char> {
    list + "/"@ + number::decimal(epoch as nat) + ".git"@
}

/// Where the mirror of an epoch lies, below the directory of all mirrors.
pub fn mirror_dir(list: &str, epoch: u32) -> (r: String)
    ensures
        r@ == mirror_dir_text(list@, epoch),
{
    let mut out = String::new();
    out.push_str(list);
    out.push_str("/");
    number::push_decimal(&mut out, epoch);
    out.push_str(".git");
    assert(out@ =~= mirror_dir_text(list@, epoch));
    out
}

/// The words of a git run on the mirror at `path`: where it lies, then `args`.
pub open spec fn mirror_words(path: Seq<char>, args: Seq<Seq<char>>) -> Seq<Seq<char>> {
    seq!["--git-dir="@ + path] + args
}

/// The words of a git run on the mirror at `path`: where it lies, then `args`. Every
/// run on a mirror, a read or an update, has them.
pub fn mirror_args(path: &str, args: &Vec<String>) -> (r: Vec<String>)
    ensures
        text::strings(r@) == mirror_words(path@, text::strings(args@)),
{
    let mut dir = "--git-dir=".to_owned();
    dir.push_str(path);
    let mut words: Vec<String> = vec![dir];
    for i in 0..args.len()
        invariant
            words@.len() == i + 1,
            words@[0]@ == "--git-dir="@ + path@,
            forall|j: int| 0 <= j < i ==> (#[trigger] words@[j + 1])@ == args@[j]@,
    {
        words.push(args[i].as_str().to_owned());
    }
    proof {
        let made = text::strings(words@);
        let meant = mirror_words(path@, text::strings(args@));
        assert forall|k: int| 0 <= k < made.len() implies made[k] == meant[k] by {
            if k > 0 {
                assert(words@[(k - 1) + 1]@ == args@[k - 1]@);
            }
        }
        assert(made =~= meant);
    }
    words
}

/// The words of the git run that mirrors the repository at `url` into `path`.
pub fn clone_args(url: &str, path: &str) -> (r: Vec<String>)
    ensures
        text::strings(r@) == seq!["clone"@, "--mirror"@, url@, path@],
{
    let words: Vec<String> = vec![
        "clone".to_owned(),
        "--mirror".to_owned(),
        url.to_owned(),
        path.to_owned(),
    ];
    assert(text::strings(words@) =~= seq!["clone"@, "--mirror"@, url@, path@]);
    words
}

/// How an epoch is made present and current: by one run of git.
pub enum MirrorStep {
    /// Run git on the mirror with these arguments.
    Update(Vec<String>),
    /// Run git, on no mirror, with these arguments.
    Clone(Vec<String>),
}

/// How an epoch is made present and current, in mathematical form.
pub enum MirrorStepView {
    Update(Seq<Seq<char>>),
    Clone(Seq<Seq<char>>),
}

impl View for MirrorStep {
    type V = MirrorStepView;

    open spec fn view(&self) -> MirrorStepView {
        match self {
            MirrorStep::Update(args) => MirrorStepView::Update(text::strings(args@)),
            MirrorStep::Clone(args) => MirrorStepView::Clone(text::strings(args@)),
        }
    }
}

/// How to make `epoch` present and current locally, where its mirror lies at `path`:
/// refresh it with `git remote update` if it is already cloned, otherwise
/// `git clone --mirror` it.
/// Callers name the epoch they want available and leave the clone-vs-update decision,
/// and which git invocation it implies, to the archive.
pub fn ensure_epoch(list: &str, epoch: u32, path: &str, present: bool) -> (r: MirrorStep)
    ensures
        r@ == if present {
            MirrorStepView::Update(seq!["remote"@, "update"@])
        } else {
            MirrorStepView::Clone(
                seq!["clone"@, "--mirror"@, repo_url_text(list@, epoch), path@],
            )
        },
{
    if present {
        let args: Vec<String> = vec!["remote".to_owned(), "update".to_owned()];
        assert(text::strings(args@) =~= seq!["remote"@, "update"@]);
        MirrorStep::Update(args)
    } else {
        MirrorStep::Clone(clone_args(repo_url(list, epoch).as_str(), path))
    }
}

impl MirrorStep {
    /// All the words of the one git run that this step is, for the mirror at `path`.
    pub fn words(&self, path: &str) -> (r: Vec<String>)
        ensures
            text::strings(r@) == match self@ {
                MirrorStepView::Update(args) => mirror_words(path@, args),
                MirrorStepView::Clone(args) => args,
            },
    {
        match self {
            MirrorStep::Update(args) => mirror_args(path, args),
            MirrorStep::Clone(args) => {
                let mut words: Vec<String> = Vec::new();
                for i in 0..args.len()
                    invariant
                        words@.len() == i,
                        forall|j: int| 0 <= j < i ==> (#[trigger] words@[j])@ == args@[j]@,
                {
                    words.push(args[i].as_str().to_owned());
                }
                assert(text::strings(words@) =~= text::strings(args@));
                words
            },
        }
    }

    /// What the run of git means, given how it ended: the step is done exactly when
    /// git succeeded, and a failure carries git's own stderr.
    pub fn outcome(&self, success: bool, stderr: &[u8]) -> (r: Result<(), ArchiveError>)
        ensures
            match r {
                Ok(_) => success,
                Err(e) => !success && e@ == match self@ {
                    MirrorStepView::Update(args) => (ArchiveErrorView::Git {
                        args: joined(args),
                        stderr: unicode::utf8_lossy(stderr@),
                    }),
                    MirrorStepView::Clone(_) => ArchiveErrorView::Clone(
                        unicode::utf8_lossy(stderr@),
                    ),
                },
            },
    {
        match self {
            MirrorStep::Update(args) => match git_outcome(args, success, &[], stderr) {
                Ok(_) => Ok(()),
                Err(e) => Err(e),
            },
            MirrorStep::Clone(_) => clone_outcome(success, stderr),
        }
    }
}

/// The words, with a space between each two.
pub open spec fn joined(words: Seq<Seq<char>>) -> Seq<char>
    decreases words.len(),
{
    if words.len() == 0 {
        seq![]
    } else if words.len() == 1 {
        words[0]
    } else {
        joined(words.drop_last()) + " "@ + words.last()
    }
}

/// The words, with a space between each two.
fn join(words: &Vec<String>) -> (r: String)
    ensures
        r@ == joined(text::strings(words@)),
{
    let ghost all = text::strings(words@);
    let mut out = String::new();
    assert(all.take(0) =~= Seq::<Seq<char>>::empty());
    for i in 0..words.len()
        invariant
            all == text::strings(words@),
            out@ =~= joined(all.take(i as int)),
    {
        proof {
            assert(all.take(i + 1).drop_last() =~= all.take(i as int));
            assert(all[i as int] == words@[i as int]@);
        }
        if i > 0 {
            out.push_str(" ");
        }
        out.push_str(words[i].as_str());
    }
    assert(all.take(all.len() as int) =~= all);
    out
}

/// What git's run on a mirror means: its output, or, on a non-zero exit, an error
/// carrying git's own stderr. Every read of a mirror goes through here, so they all
/// fail the same way.
pub fn git_outcome(args: &Vec<String>, success: bool, stdout: &[u8], stderr: &[u8]) -> (r: Result<
    String,
    ArchiveError,
>)
    ensures
        match r {
            Ok(out) => success && out@ == unicode::utf8_lossy(stdout@),
            Err(e) => !success && e@ == (ArchiveErrorView::Git {
                args: joined(text::strings(args@)),
                stderr: unicode::utf8_lossy(stderr@),
            }),
        },
{
    if success {
        Ok(unicode::from_utf8_lossy(stdout))
    } else {
        Err(ArchiveError::Git { args: join(args), stderr: unicode::from_utf8_lossy(stderr) })
    }
}

/// What the run of `git clone --mirror` means.
pub fn clone_outcome(success: bool, stderr: &[u8]) -> (r: Result<(), ArchiveError>)
    ensures
        match r {
            Ok(_) => success,
            Err(e) => !success && e@ == ArchiveErrorView::Clone(unicode::utf8_lossy(stderr@)),
        },
{
    if success {
        Ok(())
    } else {
        Err(ArchiveError::Clone(unicode::from_utf8_lossy(stderr)))
    }
}

// Which epochs to search

/// The least of the numbers that stand alone on a line.
pub open spec fn least_stamp(lines: Seq<Seq<char>>) -> Option<int>
    decreases lines.len(),
{
    if lines.len() == 0 {
        None
    } else {
        let before = least_stamp(lines.drop_last());
        match (before, number::signed_value(text::trimmed(lines.last()))) {
            (Some(a), Some(b)) => Some(
                if b < a {
                    b
                } else {
                    a
                },
            ),
            (None, Some(b)) => Some(b),
            (a, None) => a,
        }
    }
}

/// The mathematical form of a point in time that may be missing.
pub open spec fn stamp_view(t: Option<Timestamp>) -> Option<(int, int)> {
    match t {
        Some(at) => Some(at@),
        None => None,
    }
}

/// The point in time that `least_stamp` gives, where it is one.
pub open spec fn start_of(log: Seq<char>) -> Option<(int, int)> {
    match least_stamp(text::lines_of(log)) {
        Some(secs) => if time::in_range(secs, 0) {
            Some((secs, 0))
        } else {
            None
        },
        None => None,
    }
}

/// What git is asked for the committer dates of an epoch.
pub fn start_date_args() -> (r: Vec<String>)
    ensures
        text::strings(r@) == seq!["log"@, "--pretty=format:%ct"@],
{
    let r: Vec<String> = vec!["log".to_owned(), "--pretty=format:%ct".to_owned()];
    assert(text::strings(r@) =~= seq!["log"@, "--pretty=format:%ct"@]);
    r
}

/// When an epoch started archiving: the minimum *committer* date across all
/// commits, given git's log of them, or `None` if it has no commits. The committer
/// date is the moment the mail was imported, so it is monotonic per epoch and immune
/// to the bogus `Date:` headers that pepper big lists. Used to decide whether a query
/// window reaches back before this epoch's coverage: if this date is at or before
/// the window start, the epoch covers the start and no earlier epoch is needed.
pub fn epoch_start_date(log: &str) -> (r: Option<Timestamp>)
    ensures
        stamp_view(r) == start_of(log@),
{
    let chars = text::chars_of(log);
    let rows = text::lines(chars.as_slice());
    let ghost all = text::rows(rows@);
    let mut least: Option<i64> = None;
    assert(all.take(0) =~= Seq::<Seq<char>>::empty());
    for i in 0..rows.len()
        invariant
            all == text::rows(rows@),
            match (least, least_stamp(all.take(i as int))) {
                (Some(a), Some(b)) => a == b,
                (None, None) => true,
                _ => false,
            },
    {
        proof {
            assert(all.take(i + 1).drop_last() =~= all.take(i as int));
            assert(all[i as int] == rows@[i as int]@);
        }
        if let Some(stamp) = number::parse_i64(text::trim(rows[i].as_slice())) {
            least = match least {
                Some(a) => if stamp < a {
                    Some(stamp)
                } else {
                    Some(a)
                },
                None => Some(stamp),
            };
        }
    }
    assert(all.take(all.len() as int) =~= all);
    match least {
        Some(secs) => match time::whole_second(secs) {
            Some(t) => Some(Timestamp::at(t.0, t.1)),
            None => None,
        },
        None => None,
    }
}

/// The walk back over a list's epochs that makes as many of them present as a query
/// window needs.
pub struct EpochWalk {
    epochs: Vec<u32>,
    at: usize,
}

/// The walk in mathematical form: the epochs, oldest first, and the place of the one
/// that it is at.
pub struct EpochWalkView {
    pub epochs: Seq<u32>,
    pub at: int,
}

impl View for EpochWalk {
    type V = EpochWalkView;

    closed spec fn view(&self) -> EpochWalkView {
        EpochWalkView { epochs: self.epochs@, at: self.at as int }
    }
}

/// An epoch that started then covers the start of the window.
pub open spec fn covers_start(started: Option<(int, int)>, window_start: (int, int)) -> bool {
    match started {
        Some(d) => !time::earlier(window_start, d),
        None => false,
    }
}

/// The place that the walk goes to from `at`, once it is known when the epoch there
/// started: the next earlier one, unless the window is covered or `at` is the first.
pub open spec fn next_place(
    at: int,
    started: Option<(int, int)>,
    window_start: (int, int),
) -> int {
    if at <= 0 || covers_start(started, window_start) {
        at
    } else {
        at - 1
    }
}

impl EpochWalk {
    #[verifier::type_invariant]
    spec fn is_at_an_epoch(self) -> bool {
        self.at < self.epochs@.len()
    }

    /// Start at the latest epoch, where there is one.
    pub fn new(epochs: Vec<u32>) -> (r: Option<EpochWalk>)
        ensures
            match r {
                Some(walk) => epochs@.len() > 0 && walk@ == (EpochWalkView {
                    epochs: epochs@,
                    at: epochs@.len() - 1,
                }),
                None => epochs@.len() == 0,
            },
    {
        let n: usize = epochs.len();
        if n == 0 {
            None
        } else {
            Some(EpochWalk { epochs, at: n - 1 })
        }
    }

    /// The epoch that is to be made present.
    pub fn epoch(&self) -> (r: u32)
        ensures
            0 <= self@.at < self@.epochs.len(),
            r == self@.epochs[self@.at],
    {
        proof {
            use_type_invariant(&*self);
        }
        self.epochs[self.at]
    }

    /// Go on, now that the epoch is present and it is known when it started: to the
    /// next earlier one, unless the window is covered or this is the first. Tells
    /// whether there is another epoch to make present.
    pub fn advance(&mut self, started: Option<Timestamp>, window_start: &Timestamp) -> (r: bool)
        ensures
            final(self)@ == (EpochWalkView {
                epochs: old(self)@.epochs,
                at: next_place(old(self)@.at, stamp_view(started), window_start@),
            }),
            r == (final(self)@.at != old(self)@.at),
    {
        let covered = match started {
            Some(d) => !window_start.is_before(&d),
            None => false,
        };
        if covered || self.at == 0 {
            false
        } else {
            proof {
                use_type_invariant(&*self);
            }
            self.at = self.at - 1;
            true
        }
    }

    /// The epochs that were made present, the ones to search, newest first.
    pub fn used(&self) -> (r: Vec<u32>)
        ensures
            r@ == order::stable_sorted(self@.epochs.skip(self@.at), |e: u32| -(e as int)),
    {
        proof {
            use_type_invariant(&*self);
        }
        let ghost held = self.epochs@.skip(self.at as int);
        let ghost key = |e: u32| -(e as int);
        let n: usize = self.epochs.len();
        let mut keys: Vec<i128> = Vec::new();
        for i in self.at..n
            invariant
                n == self.epochs@.len(),
                self.at <= i <= n,
                held == self.epochs@.skip(self.at as int),
                keys@.len() == i - self.at,
                forall|k: int| 0 <= k < keys@.len() ==> #[trigger] keys@[k] == -(held[k] as int),
        {
            keys.push(-(self.epochs[i] as i128));
        }
        let sorted = order::sort_stable(&keys);
        proof {
            assert(order::key_values(keys@) =~= held.map_values(key));
            order::law_stable_order(order::key_values(keys@));
        }
        let mut out: Vec<u32> = Vec::new();
        for k in 0..sorted.len()
            invariant
                n == self.epochs@.len(),
                self.at < n,
                held == self.epochs@.skip(self.at as int),
                keys@.len() == held.len(),
                order::covers(order::places(sorted@), 0, keys@.len() as int),
                out@.len() == k,
                forall|m: int| 0 <= m < k ==> #[trigger] out@[m] == held[sorted@[m] as int],
        {
            assert(order::places(sorted@).contains(order::places(sorted@)[k as int]));
            out.push(self.epochs[self.at + sorted[k]]);
        }
        proof {
            assert(out@ =~= order::stable_sorted(held, key));
            assert(key =~= |e: u32| -(e as int));
        }
        out
    }
}

/// Where the walk from `at` ends, given when each epoch started.
pub open spec fn walk_end(
    started: spec_fn(int) -> Option<(int, int)>,
    window_start: (int, int),
    at: int,
) -> int
    decreases at,
{
    let next = next_place(at, started(at), window_start);
    if next == at {
        at
    } else {
        walk_end(started, window_start, next)
    }
}

/// The walk stops at the latest epoch that covers the start of the window, or at the
/// first epoch: no epoch is made present that the window does not need, and none that
/// it needs is left out.
pub proof fn law_walk_stops_where_the_window_is_covered(
    started: spec_fn(int) -> Option<(int, int)>,
    window_start: (int, int),
    at: int,
)
    requires
        0 <= at,
    ensures
        0 <= walk_end(started, window_start, at) <= at,
        walk_end(started, window_start, at) == 0 || covers_start(
            started(walk_end(started, window_start, at)),
            window_start,
        ),
        forall|k: int|
            walk_end(started, window_start, at) < k <= at ==> !covers_start(
                #[trigger] started(k),
                window_start,
            ),
    decreases at,
{
    if at > 0 && !covers_start(started(at), window_start) {
        law_walk_stops_where_the_window_is_covered(started, window_start, at - 1);
    }
}

// Commits

/// What git is asked for the commits that match the given subject and author
/// substrings.
pub open spec fn search_words(subject: Option<Seq<char>>, author: Option<Seq<char>>) -> Seq<
    Seq<char>,
> {
    seq!["log"@, "--pretty=format:%H %at"@] + (if subject is Some || author is Some {
        seq!["--fixed-strings"@, "--regexp-ignore-case"@]
    } else {
        seq![]
    }) + (match subject {
        Some(needle) => seq!["--grep="@ + needle],
        None => seq![],
    }) + (match author {
        Some(needle) => seq!["--author="@ + needle],
        None => seq![],
    })
}

/// The mathematical form of a needle that may be missing.
pub open spec fn needle_view(s: Option<&str>) -> Option<Seq<char>> {
    match s {
        Some(t) => Some(t@),
        None => None,
    }
}

/// What git is asked for the commits whose mail matches the given subject and/or
/// author substrings. Both needles are case-insensitive fixed strings, and are ANDed
/// when both are given.
pub fn search_args(subject: Option<&str>, author: Option<&str>) -> (r: Vec<String>)
    ensures
        text::strings(r@) == search_words(needle_view(subject), needle_view(author)),
{
    let mut args: Vec<String> = vec!["log".to_owned(), "--pretty=format:%H %at".to_owned()];
    if subject.is_some() || author.is_some() {
        args.push("--fixed-strings".to_owned());
        args.push("--regexp-ignore-case".to_owned());
    }
    if let Some(needle) = subject {
        let mut arg = "--grep=".to_owned();
        arg.push_str(needle);
        args.push(arg);
    }
    if let Some(needle) = author {
        let mut arg = "--author=".to_owned();
        arg.push_str(needle);
        args.push(arg);
    }
    assert(text::strings(args@) =~= search_words(needle_view(subject), needle_view(author)));
    args
}

/// A line of the log: the author date, as far as it is a number, and the commit.
pub open spec fn log_row(line: Seq<char>) -> Option<(int, Seq<char>)> {
    match text::find_char_in(line, ' ') {
        Some(i) => Some(
            (
                match number::signed_value(text::trimmed(line.skip(i + 1))) {
                    Some(stamp) => stamp,
                    None => 0,
                },
                line.take(i),
            ),
        ),
        None => None,
    }
}

/// The rows of the log.
pub open spec fn log_rows(log: Seq<char>) -> Seq<(int, Seq<char>)> {
    text::lines_of(log).filter_map(|line: Seq<char>| log_row(line))
}

/// The rows of the log, newest first, and among equal dates in the order they had.
pub open spec fn newest_first(rows: Seq<(int, Seq<char>)>) -> Seq<(int, Seq<char>)> {
    order::stable_sorted(rows, |row: (int, Seq<char>)| -row.0)
}

/// The commits of the log, newest first.
pub open spec fn commits_of(log: Seq<char>) -> Seq<Seq<char>> {
    newest_first(log_rows(log)).map_values(|row: (int, Seq<char>)| row.1)
}

/// The commits in git's answer to `search_args`, newest first by the mail's own
/// `Date:` header, which the archive records as the git *author* date. Sorting on it
/// gives a globally date-ordered list without reading any mail bodies. (The log's
/// natural order is the archival date, which can shuffle a batch received in one
/// second.)
pub fn search_commits(log: &str) -> (r: Vec<String>)
    ensures
        text::strings(r@) == commits_of(log@),
{
    let chars = text::chars_of(log);
    let lines = text::lines(chars.as_slice());
    let ghost all = text::lines_of(log@);
    let ghost pick = |line: Seq<char>| log_row(line);
    let mut hashes: Vec<String> = Vec::new();
    let mut keys: Vec<i128> = Vec::new();
    proof {
        reveal(Seq::filter_map);
        assert(all.take(0) =~= Seq::<Seq<char>>::empty());
    }
    for i in 0..lines.len()
        invariant
            all == text::rows(lines@),
            pick == (|line: Seq<char>| log_row(line)),
            hashes@.len() == all.take(i as int).filter_map(pick).len(),
            keys@.len() == hashes@.len(),
            forall|k: int|
                0 <= k < hashes@.len() ==> (#[trigger] hashes@[k])@ == all.take(
                    i as int,
                ).filter_map(pick)[k].1,
            forall|k: int|
                0 <= k < keys@.len() ==> #[trigger] keys@[k] == -all.take(i as int).filter_map(
                    pick,
                )[k].0,
    {
        let line = lines[i].as_slice();
        let n: usize = line.len();
        proof {
            reveal(Seq::filter_map);
            assert(all.take(i + 1).drop_last() =~= all.take(i as int));
            assert(all.take(i + 1).last() == all[i as int]);
            assert(all[i as int] == lines@[i as int]@);
            assert(pick(line@) == log_row(line@));
            text::lemma_find_char(line@, ' ');
        }
        match text::find_char(line, ' ') {
            Some(at) => {
                let hash = slice_subrange(line, 0, at);
                let rest = slice_subrange(line, at + 1, n);
                assert(hash@ =~= line@.take(at as int));
                assert(rest@ =~= line@.skip(at + 1));
                let stamp: i64 = match number::parse_i64(text::trim(rest)) {
                    Some(stamp) => stamp,
                    None => 0,
                };
                hashes.push(text::string_of(hash));
                keys.push(-(stamp as i128));
            },
            None => {},
        }
    }
    let ghost rows = log_rows(log@);
    let ghost key = |row: (int, Seq<char>)| -row.0;
    proof {
        assert(all.take(all.len() as int) =~= all);
        assert(order::key_values(keys@) =~= rows.map_values(key));
        order::law_stable_order(order::key_values(keys@));
    }
    let sorted = order::sort_stable(&keys);
    let mut out: Vec<String> = Vec::new();
    for k in 0..sorted.len()
        invariant
            keys@.len() == hashes@.len(),
            rows.len() == hashes@.len(),
            forall|m: int| 0 <= m < hashes@.len() ==> (#[trigger] hashes@[m])@ == rows[m].1,
            order::covers(order::places(sorted@), 0, keys@.len() as int),
            out@.len() == k,
            forall|m: int|
                0 <= m < k ==> (#[trigger] out@[m])@ == rows[order::places(sorted@)[m]].1,
    {
        assert(order::places(sorted@).contains(order::places(sorted@)[k as int]));
        let at: usize = sorted[k];
        out.push(hashes[at].clone());
    }
    proof {
        assert(key =~= |row: (int, Seq<char>)| -row.0);
        assert(text::strings(out@) =~= commits_of(log@));
    }
    out
}

/// All commits in git's answer to `search_args` without needles, newest first by the
/// mail's own `Date:` header.
pub fn list_all_commits(log: &str) -> (r: Vec<String>)
    ensures
        text::strings(r@) == commits_of(log@),
{
    search_commits(log)
}

/// What git is asked for the commits since a time, given as text.
pub open spec fn since_words(shown: Seq<char>) -> Seq<Seq<char>> {
    seq!["log"@, "--pretty=format:%H"@, "--since="@ + shown]
}

/// What git is asked for the commits since a time, given as text.
pub fn since_args_for(shown: &str) -> (r: Vec<String>)
    ensures
        text::strings(r@) == since_words(shown@),
{
    let mut arg = "--since=".to_owned();
    arg.push_str(shown);
    let r: Vec<String> = vec!["log".to_owned(), "--pretty=format:%H".to_owned(), arg];
    assert(text::strings(r@) =~= since_words(shown@));
    r
}

/// What git is asked for the commits whose committer date is at or after `since`. Git
/// prunes a large epoch quickly by it for time-windowed queries (the last 24 hours,
/// say).
pub fn since_args(since: &Timestamp) -> (r: Vec<String>)
    ensures
        text::strings(r@) == since_words(
            time::utc_text(since@.0 as i64, since@.1 as u32, time::SINCE_FORMAT@),
        ),
{
    let shown = time::format_utc(since.secs(), since.nanos(), time::SINCE_FORMAT);
    since_args_for(shown.as_str())
}

/// The commits in git's answer to `since_args`: the lines that are not empty.
pub fn list_commits_since(log: &str) -> (r: Vec<String>)
    ensures
        text::strings(r@) == text::lines_of(log@).filter(|line: Seq<char>| line.len() > 0),
{
    let chars = text::chars_of(log);
    let lines = text::lines(chars.as_slice());
    let ghost all = text::lines_of(log@);
    let ghost p = |line: Seq<char>| line.len() > 0;
    let mut out: Vec<String> = Vec::new();
    proof {
        reveal(Seq::filter);
        assert(all.take(0) =~= Seq::<Seq<char>>::empty());
    }
    for i in 0..lines.len()
        invariant
            all == text::rows(lines@),
            p == (|line: Seq<char>| line.len() > 0),
            out@.len() == all.take(i as int).filter(p).len(),
            forall|k: int|
                0 <= k < out@.len() ==> (#[trigger] out@[k])@ == all.take(i as int).filter(p)[k],
    {
        proof {
            reveal(Seq::filter);
            assert(all.take(i + 1).drop_last() =~= all.take(i as int));
            assert(all.take(i + 1).last() == all[i as int]);
            assert(all[i as int] == lines@[i as int]@);
        }
        if lines[i].len() > 0 {
            out.push(text::string_of(lines[i].as_slice()));
        }
    }
    proof {
        assert(all.take(all.len() as int) =~= all);
        assert(p =~= |line: Seq<char>| line.len() > 0);
        assert(text::strings(out@) =~= all.filter(p));
    }
    out
}

// Mails

/// What git is asked for the mails at the commits.
pub open spec fn request_text(commits: Seq<Seq<char>>) -> Seq<char>
    decreases commits.len(),
{
    if commits.len() == 0 {
        seq![]
    } else {
        request_text(commits.drop_last()) + commits.last() + ":m\n"@
    }
}

/// What git is asked for the mails at the commits, the `m` blob of each, in the order
/// of the commits.
pub fn batch_requests(commits: &Vec<String>) -> (r: String)
    ensures
        r@ == request_text(text::strings(commits@)),
{
    let ghost all = text::strings(commits@);
    let mut out = String::new();
    assert(all.take(0) =~= Seq::<Seq<char>>::empty());
    for i in 0..commits.len()
        invariant
            all == text::strings(commits@),
            out@ =~= request_text(all.take(i as int)),
    {
        proof {
            assert(all.take(i + 1).drop_last() =~= all.take(i as int));
            assert(all.take(i + 1).last() == commits@[i as int]@);
        }
        out.push_str(commits[i].as_str());
        out.push_str(":m\n");
    }
    assert(all.take(all.len() as int) =~= all);
    out
}

/// The end of a line, the first from `from` on.
pub open spec fn line_end(bytes: Seq<u8>, from: int) -> Option<int>
    decreases bytes.len() - from,
{
    if from < 0 || from >= bytes.len() {
        None
    } else if bytes[from] == 10 {
        Some(from)
    } else {
        line_end(bytes, from + 1)
    }
}

/// What stands after the last space, all of it where there is none.
pub open spec fn last_word(s: Seq<char>) -> Seq<char>
    decreases s.len(),
{
    if s.len() == 0 || s.last() == ' ' {
        seq![]
    } else {
        last_word(s.drop_last()).push(s.last())
    }
}

/// The size of the content that a header line announces, where it announces any.
pub open spec fn announced_size(header: Seq<u8>) -> Option<int> {
    number::unsigned_value(last_word(unicode::utf8_lossy(header)), usize::MAX as int)
}

/// The answers in git's output from `from` on: the text of a hit, nothing for a miss.
pub open spec fn batch_answers(bytes: Seq<u8>, from: int) -> Seq<Option<Seq<char>>>
    decreases bytes.len() + 1 - from,
{
    match line_end(bytes, from) {
        None => seq![],
        Some(end) => {
            let start = end + 1;
            proof {
                lemma_line_end(bytes, from);
            }
            match announced_size(bytes.subrange(from, end)) {
                None => seq![None::<Seq<char>>] + batch_answers(bytes, start),
                Some(size) => if size < 0 || start + size > bytes.len() {
                    seq![]
                } else {
                    seq![Some(unicode::utf8_lossy(bytes.subrange(start, start + size)))]
                        + batch_answers(bytes, start + size + 1)
                },
            }
        },
    }
}

/// A line ends at a line feed, with none before it.
pub proof fn lemma_line_end(bytes: Seq<u8>, from: int)
    ensures
        match line_end(bytes, from) {
            Some(end) => 0 <= from <= end < bytes.len() && bytes[end] == 10 && forall|j: int|
                from <= j < end ==> #[trigger] bytes[j] != 10,
            None => from < 0 || forall|j: int| from <= j < bytes.len() ==> #[trigger] bytes[j] != 10,
        },
    decreases bytes.len() - from,
{
    if 0 <= from < bytes.len() && bytes[from] != 10 {
        lemma_line_end(bytes, from + 1);
    }
}

/// A line feed with none before it ends the line.
proof fn lemma_ends_line(bytes: Seq<u8>, from: int, end: int)
    requires
        0 <= from <= end <= bytes.len(),
        forall|j: int| from <= j < end ==> #[trigger] bytes[j] != 10,
        end < bytes.len() ==> bytes[end] == 10,
    ensures
        line_end(bytes, from) == if end < bytes.len() {
            Some(end)
        } else {
            None
        },
    decreases end - from,
{
    if from < end {
        lemma_ends_line(bytes, from + 1, end);
    }
}

/// The end of a line, the first from `from` on.
fn find_line_end(bytes: &[u8], from: usize) -> (r: Option<usize>)
    requires
        from <= bytes@.len(),
    ensures
        match (r, line_end(bytes@, from as int)) {
            (Some(a), Some(b)) => a == b,
            (None, None) => true,
            _ => false,
        },
{
    let n: usize = bytes.len();
    let mut at: usize = from;
    while at < n && bytes[at] != 10
        invariant
            n == bytes@.len(),
            from <= at <= n,
            forall|j: int| from <= j < at ==> #[trigger] bytes@[j] != 10,
        decreases n - at,
    {
        at = at + 1;
    }
    proof {
        lemma_ends_line(bytes@, from as int, at as int);
    }
    if at < n {
        Some(at)
    } else {
        None
    }
}

/// What stands after the last space, told by its neighbours.
proof fn lemma_last_word(s: Seq<char>, k: int)
    requires
        0 <= k <= s.len(),
        forall|j: int| k <= j < s.len() ==> #[trigger] s[j] != ' ',
        k > 0 ==> s[k - 1] == ' ',
    ensures
        last_word(s) == s.skip(k),
    decreases s.len(),
{
    if k == s.len() {
        assert(s.skip(k) =~= Seq::<char>::empty());
    } else {
        lemma_last_word(s.drop_last(), k);
        assert(s.skip(k) =~= s.drop_last().skip(k).push(s.last()));
    }
}

/// The size of the content that a header line announces, where it announces any.
fn header_size(header: &[u8]) -> (r: Option<usize>)
    ensures
        match (r, announced_size(header@)) {
            (Some(a), Some(b)) => a == b,
            (None, None) => true,
            _ => false,
        },
{
    let line = text::chars_of(unicode::from_utf8_lossy(header).as_str());
    let n: usize = line.len();
    let mut k: usize = n;
    while k > 0 && line[k - 1] != ' '
        invariant
            n == line@.len(),
            k <= n,
            forall|j: int| k <= j < n ==> #[trigger] line@[j] != ' ',
        decreases k,
    {
        k = k - 1;
    }
    proof {
        lemma_last_word(line@, k as int);
    }
    let word = slice_subrange(line.as_slice(), k, n);
    assert(word@ =~= line@.skip(k as int));
    number::parse_usize(word)
}

/// Split git's batch output into one entry per answer, in request order. Every answer
/// opens with a header line: `<oid> <type> <size>` for a hit, or `<request> missing`
/// for a miss, which is all a miss gets. A hit is then `size` bytes of content and a
/// newline.
pub fn split_batch(bytes: &[u8]) -> (r: Vec<Option<String>>)
    ensures
        mail::blob_views(r@) == batch_answers(bytes@, 0),
{
    let ghost s = bytes@;
    let n: usize = bytes.len();
    let mut out: Vec<Option<String>> = Vec::new();
    let mut from: usize = 0;
    assert(mail::blob_views(out@) + batch_answers(s, 0) =~= batch_answers(s, 0));
    loop
        invariant_except_break
            s == bytes@,
            n == s.len(),
            from <= n,
            batch_answers(s, 0) == mail::blob_views(out@) + batch_answers(s, from as int),
        ensures
            mail::blob_views(out@) == batch_answers(s, 0),
        decreases n - from,
    {
        proof {
            lemma_line_end(s, from as int);
        }
        let ghost before = mail::blob_views(out@);
        match find_line_end(bytes, from) {
            None => {
                assert(before + Seq::<Option<Seq<char>>>::empty() =~= before);
                break;
            },
            Some(end) => {
                let header = slice_subrange(bytes, from, end);
                let start: usize = end + 1;
                match header_size(header) {
                    None => {
                        out.push(None);
                        proof {
                            let rest = batch_answers(s, start as int);
                            assert(mail::blob_views(out@) =~= before.push(None));
                            assert(before.push(None) + rest =~= before + (seq![None::<Seq<char>>]
                                + rest));
                        }
                        from = start;
                    },
                    Some(size) => {
                        if size > n - start {
                            assert(before + Seq::<Option<Seq<char>>>::empty() =~= before);
                            break;
                        }
                        let stop: usize = start + size;
                        let content = slice_subrange(bytes, start, stop);
                        let mail_text = unicode::from_utf8_lossy(content);
                        out.push(Some(mail_text));
                        proof {
                            let entry = Some(unicode::utf8_lossy(s.subrange(
                                start as int,
                                stop as int,
                            )));
                            let rest = batch_answers(s, stop + 1);
                            assert(mail::blob_views(out@) =~= before.push(entry));
                            assert(before.push(entry) + rest =~= before + (seq![entry] + rest));
                            if stop == n {
                                assert(rest =~= Seq::<Option<Seq<char>>>::empty());
                                assert(batch_answers(s, n as int) =~= rest);
                            }
                        }
                        from = if stop < n {
                            stop + 1
                        } else {
                            n
                        };
                    },
                }
            },
        }
    }
    out
}

/// The answers, one for each of `n` requests: cut where there are more, filled up with
/// misses where there are fewer.
pub open spec fn aligned(answers: Seq<Option<Seq<char>>>, n: nat) -> Seq<Option<Seq<char>>> {
    Seq::new(
        n,
        |i: int|
            if i < answers.len() {
                answers[i]
            } else {
                None
            },
    )
}

/// The arguments of the git run, on a mirror, that answers requests for blobs.
pub fn batch_args() -> (r: Vec<String>)
    ensures
        text::strings(r@) == seq!["cat-file"@, "--batch"@],
{
    let args: Vec<String> = vec!["cat-file".to_owned(), "--batch".to_owned()];
    assert(text::strings(args@) =~= seq!["cat-file"@, "--batch"@]);
    args
}

/// The mails at `commits`, given how git's batch run ended and what it wrote, in the
/// order asked for.
///
/// Answers come back in request order, so the result is index-aligned with `commits`:
/// a commit whose blob will not read is `None`, rather than a gap that would shift
/// every mail after it onto the wrong commit.
pub fn show_mails(commits: &Vec<String>, success: bool, output: &[u8]) -> (r: Result<
    Vec<Option<String>>,
    ArchiveError,
>)
    ensures
        match r {
            Ok(blobs) => (success || commits@.len() == 0) && mail::blob_views(blobs@) == aligned(
                batch_answers(output@, 0),
                commits@.len(),
            ),
            Err(e) => !success && commits@.len() > 0 && e@ == ArchiveErrorView::Batch,
        },
{
    let n: usize = commits.len();
    let mut blobs: Vec<Option<String>> = Vec::new();
    if n == 0 {
        assert(mail::blob_views(blobs@) =~= aligned(batch_answers(output@, 0), 0));
        return Ok(blobs);
    }
    if !success {
        return Err(ArchiveError::Batch);
    }
    blobs = split_batch(output);
    let ghost answers = batch_answers(output@, 0);
    blobs.truncate(n);
    // Git answers every request; pad anyway so that a truncated read can only lose
    // mails, never shift the ones after it onto the wrong commit.
    let ghost held = mail::blob_views(blobs@);
    assert(forall|i: int| 0 <= i < held.len() ==> #[trigger] held[i] == answers[i]);
    while blobs.len() < n
        invariant
            n == commits@.len(),
            answers == batch_answers(output@, 0),
            held.len() <= blobs@.len() <= n,
            held.len() < n ==> held.len() == answers.len(),
            held.len() <= answers.len(),
            forall|i: int| 0 <= i < held.len() ==> #[trigger] held[i] == answers[i],
            forall|i: int|
                0 <= i < blobs@.len() ==> #[trigger] mail::blob_views(blobs@)[i] == if i
                    < held.len() {
                    held[i]
                } else {
                    None
                },
        decreases n - blobs@.len(),
    {
        let ghost before = blobs@;
        blobs.push(None);
        assert(mail::blob_views(blobs@) =~= mail::blob_views(before).push(None));
    }
    assert(mail::blob_views(blobs@) =~= aligned(answers, n as nat));
    Ok(blobs)
}

/// The rows of the log are all kept, newest first.
pub proof fn law_commits_come_newest_first(rows: Seq<(int, Seq<char>)>)
    ensures
        newest_first(rows).to_multiset() == rows.to_multiset(),
        newest_first(rows).len() == rows.len(),
        forall|a: int, b: int|
            0 <= a < b < rows.len() ==> (#[trigger] newest_first(rows)[a]).0 >= (
            #[trigger] newest_first(rows)[b]).0,
{
    let key = |row: (int, Seq<char>)| -row.0;
    order::law_stable_sort(rows, key);
    assert forall|a: int, b: int| 0 <= a < b < rows.len() implies (#[trigger] newest_first(
        rows,
    )[a]).0 >= (#[trigger] newest_first(rows)[b]).0 by {
        assert(key(newest_first(rows)[a]) <= key(newest_first(rows)[b]));
    }
}

/// Where a pattern cannot overlap itself, every place where it stands is found.
proof fn lemma_all_matches_found(s: Seq<char>, pat: Seq<char>, from: int, i: int)
    requires
        0 <= from <= i,
        pat.len() > 0,
        text::occurs_at(s, pat, i),
        forall|j: int| 0 < j < pat.len() ==> #[trigger] pat[j] != pat[0],
    ensures
        matches_from(s, pat, from).contains(i),
    decreases s.len() - from,
{
    text::lemma_first_match(s, pat, from);
    let found = matches_from(s, pat, from);
    match text::first_match(s, pat, from) {
        None => {},
        Some(k) => {
            assert(found[0] == k);
            if k < i {
                if i < k + pat.len() {
                    assert(s.subrange(i, i + pat.len())[0] == s[i]);
                    assert(s.subrange(k, k + pat.len())[i - k] == s[i]);
                    assert(pat[i - k] != pat[0]);
                }
                lemma_all_matches_found(s, pat, k + pat.len(), i);
                let rest = matches_from(s, pat, k + pat.len());
                let m = choose|m: int| 0 <= m < rest.len() && rest[m] == i;
                assert(found[m + 1] == i);
            }
        },
    }
}

/// An epoch whose repository the manifest names is published: `"/list/git/N.git"`, for a
/// list whose name holds no quotation mark.
pub proof fn law_named_epochs_are_published(json: Seq<char>, list: Seq<char>, n: u32, i: int)
    requires
        forall|j: int| 0 <= j < list.len() ==> #[trigger] list[j] != '"',
        text::occurs_at(
            json,
            seq!['"', '/'] + list + seq!['/', 'g', 'i', 't', '/'] + number::decimal(n as nat)
                + seq!['.', 'g', 'i', 't', '"'],
            i,
        ),
    ensures
        publishes(json, list, n as int),
{
    let prefix = epoch_prefix(list);
    let digits = number::decimal(n as nat);
    let tail = seq!['.', 'g', 'i', 't', '"'];
    let entry = prefix + digits + tail;
    let found = matches_from(json, prefix, 0);
    let stands = json.subrange(i, i + entry.len());
    assert(json.subrange(i, i + prefix.len()) =~= prefix) by {
        assert forall|j: int| 0 <= j < prefix.len() implies json.subrange(i, i + prefix.len())[j]
            == prefix[j] by {
            assert(stands[j] == entry[j]);
        }
    }
    assert forall|j: int| 0 < j < prefix.len() implies #[trigger] prefix[j] != prefix[0] by {
        if 2 <= j < 2 + list.len() {
            assert(prefix[j] == list[j - 2]);
        }
    }
    lemma_all_matches_found(json, prefix, 0, i);
    let k = choose|k: int| 0 <= k < found.len() && found[k] == i;
    let start = i + prefix.len();
    let rest = json.skip(start);
    let p = |c: char| number::is_digit(c);
    number::lemma_decimal_reads_back(n as nat);
    assert forall|j: int| 0 <= j < digits.len() implies #[trigger] rest[j] == digits[j] by {
        assert(stands[prefix.len() + j] == entry[prefix.len() + j]);
    }
    assert forall|j: int| 0 <= j < digits.len() implies p(#[trigger] rest[j]) by {
        assert(number::is_digit(digits[j]));
    }
    assert(rest[digits.len() as int] == '.') by {
        let at = prefix.len() + digits.len();
        assert(stands[at as int] == entry[at as int]);
    }
    text::lemma_strip_front(rest, p, digits.len() as int);
    assert(p =~= |c: char| number::is_digit(c));
    assert(leading_digits(rest) =~= digits);
    number::law_unsigned_reads_decimal(n as nat, u32::MAX as int);
    assert(epoch_at(json, found[k] + prefix.len()) == Some(n as int));
}

/// What is found are places where the pattern stands.
proof fn lemma_found_stands(s: Seq<char>, pat: Seq<char>, from: int)
    requires
        0 <= from,
    ensures
        forall|k: int|
            0 <= k < matches_from(s, pat, from).len() ==> text::occurs_at(
                s,
                pat,
                #[trigger] matches_from(s, pat, from)[k],
            ),
    decreases s.len() - from,
{
    if pat.len() > 0 {
        text::lemma_first_match(s, pat, from);
        if let Some(i) = text::first_match(s, pat, from) {
            let rest = matches_from(s, pat, i + pat.len());
            lemma_found_stands(s, pat, i + pat.len());
            let all = matches_from(s, pat, from);
            assert(all =~= seq![i] + rest);
            assert forall|k: int| 0 <= k < all.len() implies text::occurs_at(
                s,
                pat,
                #[trigger] all[k],
            ) by {
                if k > 0 {
                    assert(all[k] == rest[k - 1]);
                }
            }
        }
    }
}

/// An epoch that is published is one that the manifest names: after `"/list/git/` stand
/// digits that write its number, as many as there are. Returns where.
pub proof fn law_published_epochs_are_named(json: Seq<char>, list: Seq<char>, e: int) -> (at: (
    int,
    int,
))
    requires
        publishes(json, list, e),
    ensures
        ({
            let prefix = seq!['"', '/'] + list + seq!['/', 'g', 'i', 't', '/'];
            let (start, end) = at;
            &&& prefix.len() <= start < end <= json.len()
            &&& json.subrange(start - prefix.len(), start) == prefix
            &&& forall|j: int| start <= j < end ==> number::is_digit(#[trigger] json[j])
            &&& end < json.len() ==> !number::is_digit(json[end])
            &&& number::digits_value(json.subrange(start, end)) == e
            &&& 0 <= e <= u32::MAX
        }),
{
    let prefix = epoch_prefix(list);
    let found = matches_from(json, prefix, 0);
    let k = choose|k: int|
        0 <= k < found.len() && #[trigger] epoch_at(json, found[k] + prefix.len()) == Some(e);
    lemma_found_stands(json, prefix, 0);
    let start = found[k] + prefix.len();
    let rest = json.skip(start);
    let p = |c: char| number::is_digit(c);
    let run = text::lemma_front_run(rest, p);
    assert(p =~= |c: char| number::is_digit(c));
    let digits = leading_digits(rest);
    assert(digits =~= rest.take(run));
    assert forall|j: int| start <= j < start + run implies number::is_digit(
        #[trigger] json[j],
    ) by {
        assert(p(rest[j - start]));
    }
    if digits.len() > 0 {
        assert(digits[0] == rest[0]);
        assert(p(rest[0]));
        assert(digits[0] != '+');
    }
    if run < rest.len() {
        assert(!p(rest[run]));
        assert(rest[run] == json[start + run]);
    }
    assert(digits =~= json.subrange(start, start + run));
    number::lemma_digits_value_grows(digits, digits.len() as int);
    assert(digits.take(digits.len() as int) =~= digits);
    (start, start + run)
}

/// The epochs of a list come oldest first, each once, and they are the ones that are
/// published; there is an answer exactly where there are any.
pub proof fn law_epochs_come_oldest_first(epochs: Seq<u32>, json: Seq<char>, list: Seq<char>, e: u32)
    requires
        lists_epochs(epochs, |x: int| publishes(json, list, x)),
    ensures
        forall|a: int, b: int| 0 <= a < b < epochs.len() ==> epochs[a] < epochs[b],
        epochs.contains(e) <==> publishes(json, list, e as int),
{
}

/// There is an answer exactly where an epoch is published; otherwise the error names the
/// list.
pub proof fn law_epochs_are_found_where_there_are_any(
    r: Result<Vec<u32>, ArchiveError>,
    json: Seq<char>,
    list: Seq<char>,
)
    requires
        epochs_answer(r, json, list),
    ensures
        r is Ok <==> exists|n: u32| #[trigger] publishes(json, list, n as int),
        r matches Ok(epochs) ==> lists_epochs(epochs@, |e: int| publishes(json, list, e)),
        r matches Err(e) ==> e@ == ArchiveErrorView::NoEpochs(list),
{
    if let Ok(epochs) = r {
        let known = |e: int| publishes(json, list, e);
        assert(epochs@.contains(epochs@[0]));
        assert(known(epochs@[0] as int));
        assert(publishes(json, list, epochs@[0] as int));
    }
}

/// An epoch starts at the least number that stands alone on a line of the log, white space
/// apart; other lines say nothing.
pub proof fn law_epoch_starts_at_its_least_stamp(log: Seq<char>, k: int)
    requires
        0 <= k < text::lines_of(log).len(),
    ensures
        start_of(log) matches Some(t) ==> {
            &&& t.1 == 0
            &&& exists|j: int|
                0 <= j < text::lines_of(log).len() && number::signed_value(
                    text::trimmed(#[trigger] text::lines_of(log)[j]),
                ) == Some(t.0)
            &&& number::signed_value(text::trimmed(text::lines_of(log)[k])) matches Some(x) ==> t.0
                <= x
        },
        start_of(log) is None ==> (forall|j: int|
            0 <= j < text::lines_of(log).len() ==> number::signed_value(
                text::trimmed(#[trigger] text::lines_of(log)[j]),
            ) is None) || (exists|j: int|
            0 <= j < text::lines_of(log).len() && (number::signed_value(
                text::trimmed(#[trigger] text::lines_of(log)[j]),
            ) matches Some(x) && !time::in_range(x, 0))),
{
    lemma_least_stamp(text::lines_of(log));
}

/// The least number is one of them, and no other is less.
proof fn lemma_least_stamp(lines: Seq<Seq<char>>)
    ensures
        match least_stamp(lines) {
            Some(t) => (exists|j: int|
                0 <= j < lines.len() && number::signed_value(text::trimmed(#[trigger] lines[j]))
                    == Some(t)) && forall|j: int|
                0 <= j < lines.len() ==> (number::signed_value(text::trimmed(#[trigger] lines[j]))
                    matches Some(x) ==> t <= x),
            None => forall|j: int|
                0 <= j < lines.len() ==> number::signed_value(text::trimmed(#[trigger] lines[j]))
                    is None,
        },
    decreases lines.len(),
{
    if lines.len() > 0 {
        let front = lines.drop_last();
        let last = lines.len() - 1;
        lemma_least_stamp(front);
        assert forall|j: int| 0 <= j < front.len() implies #[trigger] lines[j] == front[j] by {}
        if let Some(a) = least_stamp(front) {
            let j = choose|j: int|
                0 <= j < front.len() && number::signed_value(text::trimmed(#[trigger] front[j]))
                    == Some(a);
            assert(lines[j] == front[j]);
        }
        assert(lines[last] == lines.last());
        assert forall|j: int| 0 <= j < lines.len() implies (number::signed_value(
            text::trimmed(#[trigger] lines[j]),
        ) matches Some(x) ==> least_stamp(lines) is Some && least_stamp(lines)->0 <= x) by {
            if j < last {
                assert(front[j] == lines[j]);
            }
        }
    }
}

/// An epoch covers the start of a window exactly when it started then or before.
pub proof fn law_covering_means_started_in_time(d: (int, int), window_start: (int, int))
    ensures
        covers_start(Some(d), window_start) <==> d.0 < window_start.0 || (d.0 == window_start.0
            && d.1 <= window_start.1),
        !covers_start(None, window_start),
{
}

/// A step of the walk goes to the next earlier epoch, unless the window is covered or there
/// is none.
pub proof fn law_walk_goes_back_one_epoch(
    at: int,
    started: Option<(int, int)>,
    window_start: (int, int),
)
    requires
        at >= 0,
    ensures
        at > 0 && !covers_start(started, window_start) ==> next_place(at, started, window_start)
            == at - 1,
        at == 0 || covers_start(started, window_start) ==> next_place(at, started, window_start)
            == at,
{
}

/// The epochs to search are those from where the walk ended on, newest first.
pub proof fn law_used_epochs_come_newest_first(epochs: Seq<u32>, at: int)
    requires
        0 <= at < epochs.len(),
    ensures
        ({
            let used = order::stable_sorted(epochs.skip(at), |e: u32| -(e as int));
            &&& used.to_multiset() == epochs.skip(at).to_multiset()
            &&& used.len() == epochs.len() - at
            &&& forall|a: int, b: int|
                0 <= a < b < used.len() ==> #[trigger] used[a] >= #[trigger] used[b]
        }),
{
    let key = |e: u32| -(e as int);
    let held = epochs.skip(at);
    let used = order::stable_sorted(held, key);
    order::law_stable_sort(held, key);
    assert forall|a: int, b: int| 0 <= a < b < used.len() implies #[trigger] used[a]
        >= #[trigger] used[b] by {
        assert(key(used[a]) <= key(used[b]));
    }
}

/// Every needle that is given is looked for, as a fixed string and in any case, and none
/// that is not. The commits come with their author dates.
pub proof fn law_search_looks_for_every_needle(
    subject: Option<Seq<char>>,
    author: Option<Seq<char>>,
)
    ensures
        search_words(None, None) == seq!["log"@, "--pretty=format:%H %at"@],
        subject matches Some(x) ==> search_words(subject, None) == seq![
            "log"@,
            "--pretty=format:%H %at"@,
            "--fixed-strings"@,
            "--regexp-ignore-case"@,
            "--grep="@ + x,
        ],
        author matches Some(y) ==> search_words(None, author) == seq![
            "log"@,
            "--pretty=format:%H %at"@,
            "--fixed-strings"@,
            "--regexp-ignore-case"@,
            "--author="@ + y,
        ],
        (subject, author) matches (Some(x), Some(y)) ==> search_words(subject, author) == seq![
            "log"@,
            "--pretty=format:%H %at"@,
            "--fixed-strings"@,
            "--regexp-ignore-case"@,
            "--grep="@ + x,
            "--author="@ + y,
        ],
{
}

/// A date as git writes it: a number, with a sign where it lies before 1970.
pub open spec fn date_digits(stamp: int) -> Seq<char> {
    if stamp < 0 {
        seq!['-'] + number::decimal((-stamp) as nat)
    } else {
        number::decimal(stamp as nat)
    }
}

/// A line of the log, as git writes it: the commit, a space, and the date.
pub open spec fn log_line(row: (int, Seq<char>)) -> Seq<char> {
    row.1 + seq![' '] + date_digits(row.0)
}

/// The log that git writes is read back: each commit with its date, in order.
pub proof fn law_log_reads_back(rows: Seq<(int, Seq<char>)>, crlf: bool)
    requires
        forall|i: int|
            0 <= i < rows.len() ==> i64::MIN <= (#[trigger] rows[i]).0 <= i64::MAX
                && text::is_one_line(rows[i].1) && forall|j: int|
                0 <= j < rows[i].1.len() ==> #[trigger] rows[i].1[j] != ' ',
    ensures
        log_rows(
            text::written_lines(rows.map_values(|row: (int, Seq<char>)| log_line(row)), crlf),
        ) == rows,
{
    let lines = rows.map_values(|row: (int, Seq<char>)| log_line(row));
    let pick = |line: Seq<char>| log_row(line);
    assert forall|i: int| 0 <= i < rows.len() implies text::is_one_line(#[trigger] lines[i])
        && log_row(lines[i]) == Some(rows[i]) by {
        lemma_log_line(rows[i]);
    }
    text::law_lines_read_back(lines, crlf);
    lemma_all_picked(lines, pick, rows);
    assert(pick =~= |line: Seq<char>| log_row(line));
}

/// A line of the log is a row.
proof fn lemma_log_line(row: (int, Seq<char>))
    requires
        i64::MIN <= row.0 <= i64::MAX,
        text::is_one_line(row.1),
        forall|j: int| 0 <= j < row.1.len() ==> #[trigger] row.1[j] != ' ',
    ensures
        text::is_one_line(log_line(row)),
        log_row(log_line(row)) == Some(row),
{
    let line = log_line(row);
    let n = row.1.len() as int;
    let size = if row.0 < 0 {
        (-row.0) as nat
    } else {
        row.0 as nat
    };
    let digits = number::decimal(size);
    let date = date_digits(row.0);
    let none = Seq::<char>::empty();
    number::lemma_decimal_reads_back(size);
    number::law_numbers_are_read(none, size, i64::MAX as int);
    assert(none + digits =~= digits);
    assert(number::is_digit(digits[0]));
    assert(number::is_digit(digits[digits.len() - 1]));
    assert forall|j: int| 0 <= j < date.len() implies #[trigger] date[j] == '-' || number::is_digit(
        date[j],
    ) by {
        if row.0 < 0 {
            if j > 0 {
                assert(date[j] == digits[j - 1]);
                assert(number::is_digit(digits[j - 1]));
            }
        } else {
            assert(number::is_digit(digits[j]));
        }
    }
    assert forall|j: int| 0 <= j < line.len() implies #[trigger] line[j] != '\n' && line[j]
        != '\r' by {
        if j < n {
            assert(line[j] == row.1[j]);
        } else if j > n {
            assert(line[j] == date[j - n - 1]);
        }
    }
    assert(line[n] == ' ');
    assert forall|j: int| 0 <= j < n implies line[j] != ' ' by {
        assert(line[j] == row.1[j]);
    }
    text::lemma_char_is_first(line, ' ', n);
    assert(line.take(n) =~= row.1);
    assert(line.skip(n + 1) =~= date);
    assert(date.last() == digits.last());
    text::lemma_already_trimmed(date);
}

/// Where every line gives a row, the rows are all there.
proof fn lemma_all_picked(
    lines: Seq<Seq<char>>,
    pick: spec_fn(Seq<char>) -> Option<(int, Seq<char>)>,
    rows: Seq<(int, Seq<char>)>,
)
    requires
        lines.len() == rows.len(),
        forall|i: int| 0 <= i < rows.len() ==> pick(#[trigger] lines[i]) == Some(rows[i]),
    ensures
        lines.filter_map(pick) == rows,
    decreases lines.len(),
{
    reveal(Seq::filter_map);
    if lines.len() > 0 {
        let n = lines.len() - 1;
        assert(pick(lines[n]) == Some(rows[n]));
        assert forall|i: int| 0 <= i < n implies pick(#[trigger] lines.drop_last()[i]) == Some(
            rows.drop_last()[i],
        ) by {
            assert(pick(lines[i]) == Some(rows[i]));
        }
        lemma_all_picked(lines.drop_last(), pick, rows.drop_last());
        assert(rows.drop_last() + seq![rows[n]] =~= rows);
    } else {
        assert(rows =~= Seq::<(int, Seq<char>)>::empty());
    }
}

/// A line without a space is no row; a date that is no number counts as the earliest that
/// has none before it, the start of 1970.
pub proof fn law_odd_log_lines(hash: Seq<char>, date: Seq<char>)
    requires
        forall|j: int| 0 <= j < hash.len() ==> #[trigger] hash[j] != ' ',
        number::signed_value(text::trimmed(date)) is None,
    ensures
        log_row(hash) is None,
        log_row(hash + seq![' '] + date) == Some((0int, hash)),
{
    let line = hash + seq![' '] + date;
    let n = hash.len() as int;
    text::lemma_find_char(hash, ' ');
    assert(line[n] == ' ');
    assert forall|j: int| 0 <= j < n implies line[j] != ' ' by {
        assert(line[j] == hash[j]);
    }
    text::lemma_char_is_first(line, ' ', n);
    assert(line.take(n) =~= hash);
    assert(line.skip(n + 1) =~= date);
}

/// The commits of a log are those of its rows, newest first, and among equal dates in the
/// order they had. Returns which row each is of.
pub proof fn law_commits_are_sorted_by_date(log: Seq<char>) -> (places: Seq<int>)
    ensures
        ({
            let rows = log_rows(log);
            &&& places.len() == rows.len() && places.no_duplicates()
            &&& commits_of(log).len() == rows.len()
            &&& forall|a: int| 0 <= a < rows.len() ==> 0 <= #[trigger] places[a] < rows.len()
            &&& forall|a: int|
                0 <= a < rows.len() ==> #[trigger] commits_of(log)[a] == rows[places[a]].1
            &&& forall|a: int, b: int|
                0 <= a < b < rows.len() ==> rows[#[trigger] places[a]].0 > rows[#[trigger] places[b]].0
                    || (rows[places[a]].0 == rows[places[b]].0 && places[a] < places[b])
        }),
{
    let rows = log_rows(log);
    let key = |row: (int, Seq<char>)| -row.0;
    let keys = rows.map_values(key);
    let places = order::stable_order(keys);
    order::law_stable_order(keys);
    assert forall|a: int| 0 <= a < rows.len() implies 0 <= #[trigger] places[a] < rows.len() by {
        assert(places.contains(places[a]));
    }
    assert forall|a: int, b: int| 0 <= a < b < rows.len() implies rows[#[trigger] places[a]].0
        > rows[#[trigger] places[b]].0 || (rows[places[a]].0 == rows[places[b]].0 && places[a]
        < places[b]) by {
        assert(order::comes_before(keys, places[a], places[b]));
    }
    places
}

/// Git is asked for one blob a line, in the order of the commits.
pub proof fn law_requests_keep_the_order(commits: Seq<Seq<char>>)
    ensures
        request_text(commits) == text::written_lines(
            commits.map_values(|c: Seq<char>| c + seq![':', 'm']),
            false,
        ),
    decreases commits.len(),
{
    let lines = commits.map_values(|c: Seq<char>| c + seq![':', 'm']);
    if commits.len() == 0 {
        assert(lines =~= Seq::<Seq<char>>::empty());
    } else {
        reveal_strlit(":m\n");
        law_requests_keep_the_order(commits.drop_last());
        text::lemma_written_last(lines, false);
        assert(lines.drop_last() =~= commits.drop_last().map_values(
            |c: Seq<char>| c + seq![':', 'm'],
        ));
        assert(lines.last() == commits.last() + seq![':', 'm']);
        assert(request_text(commits) =~= text::written_lines(lines.drop_last(), false)
            + lines.last() + seq!['\n']);
    }
}

/// There is one entry for each commit: the answer at its place, or nothing where the output
/// ended before.
pub proof fn law_entries_are_aligned(answers: Seq<Option<Seq<char>>>, n: nat, i: int)
    requires
        0 <= i < n,
    ensures
        aligned(answers, n).len() == n,
        i < answers.len() ==> aligned(answers, n)[i] == answers[i],
        i >= answers.len() ==> aligned(answers, n)[i] is None,
{
}

/// Addresses and directories name the list and the epoch.
pub proof fn law_places_name_list_and_epoch(list: Seq<char>, epoch: u32, path: Seq<char>)
    ensures
        repo_url_text(list, epoch) == "https://lore.kernel.org/"@ + list + "/git/"@
            + number::decimal(epoch as nat) + ".git"@,
        mirror_dir_text(list, epoch) == list + "/"@ + number::decimal(epoch as nat) + ".git"@,
        manifest_url_text() == "https://lore.kernel.org/manifest.js.gz"@,
        cache_base_text(Some(path), None) == path,
        cache_base_text(Some(path), Some(list)) == path,
        cache_base_text(None, Some(path)) == path + "/.cache"@,
        cache_base_text(None, None) == "/tmp"@,
{
    reveal_strlit("https://lore.kernel.org");
    reveal_strlit("https://lore.kernel.org/");
    reveal_strlit("/");
    reveal_strlit("/manifest.js.gz");
    reveal_strlit("https://lore.kernel.org/manifest.js.gz");
    assert(BASE@ + "/"@ =~= "https://lore.kernel.org/"@);
    assert(manifest_url_text() =~= "https://lore.kernel.org/manifest.js.gz"@);
}

/// An error shows all that was asked of git, word by word.
pub proof fn law_errors_show_every_word(words: Seq<Seq<char>>)
    ensures
        joined(words) == text::spaced(words),
    decreases words.len(),
{
    reveal_strlit(" ");
    assert(" "@ =~= seq![' ']);
    if words.len() > 1 {
        law_errors_show_every_word(words.drop_last());
    }
}

// What git answers

/// Git's answer to a request.
pub enum GitAnswer {
    /// The object, its type and its content.
    Hit { oid: Seq<char>, kind: Seq<char>, content: Seq<u8> },
    /// The request, of an object that is missing.
    Miss { request: Seq<char> },
}

/// A word of a header line: ASCII, and on one line.
pub open spec fn is_header_word(s: Seq<char>) -> bool {
    vstd::utf8::is_ascii_chars(s) && forall|i: int| 0 <= i < s.len() ==> #[trigger] s[i] != '\n'
}

/// The answer is one that git can write.
pub open spec fn is_answer(a: GitAnswer) -> bool {
    match a {
        GitAnswer::Hit { oid, kind, content } => is_header_word(oid) && is_header_word(kind)
            && content.len() <= usize::MAX,
        GitAnswer::Miss { request } => is_header_word(request),
    }
}

/// The header line of an answer.
pub open spec fn answer_header(a: GitAnswer) -> Seq<char> {
    match a {
        GitAnswer::Hit { oid, kind, content } => oid + seq![' '] + kind + seq![' ']
            + number::decimal(content.len()),
        GitAnswer::Miss { request } => request + seq![' ', 'm', 'i', 's', 's', 'i', 'n', 'g'],
    }
}

/// What git writes for an answer.
pub open spec fn answer_bytes(a: GitAnswer) -> Seq<u8> {
    vstd::utf8::encode_utf8(answer_header(a)) + seq![10u8] + (match a {
        GitAnswer::Hit { oid, kind, content } => content + seq![10u8],
        GitAnswer::Miss { request } => seq![],
    })
}

/// What git writes for all answers.
pub open spec fn all_answer_bytes(answers: Seq<GitAnswer>) -> Seq<u8>
    decreases answers.len(),
{
    if answers.len() == 0 {
        seq![]
    } else {
        answer_bytes(answers[0]) + all_answer_bytes(answers.drop_first())
    }
}

/// The text of an answer, nothing for a miss.
pub open spec fn answer_text(a: GitAnswer) -> Option<Seq<char>> {
    match a {
        GitAnswer::Hit { oid, kind, content } => Some(unicode::utf8_lossy(content)),
        GitAnswer::Miss { request } => None,
    }
}

/// Lines end at the same places behind other bytes.
proof fn lemma_line_end_shifts(front: Seq<u8>, bytes: Seq<u8>, from: int)
    requires
        0 <= from,
    ensures
        line_end(front + bytes, front.len() + from) == match line_end(bytes, from) {
            Some(end) => Some(front.len() + end),
            None => None,
        },
    decreases bytes.len() - from,
{
    if from < bytes.len() && bytes[from] != 10 {
        lemma_line_end_shifts(front, bytes, from + 1);
    }
}

/// Answers are read the same way behind other bytes.
proof fn lemma_answers_shift(front: Seq<u8>, bytes: Seq<u8>, from: int)
    requires
        0 <= from,
    ensures
        batch_answers(front + bytes, front.len() + from) == batch_answers(bytes, from),
    decreases bytes.len() + 1 - from,
{
    let all = front + bytes;
    let n = front.len() as int;
    lemma_line_end_shifts(front, bytes, from);
    lemma_line_end(bytes, from);
    if let Some(end) = line_end(bytes, from) {
        assert(all.subrange(n + from, n + end) =~= bytes.subrange(from, end));
        let start = end + 1;
        match announced_size(bytes.subrange(from, end)) {
            None => {
                lemma_answers_shift(front, bytes, start);
            },
            Some(size) => {
                if !(size < 0 || start + size > bytes.len()) {
                    assert(all.subrange(n + start, n + start + size) =~= bytes.subrange(
                        start,
                        start + size,
                    ));
                    lemma_answers_shift(front, bytes, start + size + 1);
                }
            },
        }
    }
}

/// The last word of a line that ends with a space and a word.
proof fn lemma_last_word_is(front: Seq<char>, word: Seq<char>)
    requires
        forall|j: int| 0 <= j < word.len() ==> #[trigger] word[j] != ' ',
    ensures
        last_word(front + seq![' '] + word) == word,
{
    let s = front + seq![' '] + word;
    let k = front.len() as int + 1;
    assert(s[k - 1] == ' ');
    assert forall|j: int| k <= j < s.len() implies #[trigger] s[j] != ' ' by {
        assert(s[j] == word[j - k]);
    }
    lemma_last_word(s, k);
    assert(s.skip(k) =~= word);
}

/// A header line of git: the bytes that encode it hold no line end, they are decoded to
/// it, and it announces the size of what follows.
proof fn lemma_answer_header(a: GitAnswer)
    requires
        is_answer(a),
    ensures
        forall|j: int|
            0 <= j < vstd::utf8::encode_utf8(answer_header(a)).len()
                ==> #[trigger] vstd::utf8::encode_utf8(answer_header(a))[j] != 10,
        announced_size(vstd::utf8::encode_utf8(answer_header(a))) == match a {
            GitAnswer::Hit { oid, kind, content } => Some(content.len() as int),
            GitAnswer::Miss { request } => None,
        },
{
    broadcast use vstd::utf8::encode_utf8_valid_utf8, vstd::utf8::encode_utf8_decode_utf8;

    let h = answer_header(a);
    let line = vstd::utf8::encode_utf8(h);
    assert(is_header_word(h)) by {
        match a {
            GitAnswer::Hit { oid, kind, content } => {
                let size = number::decimal(content.len());
                number::lemma_decimal_reads_back(content.len());
                assert forall|i: int| 0 <= i < h.len() implies '\0' <= #[trigger] h[i] <= '\u{7f}'
                    && h[i] != '\n' by {
                    let at = oid.len() + 2 + kind.len();
                    if i < oid.len() {
                        assert(h[i] == oid[i]);
                    } else if oid.len() < i < oid.len() + 1 + kind.len() {
                        assert(h[i] == kind[i - oid.len() - 1]);
                    } else if i >= at {
                        assert(h[i] == size[i - at]);
                        assert(number::is_digit(size[i - at]));
                    }
                }
            },
            GitAnswer::Miss { request } => {
                assert forall|i: int| 0 <= i < h.len() implies '\0' <= #[trigger] h[i] <= '\u{7f}'
                    && h[i] != '\n' by {
                    if i < request.len() {
                        assert(h[i] == request[i]);
                    } else {
                        let tail = seq![' ', 'm', 'i', 's', 's', 'i', 'n', 'g'];
                        assert(h[i] == tail[i - request.len()]);
                    }
                }
            },
        }
    }
    vstd::utf8::is_ascii_chars_encode_utf8(h);
    assert forall|j: int| 0 <= j < line.len() implies #[trigger] line[j] != 10 by {
        assert(h[j] as u8 == line[j]);
        assert(h[j] != '\n');
    }
    assert(unicode::utf8_lossy(line) == h);
    match a {
        GitAnswer::Hit { oid, kind, content } => {
            let size = number::decimal(content.len());
            number::lemma_decimal_reads_back(content.len());
            assert forall|j: int| 0 <= j < size.len() implies #[trigger] size[j] != ' ' by {
                assert(number::is_digit(size[j]));
            }
            lemma_last_word_is(oid + seq![' '] + kind, size);
            number::law_unsigned_reads_decimal(content.len(), usize::MAX as int);
        },
        GitAnswer::Miss { request } => {
            let word = seq!['m', 'i', 's', 's', 'i', 'n', 'g'];
            assert(h =~= request + seq![' '] + word);
            lemma_last_word_is(request, word);
            assert(!number::is_digit(word[0]));
        },
    }
}

/// Reading an answer gives its text, and goes on behind it.
proof fn lemma_answer_is_read(a: GitAnswer, rest: Seq<u8>)
    requires
        is_answer(a),
    ensures
        batch_answers(answer_bytes(a) + rest, 0) == seq![answer_text(a)] + batch_answers(rest, 0),
{
    let line = vstd::utf8::encode_utf8(answer_header(a));
    let front = answer_bytes(a);
    let all = front + rest;
    let end = line.len() as int;
    lemma_answer_header(a);
    assert(all[end] == 10);
    assert forall|j: int| 0 <= j < end implies #[trigger] all[j] != 10 by {
        assert(all[j] == line[j]);
    }
    lemma_ends_line(all, 0, end);
    assert(all.subrange(0, end) =~= line);
    lemma_answers_shift(front, rest, 0);
    match a {
        GitAnswer::Hit { oid, kind, content } => {
            let start = end + 1;
            let size = content.len() as int;
            assert(front.len() == start + size + 1);
            assert(all.subrange(start, start + size) =~= content);
        },
        GitAnswer::Miss { request } => {
            assert(front.len() == end + 1);
        },
    }
}

/// What git answers is read back: for any answers to any requests, one entry each, in the
/// order of the requests.
pub proof fn law_batch_answers_read_back(answers: Seq<GitAnswer>)
    requires
        forall|i: int| 0 <= i < answers.len() ==> is_answer(#[trigger] answers[i]),
    ensures
        batch_answers(all_answer_bytes(answers), 0) == answers.map_values(
            |a: GitAnswer| answer_text(a),
        ),
    decreases answers.len(),
{
    let texts = answers.map_values(|a: GitAnswer| answer_text(a));
    if answers.len() == 0 {
        assert(texts =~= Seq::<Option<Seq<char>>>::empty());
    } else {
        let rest = answers.drop_first();
        assert forall|i: int| 0 <= i < rest.len() implies is_answer(#[trigger] rest[i]) by {
            assert(rest[i] == answers[i + 1]);
        }
        law_batch_answers_read_back(rest);
        lemma_answer_is_read(answers[0], all_answer_bytes(rest));
        assert(texts =~= seq![answer_text(answers[0])] + rest.map_values(
            |a: GitAnswer| answer_text(a),
        ));
    }
}

/// Reading a part of the output finds the same answers as far as it goes.
proof fn lemma_truncated_answers(bytes: Seq<u8>, k: int, from: int)
    requires
        0 <= from,
        0 <= k <= bytes.len(),
    ensures
        batch_answers(bytes.take(k), from).len() <= batch_answers(bytes, from).len(),
        forall|i: int|
            0 <= i < batch_answers(bytes.take(k), from).len() ==> #[trigger] batch_answers(
                bytes.take(k),
                from,
            )[i] == batch_answers(bytes, from)[i],
    decreases bytes.len() + 1 - from,
{
    let part = bytes.take(k);
    lemma_line_end(part, from);
    lemma_line_end(bytes, from);
    if let Some(end) = line_end(part, from) {
        assert forall|j: int| from <= j < end implies #[trigger] bytes[j] != 10 by {
            assert(part[j] == bytes[j]);
        }
        assert(part[end] == bytes[end]);
        lemma_ends_line(bytes, from, end);
        assert(part.subrange(from, end) =~= bytes.subrange(from, end));
        let start = end + 1;
        match announced_size(bytes.subrange(from, end)) {
            None => {
                lemma_truncated_answers(bytes, k, start);
            },
            Some(size) => {
                if !(size < 0 || start + size > part.len()) {
                    assert(part.subrange(start, start + size) =~= bytes.subrange(
                        start,
                        start + size,
                    ));
                    lemma_truncated_answers(bytes, k, start + size + 1);
                }
            },
        }
    }
}

/// A truncated read can only lose mails, never shift the ones after it onto the wrong
/// commit: what is read for a commit is what the whole output holds for it, or nothing.
pub proof fn law_truncated_output_shifts_no_mail(bytes: Seq<u8>, k: int, n: nat, i: int)
    requires
        0 <= k <= bytes.len(),
        0 <= i < n,
    ensures
        aligned(batch_answers(bytes.take(k), 0), n)[i] is None || aligned(
            batch_answers(bytes.take(k), 0),
            n,
        )[i] == aligned(batch_answers(bytes, 0), n)[i],
{
    lemma_truncated_answers(bytes, k, 0);
}

} // verus!
