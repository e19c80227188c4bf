//! Reply-thread math over a set of mails: given each mail's own Message-ID and the
//! id it replies to, size the reply subtree rooted at each one. Also where a patch
//! series is picked out of a set of mails, since a series is just the patch mails
//! of one thread.

use crate::archive;
use crate::forest;
use crate::mail;
use crate::mail::{Mail, MailView};
use crate::order;
use crate::parse;
use crate::text;
use std::collections::HashSet;
use vstd::hash_map::StringHashMap;
use vstd::prelude::*;

verus! {

/// What identifies the series a patch belongs to: the thread it hangs off, plus the
/// revision and length of its `[PATCH vV n/m]` tag. Two mails are siblings iff their
/// tags are equal.
///
/// This is a [`PatchTag`](crate::patch::PatchTag) minus `number`, which is what tells
/// siblings apart, plus the thread root, since one thread often carries several
/// revisions of a series.
#[derive(Debug, PartialEq, Eq, Hash)]
pub struct SeriesTag {
    /// The thread root's Message-ID: the cover letter of the series.
    pub root: String,
    pub version: u32,
    pub total: u32,
}

/// A series tag in its mathematical form.
#[verifier::ext_equal]
pub struct SeriesTagView {
    pub root: Seq<char>,
    pub version: u32,
    pub total: u32,
}

impl View for SeriesTag {
    type V = SeriesTagView;

    open spec fn view(&self) -> SeriesTagView {
        SeriesTagView { root: self.root@, version: self.version, total: self.total }
    }
}

impl Clone for SeriesTag {
    fn clone(&self) -> (r: SeriesTag)
        ensures
            r@ == self@,
    {
        SeriesTag { root: self.root.clone(), version: self.version, total: self.total }
    }
}

/// The normalized Message-ID of the thread that the mail hangs off: the first
/// `References` entry, else the mail it replies to, else itself.
pub open spec fn root_of(mail: MailView) -> Seq<char> {
    parse::normalized_id(
        if mail.references.len() > 0 {
            mail.references[0]
        } else if mail.in_reply_to.len() > 0 {
            mail.in_reply_to
        } else {
            mail.message_id
        },
    )
}

/// The series that the mail belongs to, where it belongs to one of several patches.
pub open spec fn series_of(mail: MailView) -> Option<SeriesTagView> {
    match mail.patch_tag {
        Some(tag) => if tag.total > 1 {
            Some(SeriesTagView { root: root_of(mail), version: tag.version, total: tag.total })
        } else {
            None
        },
        None => None,
    }
}

/// The mathematical form of a mail's series tag.
pub open spec fn tag_view(tag: Option<SeriesTag>) -> Option<SeriesTagView> {
    match tag {
        Some(t) => Some(t@),
        None => None,
    }
}

/// The normalized Message-ID of the thread `mail` hangs off: the first `References`
/// entry, else the mail it replies to, else itself, a thread root. (A cover letter
/// has no References and is its own root.) Mails of one thread share this key, so
/// grouping by it rebuilds threads without parsing subjects.
pub fn thread_root(mail: &Mail) -> (r: String)
    ensures
        r@ == root_of(mail@),
{
    if mail.references.len() > 0 {
        parse::normalize_message_id(mail.references[0].as_str())
    } else if !mail.in_reply_to.as_str().is_empty() {
        parse::normalize_message_id(mail.in_reply_to.as_str())
    } else {
        parse::normalize_message_id(mail.message_id.as_str())
    }
}

/// The series `mail` belongs to, or `None` when it is not part of a multi-patch
/// series: ordinary mail, a review reply, or a lone `[PATCH]`.
pub fn series_tag(mail: &Mail) -> (r: Option<SeriesTag>)
    ensures
        tag_view(r) == series_of(mail@),
{
    match mail.patch_tag {
        Some(tag) => if tag.total > 1 {
            Some(SeriesTag { root: thread_root(mail), version: tag.version, total: tag.total })
        } else {
            None
        },
        None => None,
    }
}

/// Whether two tags name the same series.
fn same_series(a: &SeriesTag, b: &SeriesTag) -> (r: bool)
    ensures
        r == (a@ == b@),
{
    let r = a.version == b.version && a.total == b.total && a.root == b.root;
    proof {
        if r {
            assert(a@ =~= b@);
        }
    }
    r
}

/// A reply that lists what it replies to after that mail's own references hangs off the
/// same thread. A mail that names what it replies to, but has no references, is the
/// exception: its replies hang off it.
pub proof fn law_replies_share_the_root(mail: MailView, reply: MailView)
    requires
        reply.references == mail.references.push(mail.message_id),
        mail.references.len() > 0 || mail.in_reply_to.len() == 0,
    ensures
        root_of(reply) == root_of(mail),
{
}

/// The root of a thread is what its oldest reference names; without references, what the
/// mail replies to; without that, the mail itself.
pub proof fn law_root_is_the_oldest_known_mail(mail: MailView)
    ensures
        mail.references.len() > 0 ==> root_of(mail) == parse::normalized_id(mail.references[0]),
        mail.references.len() == 0 && mail.in_reply_to.len() > 0 ==> root_of(mail)
            == parse::normalized_id(mail.in_reply_to),
        mail.references.len() == 0 && mail.in_reply_to.len() == 0 ==> root_of(mail)
            == parse::normalized_id(mail.message_id),
{
}

/// A mail belongs to a series exactly when it is tagged as one of several patches. Two
/// such mails are of one series exactly when they share the thread, the revision and the
/// length; their numbers may differ.
pub proof fn law_series_are_told_by_thread_revision_and_length(a: MailView, b: MailView)
    ensures
        series_of(a) is Some <==> a.patch_tag is Some && a.patch_tag->0.total >= 2,
        series_of(a) is Some && series_of(b) is Some ==> (series_of(a) == series_of(b) <==> root_of(
            a,
        ) == root_of(b) && a.patch_tag->0.version == b.patch_tag->0.version
            && a.patch_tag->0.total == b.patch_tag->0.total),
        series_of(a) matches Some(tag) ==> tag.root == root_of(a) && tag.version
            == a.patch_tag->0.version && tag.total == a.patch_tag->0.total,
{
    if series_of(a) is Some && series_of(b) is Some && root_of(a) == root_of(b) {
        assert(series_of(a)->0.root =~= series_of(b)->0.root);
    }
}

// Grouping

/// The mail's position in its series, the `n` of `n/m`.
pub open spec fn patch_number(mail: MailView) -> int {
    match mail.patch_tag {
        Some(tag) => tag.number as int,
        None => 0,
    }
}

/// The places of a series' mails.
pub open spec fn members(mails: Seq<MailView>, tag: SeriesTagView) -> Seq<int> {
    order::upto(mails.len()).filter(|i: int| series_of(mails[i]) == Some(tag))
}

/// The places of the mails that stand with the mail at `i`, in the order of their
/// numbers. A mail of no series stands alone.
pub open spec fn block_of(mails: Seq<MailView>, i: int) -> Seq<int> {
    match series_of(mails[i]) {
        Some(tag) => order::stable_sorted(members(mails, tag), |j: int| patch_number(mails[j])),
        None => seq![i],
    }
}

/// A mail before the one at `end` is of the same series as the mail at `j`.
pub open spec fn seen_before(mails: Seq<MailView>, end: int, j: int) -> bool {
    series_of(mails[j]) is Some && exists|i: int|
        0 <= i < end && #[trigger] series_of(mails[i]) == series_of(mails[j])
}

/// The places of the mails, with each series drawn together where its first mail
/// stands among the first `n`.
pub open spec fn grouped(mails: Seq<MailView>, n: int) -> Seq<int>
    decreases n,
{
    if n <= 0 {
        seq![]
    } else if seen_before(mails, n - 1, n - 1) {
        grouped(mails, n - 1)
    } else {
        grouped(mails, n - 1) + block_of(mails, n - 1)
    }
}

/// For each place of `grouped`, whether the mail there stands under the head of its
/// block.
pub open spec fn under_head(mails: Seq<MailView>, n: int) -> Seq<bool>
    decreases n,
{
    if n <= 0 {
        seq![]
    } else if seen_before(mails, n - 1, n - 1) {
        under_head(mails, n - 1)
    } else {
        under_head(mails, n - 1) + Seq::new(block_of(mails, n - 1).len(), |nth: int| nth > 0)
    }
}

/// The places of the mails that stand with the mail at `i`, in order.
fn series_block(mails: &[Mail], tags: &Vec<Option<SeriesTag>>, i: usize) -> (r: Vec<usize>)
    requires
        i < mails@.len(),
        tags@.len() == mails@.len(),
        forall|j: int|
            0 <= j < mails@.len() ==> tag_view(#[trigger] tags@[j]) == series_of(mails@[j]@),
    ensures
        order::places(r@) == block_of(mail::mail_views(mails@), i as int),
{
    let ghost views = mail::mail_views(mails@);
    let n: usize = mails.len();
    match &tags[i] {
        None => {
            let r: Vec<usize> = vec![i];
            assert(views[i as int] == mails@[i as int]@);
            assert(tag_view(tags@[i as int]) is None);
            assert(order::places(r@) =~= seq![i as int]);
            r
        },
        Some(tag) => {
            let ghost p = |k: int| series_of(views[k]) == Some(tag@);
            let mut found: Vec<usize> = Vec::new();
            let mut keys: Vec<i128> = Vec::new();
            proof {
                reveal(Seq::filter);
                assert(order::upto(0).filter(p) =~= Seq::<int>::empty());
            }
            for j in 0..n
                invariant
                    n == mails@.len(),
                    tags@.len() == mails@.len(),
                    views == mail::mail_views(mails@),
                    forall|k: int|
                        0 <= k < mails@.len() ==> tag_view(#[trigger] tags@[k]) == series_of(
                            mails@[k]@,
                        ),
                    p == (|k: int| series_of(views[k]) == Some(tag@)),
                    order::places(found@) =~= order::upto(j as nat).filter(p),
                    keys@.len() == found@.len(),
                    forall|k: int| 0 <= k < found@.len() ==> #[trigger] found@[k] < mails@.len(),
                    forall|k: int|
                        0 <= k < found@.len() ==> #[trigger] keys@[k] == patch_number(
                            views[found@[k] as int],
                        ),
            {
                let same = match &tags[j] {
                    Some(t) => same_series(t, tag),
                    None => false,
                };
                proof {
                    reveal(Seq::filter);
                    assert(order::upto((j + 1) as nat).drop_last() =~= order::upto(
                        j as nat,
                    ));
                    assert(tag_view(tags@[j as int]) == series_of(views[j as int]));
                    assert(same == p(j as int));
                }
                if same {
                    let number: u32 = match mails[j].patch_tag {
                        Some(t) => t.number,
                        None => 0,
                    };
                    found.push(j);
                    keys.push(number as i128);
                }
            }
            let sorted = order::sort_stable(&keys);
            let ghost key = |j: int| patch_number(views[j]);
            let ghost all = members(views, tag@);
            proof {
                assert(p =~= |k: int| series_of(views[k]) == Some(tag@));
                assert(order::places(found@) == all);
                assert(order::key_values(keys@) =~= all.map_values(key));
                order::law_stable_order(order::key_values(keys@));
            }
            let mut block: Vec<usize> = Vec::new();
            for k in 0..sorted.len()
                invariant
                    order::places(sorted@) == order::stable_order(order::key_values(keys@)),
                    order::covers(order::places(sorted@), 0, keys@.len() as int),
                    keys@.len() == found@.len(),
                    order::places(found@) == all,
                    block@.len() == k,
                    forall|m: int|
                        0 <= m < k ==> #[trigger] block@[m] == all[order::places(sorted@)[m]],
            {
                assert(order::places(sorted@).contains(order::places(sorted@)[k as int]));
                let at: usize = sorted[k];
                assert(order::places(found@)[at as int] == found@[at as int]);
                block.push(found[at]);
            }
            proof {
                assert(tag_view(tags@[i as int]) == Some(tag@));
                assert(series_of(views[i as int]) == Some(tag@));
                assert(order::places(block@) =~= order::stable_sorted(all, key));
                assert(key =~= |j: int| patch_number(views[j]));
            }
            block
        },
    }
}

/// The two mails stand in one block.
pub open spec fn together(mails: Seq<MailView>, i: int, j: int) -> bool {
    i == j || (series_of(mails[i]) is Some && series_of(mails[i]) == series_of(mails[j]))
}

/// Filtering the numbers below `n` keeps those that are asked for, in their order.
proof fn lemma_filtered_range(n: nat, p: spec_fn(int) -> bool)
    ensures
        forall|j: int|
            #[trigger] order::upto(n).filter(p).contains(j) <==> 0 <= j < n && p(j),
        forall|a: int, b: int|
            0 <= a < b < order::upto(n).filter(p).len() ==> (#[trigger] order::upto(n).filter(
                p,
            )[a]) < (#[trigger] order::upto(n).filter(p)[b]),
    decreases n,
{
    reveal(Seq::filter);
    let all = order::upto(n);
    let kept = all.filter(p);
    if n > 0 {
        let m = (n - 1) as nat;
        let fewer = order::upto(m).filter(p);
        lemma_filtered_range(m, p);
        assert(all.drop_last() =~= order::upto(m));
        assert forall|j: int| #[trigger] kept.contains(j) <==> 0 <= j < n && p(j) by {
            if fewer.contains(j) {
                let k = choose|k: int| 0 <= k < fewer.len() && fewer[k] == j;
                assert(kept[k] == j);
            }
            if j == m && p(j) {
                assert(kept[kept.len() - 1] == j);
            }
            if kept.contains(j) {
                let k = choose|k: int| 0 <= k < kept.len() && kept[k] == j;
                if k < fewer.len() {
                    assert(fewer[k] == j);
                }
            }
        }
        assert forall|a: int, b: int| 0 <= a < b < kept.len() implies (#[trigger] kept[a]) < (
        #[trigger] kept[b]) by {
            if b < fewer.len() {
                assert(fewer[a] < fewer[b]);
            } else {
                assert(fewer[a] == kept[a]);
                assert(fewer.contains(kept[a]));
            }
        }
    }
}

/// The block of a mail holds it and its siblings, each once, by ascending number and
/// among equal numbers in the order they had.
proof fn lemma_block(mails: Seq<MailView>, i: int)
    requires
        0 <= i < mails.len(),
    ensures
        forall|j: int|
            #[trigger] block_of(mails, i).contains(j) <==> 0 <= j < mails.len() && together(
                mails,
                i,
                j,
            ),
        block_of(mails, i).no_duplicates(),
        forall|a: int, b: int|
            0 <= a < b < block_of(mails, i).len() ==> sibling_before(
                mails,
                #[trigger] block_of(mails, i)[a],
                #[trigger] block_of(mails, i)[b],
            ),
{
    let block = block_of(mails, i);
    match series_of(mails[i]) {
        None => {
            assert forall|j: int| #[trigger] block.contains(j) <==> 0 <= j < mails.len()
                && together(mails, i, j) by {
                assert(block[0] == i);
            }
        },
        Some(tag) => {
            let all = members(mails, tag);
            let key = |j: int| patch_number(mails[j]);
            let keys = all.map_values(key);
            let o = order::stable_order(keys);
            lemma_filtered_range(mails.len(), |k: int| series_of(mails[k]) == Some(tag));
            order::law_stable_order(keys);
            assert forall|k: int| 0 <= k < o.len() implies 0 <= #[trigger] o[k] < all.len()
                && block[k] == all[o[k]] by {
                assert(o.contains(o[k]));
            }
            assert forall|j: int| #[trigger] block.contains(j) <==> 0 <= j < mails.len()
                && together(mails, i, j) by {
                assert(all.contains(j) <==> 0 <= j < mails.len() && series_of(mails[j]) == Some(
                    tag,
                ));
                if block.contains(j) {
                    let k = choose|k: int| 0 <= k < block.len() && block[k] == j;
                    assert(all[o[k]] == j);
                    assert(all.contains(j));
                }
                if all.contains(j) {
                    let m = choose|m: int| 0 <= m < all.len() && all[m] == j;
                    assert(o.contains(m));
                    let k = choose|k: int| 0 <= k < o.len() && o[k] == m;
                    assert(block[k] == j);
                }
            }
            assert forall|a: int, b: int| 0 <= a < b < block.len() implies sibling_before(
                mails,
                #[trigger] block[a],
                #[trigger] block[b],
            ) by {
                assert(order::comes_before(keys, o[a], o[b]));
                assert(keys[o[a]] == patch_number(mails[block[a]]));
                assert(keys[o[b]] == patch_number(mails[block[b]]));
                if o[a] < o[b] {
                    assert(all[o[a]] < all[o[b]]);
                }
            }
            assert(block.no_duplicates());
        },
    }
}

/// One sibling comes before another: by its number, and among equal numbers by its
/// place.
pub open spec fn sibling_before(mails: Seq<MailView>, i: int, j: int) -> bool {
    patch_number(mails[i]) < patch_number(mails[j]) || (patch_number(mails[i]) == patch_number(
        mails[j],
    ) && i < j)
}

/// Reorder `mails` so that every patch series forms one block, cover letter (or
/// lowest-numbered patch) first, the rest ascending, sitting where the series'
/// newest mail was, and flag the members that belong under the head. A series with
/// only one member present stays where it is, unflagged: there is nothing to indent
/// it under.
pub fn group_series(mails: &[Mail]) -> (r: (Vec<Mail>, Vec<bool>))
    ensures
        mail::mail_views(r.0@) == grouped(
            mail::mail_views(mails@),
            mails@.len() as int,
        ).map_values(|i: int| mail::mail_views(mails@)[i]),
        r.1@ == under_head(mail::mail_views(mails@), mails@.len() as int),
{
    let ghost views = mail::mail_views(mails@);
    let n: usize = mails.len();
    let mut tags: Vec<Option<SeriesTag>> = Vec::new();
    let mut placed: Vec<bool> = Vec::new();
    for i in 0..n
        invariant
            n == mails@.len(),
            tags@.len() == i,
            placed@.len() == i,
            forall|j: int|
                0 <= j < i ==> tag_view(#[trigger] tags@[j]) == series_of(mails@[j]@),
            forall|j: int| 0 <= j < i ==> !#[trigger] placed@[j],
    {
        tags.push(series_tag(&mails[i]));
        placed.push(false);
    }
    let mut out: Vec<Mail> = Vec::new();
    let mut indent: Vec<bool> = Vec::new();
    assert(mail::mail_views(out@) =~= grouped(views, 0).map_values(|k: int| views[k]));
    for i in 0..n
        invariant
            n == mails@.len(),
            views == mail::mail_views(mails@),
            tags@.len() == n,
            placed@.len() == n,
            forall|j: int|
                0 <= j < n ==> tag_view(#[trigger] tags@[j]) == series_of(mails@[j]@),
            forall|j: int|
                i <= j < n ==> #[trigger] placed@[j] == seen_before(views, i as int, j),
            mail::mail_views(out@) =~= grouped(views, i as int).map_values(|k: int| views[k]),
            indent@ =~= under_head(views, i as int),
    {
        let ghost marked = placed@;
        if !placed[i] {
            let block = series_block(mails, &tags, i);
            let ghost places = order::places(block@);
            let ghost start = mail::mail_views(out@);
            let ghost flags = indent@;
            proof {
                lemma_block(views, i as int);
            }
            for nth in 0..block.len()
                invariant
                    n == mails@.len(),
                    views == mail::mail_views(mails@),
                    i < n,
                    placed@.len() == n,
                    places == order::places(block@),
                    forall|j: int| #[trigger] places.contains(j) ==> 0 <= j < n,
                    forall|j: int|
                        0 <= j < n ==> #[trigger] placed@[j] == (marked[j] || places.take(
                            nth as int,
                        ).contains(j)),
                    mail::mail_views(out@) =~= start + places.take(nth as int).map_values(
                        |k: int| views[k],
                    ),
                    indent@ =~= flags + Seq::new(nth as nat, |k: int| k > 0),
            {
                let j: usize = block[nth];
                proof {
                    assert(places[nth as int] == j);
                    assert(places.contains(j as int));
                    let now = places.take(nth as int);
                    let next = places.take(nth + 1);
                    assert(next =~= now.push(j as int));
                    assert forall|x: int| #[trigger] next.contains(x) <==> now.contains(x) || x
                        == j by {
                        if now.contains(x) {
                            let k = choose|k: int| 0 <= k < now.len() && now[k] == x;
                            assert(next[k] == x);
                        }
                        assert(next[nth as int] == j);
                    }
                }
                placed.set(j, true);
                let ghost before = out@;
                out.push(mails[j].clone());
                assert(mail::mail_views(out@) =~= mail::mail_views(before).push(views[j as int]));
                indent.push(nth > 0);
            }
            proof {
                assert(places.take(places.len() as int) =~= places);
                assert(!seen_before(views, i as int, i as int));
            }
        }
        proof {
            assert(marked[i as int] == seen_before(views, i as int, i as int));
            assert forall|j: int| i + 1 <= j < n implies #[trigger] placed@[j] == seen_before(
                views,
                i + 1,
                j,
            ) by {
                assert(marked[j] == seen_before(views, i as int, j));
                if seen_before(views, i + 1, j) && !seen_before(views, i as int, j) {
                    assert(series_of(views[i as int]) == series_of(views[j]));
                }
            }
        }
    }
    (out, indent)
}

/// The place of the first mail of the block that the mail at `j` stands in, looked
/// for from `i` on.
pub open spec fn opening_from(mails: Seq<MailView>, j: int, i: int) -> int
    decreases j - i,
{
    if i >= j || together(mails, i, j) {
        i
    } else {
        opening_from(mails, j, i + 1)
    }
}

/// The place of the first mail of the block that the mail at `j` stands in.
pub open spec fn opening(mails: Seq<MailView>, j: int) -> int {
    opening_from(mails, j, 0)
}

/// The first mail of a block is found where no sibling stands before it.
proof fn lemma_opening(mails: Seq<MailView>, j: int, i: int, from: int)
    requires
        0 <= from <= i <= j < mails.len(),
        together(mails, i, j),
        !seen_before(mails, i, i),
    ensures
        opening_from(mails, j, from) == i,
    decreases i - from,
{
    if from < i {
        if together(mails, from, j) {
            assert(series_of(mails[from]) == series_of(mails[i]));
        }
        lemma_opening(mails, j, i, from + 1);
    }
}

/// What `grouped` keeps at every step.
spec fn grouped_so_far(mails: Seq<MailView>, n: int, g: Seq<int>, flags: Seq<bool>) -> bool {
    &&& forall|j: int|
        #[trigger] g.contains(j) <==> 0 <= j < mails.len() && exists|l: int|
            0 <= l < n && #[trigger] together(mails, l, j)
    &&& g.no_duplicates()
    &&& forall|a: int, b: int, c: int|
        0 <= a < b < c < g.len() && together(mails, #[trigger] g[a], #[trigger] g[c])
            ==> together(mails, g[a], #[trigger] g[b])
    &&& forall|a: int, b: int|
        0 <= a < b < g.len() && together(mails, g[a], g[b]) ==> sibling_before(
            mails,
            #[trigger] g[a],
            #[trigger] g[b],
        )
    &&& forall|a: int, b: int|
        0 <= a < b < g.len() ==> opening(mails, #[trigger] g[a]) <= opening(
            mails,
            #[trigger] g[b],
        )
    &&& forall|a: int| 0 <= a < g.len() ==> opening(mails, #[trigger] g[a]) < n
    &&& flags.len() == g.len()
    &&& forall|a: int|
        0 <= a < g.len() ==> #[trigger] flags[a] == (a > 0 && together(mails, g[a - 1], g[a]))
}

proof fn lemma_grouped(mails: Seq<MailView>, n: int)
    requires
        0 <= n <= mails.len(),
    ensures
        grouped_so_far(mails, n, grouped(mails, n), under_head(mails, n)),
    decreases n,
{
    let g = grouped(mails, n);
    let flags = under_head(mails, n);
    if n > 0 {
        let i = n - 1;
        let g0 = grouped(mails, i);
        let flags0 = under_head(mails, i);
        lemma_grouped(mails, i);
        if seen_before(mails, i, i) {
            assert forall|j: int| #[trigger] g.contains(j) <==> 0 <= j < mails.len() && exists|
                l: int,
            |
                0 <= l < n && #[trigger] together(mails, l, j) by {
                if 0 <= j < mails.len() && together(mails, i, j) {
                    let l = choose|l: int|
                        0 <= l < i && #[trigger] series_of(mails[l]) == series_of(mails[i]);
                    assert(together(mails, l, j));
                }
            }
        } else {
            let block = block_of(mails, i);
            lemma_block(mails, i);
            lemma_grouped_step(mails, i, g0, flags0, block);
            assert(g == g0 + block);
            assert(flags == flags0 + Seq::new(block.len(), |nth: int| nth > 0));
        }
    } else {
        assert forall|j: int| !(#[trigger] g.contains(j)) by {}
    }
}

proof fn lemma_grouped_step(
    mails: Seq<MailView>,
    i: int,
    g0: Seq<int>,
    flags0: Seq<bool>,
    block: Seq<int>,
)
    requires
        0 <= i < mails.len(),
        grouped_so_far(mails, i, g0, flags0),
        !seen_before(mails, i, i),
        block == block_of(mails, i),
    ensures
        grouped_so_far(
            mails,
            i + 1,
            g0 + block,
            flags0 + Seq::new(block.len(), |nth: int| nth > 0),
        ),
{
    let g = g0 + block;
    let flags = flags0 + Seq::new(block.len(), |nth: int| nth > 0);
    lemma_block(mails, i);
    assert forall|k: int| 0 <= k < block.len() implies 0 <= #[trigger] block[k] < mails.len()
        && together(mails, i, block[k]) && opening(mails, block[k]) == i by {
        assert(block.contains(block[k]));
        if block[k] < i {
            assert(series_of(mails[block[k]]) == series_of(mails[i]));
        }
        lemma_opening(mails, block[k], i, 0);
    }
    assert forall|a: int, k: int|
        0 <= a < g0.len() && 0 <= k < block.len() implies !together(
        mails,
        #[trigger] g0[a],
        #[trigger] block[k],
    ) by {
        assert(g0.contains(g0[a]));
        let l = choose|l: int| 0 <= l < i && #[trigger] together(mails, l, g0[a]);
        assert(together(mails, i, block[k]));
        if together(mails, g0[a], block[k]) {
            assert(opening(mails, g0[a]) < i);
            assert(opening(mails, block[k]) == i);
            assert(series_of(mails[l]) == series_of(mails[i]) || l == i);
        }
    }
    assert forall|j: int| #[trigger] g.contains(j) <==> 0 <= j < mails.len() && exists|l: int|
        0 <= l < i + 1 && #[trigger] together(mails, l, j) by {
        if g0.contains(j) {
            let k = choose|k: int| 0 <= k < g0.len() && g0[k] == j;
            assert(g[k] == j);
        }
        if block.contains(j) {
            let k = choose|k: int| 0 <= k < block.len() && block[k] == j;
            assert(g[g0.len() + k] == j);
            assert(together(mails, i, j));
        }
        if g.contains(j) {
            let k = choose|k: int| 0 <= k < g.len() && g[k] == j;
            if k < g0.len() {
                assert(g0[k] == j);
                assert(g0.contains(j));
            } else {
                assert(block[k - g0.len()] == j);
                assert(together(mails, i, j));
            }
        }
    }
    assert(g.no_duplicates()) by {
        assert forall|a: int, b: int| 0 <= a < g.len() && 0 <= b < g.len() && a != b implies g[a]
            != g[b] by {
            if a < g0.len() && b >= g0.len() {
                assert(!together(mails, g0[a], block[b - g0.len()]));
            } else if b < g0.len() && a >= g0.len() {
                assert(!together(mails, g0[b], block[a - g0.len()]));
            }
        }
    }
    assert forall|a: int, b: int, c: int|
        0 <= a < b < c < g.len() && together(mails, #[trigger] g[a], #[trigger] g[c]) implies
        together(mails, g[a], #[trigger] g[b]) by {
        if c < g0.len() {
            assert(together(mails, g0[a], g0[c]));
            assert(together(mails, g0[a], g0[b]));
        } else if a < g0.len() {
            assert(!together(mails, g0[a], block[c - g0.len()]));
        } else {
            assert(together(mails, i, block[a - g0.len()]));
            assert(together(mails, i, block[b - g0.len()]));
        }
    }
    assert forall|a: int, b: int|
        0 <= a < b < g.len() && together(mails, g[a], g[b]) implies sibling_before(
        mails,
        #[trigger] g[a],
        #[trigger] g[b],
    ) by {
        if b < g0.len() {
            assert(together(mails, g0[a], g0[b]));
        } else if a < g0.len() {
            assert(!together(mails, g0[a], block[b - g0.len()]));
        } else {
            assert(sibling_before(mails, block[a - g0.len()], block[b - g0.len()]));
        }
    }
    assert forall|a: int, b: int| 0 <= a < b < g.len() implies opening(mails, #[trigger] g[a])
        <= opening(mails, #[trigger] g[b]) by {
        if b < g0.len() {
            assert(opening(mails, g0[a]) <= opening(mails, g0[b]));
        } else {
            assert(opening(mails, block[b - g0.len()]) == i);
            if a < g0.len() {
                assert(opening(mails, g0[a]) < i);
            } else {
                assert(opening(mails, block[a - g0.len()]) == i);
            }
        }
    }
    assert forall|a: int| 0 <= a < g.len() implies opening(mails, #[trigger] g[a]) < i + 1 by {
        if a < g0.len() {
            assert(opening(mails, g0[a]) < i);
        } else {
            assert(opening(mails, block[a - g0.len()]) == i);
        }
    }
    assert forall|a: int| 0 <= a < g.len() implies #[trigger] flags[a] == (a > 0 && together(
        mails,
        g[a - 1],
        g[a],
    )) by {
        if a < g0.len() {
            assert(flags0[a] == (a > 0 && together(mails, g0[a - 1], g0[a])));
        } else if a == g0.len() {
            if a > 0 {
                assert(!together(mails, g0[a - 1], block[0]));
            }
        } else {
            assert(together(mails, i, block[a - g0.len()]));
            assert(together(mails, i, block[a - 1 - g0.len()]));
        }
    }
}

/// Grouping keeps every mail, each exactly once.
pub proof fn law_grouping_keeps_every_mail(mails: Seq<MailView>)
    ensures
        grouped(mails, mails.len() as int).no_duplicates(),
        forall|j: int|
            #[trigger] grouped(mails, mails.len() as int).contains(j) <==> 0 <= j < mails.len(),
        grouped(mails, mails.len() as int).map_values(|i: int| mails[i]).to_multiset()
            == mails.to_multiset(),
        under_head(mails, mails.len() as int).len() == grouped(mails, mails.len() as int).len(),
{
    let n = mails.len() as int;
    lemma_grouped(mails, n);
    assert forall|j: int| #[trigger] grouped(mails, n).contains(j) <==> 0 <= j < n by {
        if 0 <= j < n {
            assert(together(mails, j, j));
        }
    }
    order::law_orders_keep_the_items(mails, grouped(mails, n));
}

/// After grouping, the mails of a series stand in one run: between two of them
/// stands no other mail. They stand by ascending number, so a cover letter stands
/// first, and among equal numbers in the order they had.
pub proof fn law_series_stand_in_one_ascending_block(mails: Seq<MailView>, a: int, b: int, c: int)
    requires
        0 <= a < b <= c < grouped(mails, mails.len() as int).len(),
        together(
            mails,
            grouped(mails, mails.len() as int)[a],
            grouped(mails, mails.len() as int)[c],
        ),
    ensures
        together(
            mails,
            grouped(mails, mails.len() as int)[a],
            grouped(mails, mails.len() as int)[b],
        ),
        sibling_before(
            mails,
            grouped(mails, mails.len() as int)[a],
            grouped(mails, mails.len() as int)[b],
        ),
        ({
            let x = grouped(mails, mails.len() as int)[a];
            let y = grouped(mails, mails.len() as int)[b];
            &&& mails[x].patch_tag is Some && mails[y].patch_tag is Some
            &&& mails[x].patch_tag->0.number <= mails[y].patch_tag->0.number
            &&& mails[x].patch_tag->0.number == mails[y].patch_tag->0.number ==> x < y
        }),
{
    lemma_grouped(mails, mails.len() as int);
}

/// Two mails stand together exactly when they are of one series: tagged as patches of
/// several, with one thread, revision and length.
pub proof fn law_series_stand_together(mails: Seq<MailView>, i: int, j: int)
    requires
        i != j,
    ensures
        together(mails, i, j) <==> {
            let a = mails[i];
            let b = mails[j];
            &&& a.patch_tag is Some && b.patch_tag is Some
            &&& a.patch_tag->0.total >= 2 && a.patch_tag->0.total == b.patch_tag->0.total
            &&& a.patch_tag->0.version == b.patch_tag->0.version
            &&& root_of(a) == root_of(b)
        },
{
    law_series_are_told_by_thread_revision_and_length(mails[i], mails[j]);
}

/// After grouping, of two mails that do not stand together, the one comes first whose
/// block holds the mail that stood before all mails of the other's block.
pub proof fn law_blocks_keep_the_order_of_their_first_mails(
    mails: Seq<MailView>,
    a: int,
    b: int,
) -> (first: int)
    requires
        0 <= a < b < grouped(mails, mails.len() as int).len(),
        !together(
            mails,
            grouped(mails, mails.len() as int)[a],
            grouped(mails, mails.len() as int)[b],
        ),
    ensures
        0 <= first < mails.len(),
        together(mails, first, grouped(mails, mails.len() as int)[a]),
        forall|y: int|
            0 <= y < mails.len() && #[trigger] together(
                mails,
                y,
                grouped(mails, mails.len() as int)[b],
            ) ==> first < y,
{
    let n = mails.len() as int;
    let g = grouped(mails, n);
    let x = g[a];
    let z = g[b];
    lemma_grouped(mails, n);
    law_grouping_keeps_every_mail(mails);
    assert(g.contains(x) && g.contains(z));
    let first = opening(mails, x);
    lemma_opening_opens(mails, x, 0);
    lemma_opening_opens(mails, z, 0);
    assert forall|y: int| 0 <= y < n && #[trigger] together(mails, y, z) implies first < y by {
        lemma_opening_is_least(mails, z, 0, y);
    }
    first
}

/// No mail of a block stands before the first one of it.
proof fn lemma_opening_is_least(mails: Seq<MailView>, j: int, from: int, y: int)
    requires
        0 <= from <= j < mails.len(),
        from <= y < mails.len(),
        together(mails, y, j),
    ensures
        opening_from(mails, j, from) <= y,
    decreases j - from,
{
    if from < j && !together(mails, from, j) {
        lemma_opening_is_least(mails, j, from + 1, y);
    }
}

/// A mail is flagged after grouping exactly when the mail before it is its sibling:
/// the head of a block is not, nor is a mail that stands alone.
pub proof fn law_flags_mark_what_follows_a_sibling(mails: Seq<MailView>, a: int)
    requires
        0 <= a < grouped(mails, mails.len() as int).len(),
    ensures
        under_head(mails, mails.len() as int)[a] <==> a > 0 && together(
            mails,
            grouped(mails, mails.len() as int)[a - 1],
            grouped(mails, mails.len() as int)[a],
        ),
{
    lemma_grouped(mails, mails.len() as int);
}

/// After grouping, blocks stand in the order of their first mails: a block sits
/// where the first of its mails sat.
pub proof fn law_blocks_sit_where_their_first_mail_sat(mails: Seq<MailView>, a: int, b: int)
    requires
        0 <= a < b < grouped(mails, mails.len() as int).len(),
    ensures
        opening(mails, grouped(mails, mails.len() as int)[a]) <= opening(
            mails,
            grouped(mails, mails.len() as int)[b],
        ),
{
    lemma_grouped(mails, mails.len() as int);
}

/// The first mail of a block stands no later than the others, and stands with them.
proof fn lemma_opening_opens(mails: Seq<MailView>, j: int, from: int)
    requires
        0 <= from <= j < mails.len(),
    ensures
        from <= opening_from(mails, j, from) <= j,
        together(mails, opening_from(mails, j, from), j),
    decreases j - from,
{
    if from < j && !together(mails, from, j) {
        lemma_opening_opens(mails, j, from + 1);
    }
}

/// Every series stands in one run, by ascending number.
pub open spec fn is_grouped(mails: Seq<MailView>) -> bool {
    &&& forall|a: int, b: int, c: int|
        0 <= a < b < c < mails.len() && #[trigger] together(mails, a, c) ==> #[trigger] together(
            mails,
            a,
            b,
        )
    &&& forall|a: int, b: int|
        0 <= a < b < mails.len() && #[trigger] together(mails, a, b) ==> patch_number(mails[a])
            <= patch_number(mails[b])
}

/// Of two mails in one run each, the one that grouping puts first stood first.
proof fn lemma_grouped_stays(mails: Seq<MailView>, a: int, b: int)
    requires
        is_grouped(mails),
        0 <= a < mails.len(),
        0 <= b < mails.len(),
        a != b,
        opening(mails, a) <= opening(mails, b),
        together(mails, a, b) ==> sibling_before(mails, a, b),
    ensures
        a < b,
{
    if together(mails, a, b) {
        if b < a {
            assert(together(mails, b, a));
        }
    } else {
        let p = opening(mails, a);
        let q = opening(mails, b);
        lemma_opening_opens(mails, a, 0);
        lemma_opening_opens(mails, b, 0);
        if b < a && p < b {
            assert(together(mails, p, a));
            assert(together(mails, p, b));
        }
    }
}

/// Mails that are grouped already stay where they are.
pub proof fn law_grouped_mails_stay(mails: Seq<MailView>)
    requires
        is_grouped(mails),
    ensures
        grouped(mails, mails.len() as int) == order::upto(mails.len()),
        grouped(mails, mails.len() as int).map_values(|i: int| mails[i]) == mails,
{
    let n = mails.len() as int;
    let g = grouped(mails, n);
    let places = order::upto(mails.len());
    let keys = Seq::new(mails.len(), |i: int| 0int);
    lemma_grouped(mails, n);
    law_grouping_keeps_every_mail(mails);
    assert forall|i: int, j: int| 0 <= i < j < g.len() implies order::comes_before(
        keys,
        #[trigger] g[i],
        #[trigger] g[j],
    ) by {
        assert(g.contains(g[i]));
        assert(g.contains(g[j]));
        lemma_grouped_stays(mails, g[i], g[j]);
    }
    assert forall|x: int| #[trigger] g.contains(x) <==> places.contains(x) by {
        if 0 <= x < n {
            assert(places[x] == x);
        }
    }
    order::law_orders_are_unique(keys, g, places);
    assert(g.map_values(|i: int| mails[i]) =~= mails);
}

/// Grouping mails that were grouped before changes nothing, neither their order nor
/// their flags.
pub proof fn law_grouping_twice_changes_nothing(mails: Seq<MailView>)
    ensures
        ({
            let once = grouped(mails, mails.len() as int).map_values(|i: int| mails[i]);
            &&& is_grouped(once)
            &&& grouped(once, once.len() as int).map_values(|i: int| once[i]) == once
            &&& under_head(once, once.len() as int) == under_head(mails, mails.len() as int)
        }),
{
    let n = mails.len() as int;
    let g = grouped(mails, n);
    let once = g.map_values(|i: int| mails[i]);
    lemma_grouped(mails, n);
    assert forall|a: int, b: int| 0 <= a < g.len() && 0 <= b < g.len() implies #[trigger] together(
        once,
        a,
        b,
    ) == together(mails, g[a], g[b]) by {}
    assert(is_grouped(once)) by {
        assert forall|a: int, b: int, c: int|
            0 <= a < b < c < once.len() && #[trigger] together(once, a, c) implies (
        #[trigger] together(once, a, b)) by {
            assert(together(mails, g[a], g[c]));
            assert(together(mails, g[a], g[b]));
        }
        assert forall|a: int, b: int|
            0 <= a < b < once.len() && #[trigger] together(once, a, b) implies patch_number(once[a])
            <= patch_number(once[b]) by {
            assert(sibling_before(mails, g[a], g[b]));
        }
    }
    law_grouped_mails_stay(once);
    lemma_grouped(once, once.len() as int);
    let flags = under_head(mails, n);
    let again = under_head(once, once.len() as int);
    assert(again.len() == flags.len());
    assert forall|a: int| 0 <= a < flags.len() implies again[a] == flags[a] by {
        let h = grouped(once, once.len() as int);
        assert(h[a] == a);
        if a > 0 {
            assert(h[a - 1] == a - 1);
            assert(together(once, a - 1, a) == together(mails, g[a - 1], g[a]));
        }
    }
    assert(again =~= flags);
}

// Whole series

/// Patch `n` of the series is among the mails.
pub open spec fn has_patch(mails: Seq<MailView>, tag: SeriesTagView, n: int) -> bool {
    exists|i: int|
        0 <= i < mails.len() && series_of(#[trigger] mails[i]) == Some(tag) && patch_number(
            mails[i],
        ) == n
}

/// Every patch of the series is among the mails, from `1/m` to `m/m`.
pub open spec fn all_present(mails: Seq<MailView>, tag: SeriesTagView) -> bool {
    forall|n: int| 1 <= n <= tag.total ==> #[trigger] has_patch(mails, tag, n)
}

/// Is every patch of `tag` among `mails`? The 0/m cover letter is optional;
/// 1/m..m/m are not.
pub fn is_whole(mails: &[Mail], tag: &SeriesTag) -> (r: bool)
    ensures
        r == all_present(mail::mail_views(mails@), tag@),
{
    broadcast use vstd::std_specs::hash::group_hash_axioms;

    let ghost views = mail::mail_views(mails@);
    let mut seen: HashSet<u32> = HashSet::new();
    for i in 0..mails.len()
        invariant
            views == mail::mail_views(mails@),
            forall|n: u32|
                #[trigger] seen@.contains(n) <==> exists|j: int|
                    0 <= j < i && series_of(#[trigger] views[j]) == Some(tag@) && patch_number(
                        views[j],
                    ) == n,
    {
        let ghost before = seen@;
        assert(views[i as int] == mails@[i as int]@);
        let same = match series_tag(&mails[i]) {
            Some(t) => same_series(&t, tag),
            None => false,
        };
        if same {
            if let Some(patch) = mails[i].patch_tag {
                seen.insert(patch.number);
            }
        }
        proof {
            assert forall|n: u32|
                #[trigger] seen@.contains(n) <==> exists|j: int|
                    0 <= j < i + 1 && series_of(#[trigger] views[j]) == Some(tag@)
                        && patch_number(views[j]) == n by {
                assert(before.contains(n) <==> exists|j: int|
                    0 <= j < i && series_of(#[trigger] views[j]) == Some(tag@) && patch_number(
                        views[j],
                    ) == n);
                if seen@.contains(n) && !before.contains(n) {
                    assert(patch_number(views[i as int]) == n);
                }
            }
        }
    }
    let mut n: u32 = 0;
    while n < tag.total
        invariant
            views == mail::mail_views(mails@),
            n <= tag.total,
            forall|k: u32|
                #[trigger] seen@.contains(k) <==> exists|j: int|
                    0 <= j < mails@.len() && series_of(#[trigger] views[j]) == Some(tag@)
                        && patch_number(views[j]) == k,
            forall|k: int| 1 <= k <= n ==> #[trigger] has_patch(views, tag@, k),
        decreases tag.total - n,
    {
        n = n + 1;
        if !seen.contains(&n) {
            assert(!has_patch(views, tag@, n as int));
            return false;
        }
    }
    true
}

/// The cover letter and mails of other series make no difference to whether a
/// series is whole.
pub proof fn law_whole_without_cover_and_others(
    mails: Seq<MailView>,
    extra: MailView,
    tag: SeriesTagView,
)
    requires
        patch_number(extra) == 0 || series_of(extra) != Some(tag),
    ensures
        all_present(mails.push(extra), tag) <==> all_present(mails, tag),
{
    let more = mails.push(extra);
    assert forall|n: int| 1 <= n <= tag.total implies #[trigger] has_patch(more, tag, n)
        == has_patch(mails, tag, n) by {
        if has_patch(mails, tag, n) {
            let i = choose|i: int|
                0 <= i < mails.len() && series_of(#[trigger] mails[i]) == Some(tag)
                    && patch_number(mails[i]) == n;
            assert(more[i] == mails[i]);
        }
        if has_patch(more, tag, n) {
            let i = choose|i: int|
                0 <= i < more.len() && series_of(#[trigger] more[i]) == Some(tag)
                    && patch_number(more[i]) == n;
            assert(more[i] == mails[i]);
        }
    }
    if all_present(more, tag) {
        assert forall|n: int| 1 <= n <= tag.total implies #[trigger] has_patch(mails, tag, n) by {
            assert(has_patch(more, tag, n));
        }
    }
}

/// A whole series stays whole when more mails are there.
pub proof fn law_whole_stays_whole(mails: Seq<MailView>, extra: MailView, tag: SeriesTagView)
    requires
        all_present(mails, tag),
    ensures
        all_present(mails.push(extra), tag),
{
    let more = mails.push(extra);
    assert forall|n: int| 1 <= n <= tag.total implies #[trigger] has_patch(more, tag, n) by {
        assert(has_patch(mails, tag, n));
        let i = choose|i: int|
            0 <= i < mails.len() && series_of(#[trigger] mails[i]) == Some(tag) && patch_number(
                mails[i],
            ) == n;
        assert(more[i] == mails[i]);
    }
}

/// A series is whole exactly when for every number from one to its length there is a mail
/// with that number and that length, of its thread and revision. A series has at least two
/// patches.
pub proof fn law_whole_means_every_patch(mails: Seq<MailView>, tag: SeriesTagView, n: int)
    ensures
        all_present(mails, tag) <==> forall|k: int|
            1 <= k <= tag.total ==> #[trigger] has_patch(mails, tag, k),
        has_patch(mails, tag, n) <==> exists|i: int|
            0 <= i < mails.len() && (#[trigger] mails[i]).patch_tag is Some
                && mails[i].patch_tag->0.number == n && mails[i].patch_tag->0.total == tag.total
                && tag.total >= 2 && mails[i].patch_tag->0.version == tag.version && root_of(
                mails[i],
            ) == tag.root,
{
    assert forall|i: int| 0 <= i < mails.len() implies (series_of(#[trigger] mails[i]) == Some(tag)
        <==> mails[i].patch_tag is Some && mails[i].patch_tag->0.total == tag.total && tag.total
        >= 2 && mails[i].patch_tag->0.version == tag.version && root_of(mails[i]) == tag.root) by {
        if series_of(mails[i]) is Some && root_of(mails[i]) == tag.root
            && mails[i].patch_tag->0.version == tag.version && mails[i].patch_tag->0.total
            == tag.total {
            assert(series_of(mails[i])->0 =~= tag);
        }
    }
}

// Picking a series out

/// The mail is the given root, or references it.
pub open spec fn hangs_off(mail: MailView, root: Seq<char>) -> bool {
    parse::normalized_id(mail.message_id) == root || exists|k: int|
        0 <= k < mail.references.len() && #[trigger] parse::normalized_id(mail.references[k])
            == root
}

/// The mail carries a real `[PATCH n/m]`, not the `0/m` of a cover letter.
pub open spec fn is_numbered_patch(mail: MailView) -> bool {
    mail.patch_tag is Some && patch_number(mail) > 0
}

/// The mail is of `sel`'s thread: it hangs off the same root, or references it.
pub open spec fn shares_thread(sel: MailView, mail: MailView) -> bool {
    hangs_off(mail, root_of(sel)) || root_of(mail) == root_of(sel)
}

/// The mail is a patch of the series that `sel` is a patch of: it shares the
/// revision, the series length and the thread.
pub open spec fn is_sibling(sel: MailView, mail: MailView) -> bool {
    &&& is_numbered_patch(mail)
    &&& mail.patch_tag->0.version == sel.patch_tag->0.version
    &&& mail.patch_tag->0.total == sel.patch_tag->0.total
    &&& shares_thread(sel, mail)
}

/// The first of the candidates that is patch `n` of `sel`'s series.
pub open spec fn first_sibling(sel: MailView, candidates: Seq<MailView>, n: int) -> Option<MailView>
    decreases candidates.len(),
{
    if candidates.len() == 0 {
        None
    } else {
        match first_sibling(sel, candidates.drop_last(), n) {
            Some(m) => Some(m),
            None => if is_sibling(sel, candidates.last()) && patch_number(candidates.last()) == n {
                Some(candidates.last())
            } else {
                None
            },
        }
    }
}

/// Patch `n` of `sel`'s series: the first candidate that is it, else `sel` where it
/// is it.
pub open spec fn chosen_patch(sel: MailView, candidates: Seq<MailView>, n: int) -> Option<MailView> {
    match first_sibling(sel, candidates, n) {
        Some(m) => Some(m),
        None => if n == patch_number(sel) {
            Some(sel)
        } else {
            None
        },
    }
}

/// The patches that `pick` gives for their numbers, each of them once, by ascending
/// number.
pub open spec fn lists_patches(
    patches: Seq<MailView>,
    pick: spec_fn(int) -> Option<MailView>,
) -> bool {
    &&& forall|a: int, b: int|
        0 <= a < b < patches.len() ==> patch_number(#[trigger] patches[a]) < patch_number(
            #[trigger] patches[b],
        )
    &&& forall|a: int|
        0 <= a < patches.len() ==> pick(patch_number(#[trigger] patches[a])) == Some(patches[a])
    &&& forall|n: int|
        (#[trigger] pick(n)) is Some ==> exists|a: int|
            0 <= a < patches.len() && patch_number(#[trigger] patches[a]) == n
}

/// Whether the mail is the given root, or references it.
fn references_root(mail: &Mail, root: &String) -> (r: bool)
    ensures
        r == hangs_off(mail@, root@),
{
    if parse::normalize_message_id(mail.message_id.as_str()) == *root {
        return true;
    }
    for i in 0..mail.references.len()
        invariant
            forall|k: int|
                0 <= k < i ==> #[trigger] parse::normalized_id(mail@.references[k]) != root@,
    {
        assert(mail@.references[i as int] == mail.references@[i as int]@);
        if parse::normalize_message_id(mail.references[i].as_str()) == *root {
            return true;
        }
    }
    false
}

/// Put a patch in its place, unless one with its number is there.
fn add_patch(
    patches: &mut Vec<Mail>,
    mail: &Mail,
    number: u32,
    Ghost(pick): Ghost<spec_fn(int) -> Option<MailView>>,
)
    requires
        patch_number(mail@) == number,
        lists_patches(mail::mail_views(old(patches)@), pick),
        forall|a: int|
            0 <= a < old(patches)@.len() ==> (#[trigger] old(patches)@[a]).patch_tag is Some,
        mail@.patch_tag is Some,
    ensures
        lists_patches(
            mail::mail_views(final(patches)@),
            |n: int|
                if pick(n) is None && n == number {
                    Some(mail@)
                } else {
                    pick(n)
                },
        ),
        forall|a: int|
            0 <= a < final(patches)@.len() ==> (#[trigger] final(patches)@[a]).patch_tag is Some,
{
    let ghost views = mail::mail_views(patches@);
    let ghost next = |n: int|
        if pick(n) is None && n == number {
            Some(mail@)
        } else {
            pick(n)
        };
    let len: usize = patches.len();
    let mut at: usize = 0;
    while at < len
        invariant_except_break
            patches@ == old(patches)@,
            views == mail::mail_views(patches@),
            len == patches@.len(),
            at <= len,
            forall|a: int|
                0 <= a < patches@.len() ==> (#[trigger] patches@[a]).patch_tag is Some,
            forall|a: int| 0 <= a < at ==> patch_number(#[trigger] views[a]) < number,
        ensures
            patches@ == old(patches)@,
            at <= len,
            forall|a: int| 0 <= a < at ==> patch_number(#[trigger] views[a]) < number,
            at < len ==> patch_number(views[at as int]) >= number,
        decreases len - at,
    {
        assert(views[at as int] == patches@[at as int]@);
        let there: u32 = match patches[at].patch_tag {
            Some(t) => t.number,
            None => 0,
        };
        if there >= number {
            break;
        }
        at = at + 1;
    }
    let present = if at < len {
        assert(views[at as int] == patches@[at as int]@);
        match patches[at].patch_tag {
            Some(t) => t.number == number,
            None => false,
        }
    } else {
        false
    };
    if present {
        proof {
            assert(pick(patch_number(views[at as int])) is Some);
            assert(next =~= pick);
        }
    } else {
        patches.insert(at, mail.clone());
        proof {
            let grown = mail::mail_views(patches@);
            assert(grown =~= views.insert(at as int, mail@));
            if pick(number as int) is Some {
                let a = choose|a: int|
                    0 <= a < views.len() && patch_number(#[trigger] views[a]) == number;
                if a > at {
                    assert(patch_number(views[at as int]) < patch_number(views[a]));
                }
            }
            assert forall|a: int, b: int| 0 <= a < b < grown.len() implies patch_number(
                #[trigger] grown[a],
            ) < patch_number(#[trigger] grown[b]) by {
                let a0 = if a > at {
                    a - 1
                } else {
                    a
                };
                let b0 = if b > at {
                    b - 1
                } else {
                    b
                };
                if a != at && b != at {
                    assert(patch_number(views[a0]) < patch_number(views[b0]));
                } else if a == at {
                    if b0 > at {
                        assert(patch_number(views[at as int]) < patch_number(views[b0]));
                    }
                } else {
                    assert(patch_number(views[a0]) < number);
                }
            }
            assert forall|a: int| 0 <= a < grown.len() implies next(
                patch_number(#[trigger] grown[a]),
            ) == Some(grown[a]) by {
                let a0 = if a > at {
                    a - 1
                } else {
                    a
                };
                if a != at {
                    assert(pick(patch_number(views[a0])) == Some(views[a0]));
                }
            }
            assert forall|n: int| (#[trigger] next(n)) is Some implies exists|a: int|
                0 <= a < grown.len() && patch_number(#[trigger] grown[a]) == n by {
                if pick(n) is Some {
                    let a = choose|a: int|
                        0 <= a < views.len() && patch_number(#[trigger] views[a]) == n;
                    if a >= at {
                        assert(grown[a + 1] == views[a]);
                    } else {
                        assert(grown[a] == views[a]);
                    }
                } else {
                    assert(grown[at as int] == mail@);
                }
            }
            assert forall|a: int| 0 <= a < patches@.len() implies (
            #[trigger] patches@[a]).patch_tag is Some by {
                if a > at {
                    assert(patches@[a] == old(patches)@[a - 1]);
                } else if a < at {
                    assert(patches@[a] == old(patches)@[a]);
                } else {
                    assert(patches@[a]@ == mail@);
                }
            }
        }
    }
}

/// Every patch of `sel`'s series among the candidates, ordered 1/m, 2/m and so on.
/// Empty when `sel` is not a patch mail.
///
/// A mail belongs to the series when it shares `sel`'s revision *and* series length
/// *and* thread, and carries a real `[PATCH n/m]` (not the `0/m` cover). All three
/// matter: the same thread often holds several revisions of a series, and a bare
/// `[PATCH]` fixup posted as a reply would otherwise pose as `1/1` and shoulder out
/// the real first patch.
///
/// Of several mails with one number the first stays: given newest first, a resend
/// beats the original. The selected mail is ground truth: it is kept even where no
/// candidate has its number.
pub fn patch_series(sel: &Mail, candidates: &Vec<Mail>) -> (r: Vec<Mail>)
    ensures
        !is_numbered_patch(sel@) ==> r@.len() == 0,
        is_numbered_patch(sel@) ==> lists_patches(
            mail::mail_views(r@),
            |n: int| chosen_patch(sel@, mail::mail_views(candidates@), n),
        ),
{
    let mut out: Vec<Mail> = Vec::new();
    let sel_tag = match sel.patch_tag {
        Some(tag) => tag,
        None => {
            return out;
        },
    };
    if sel_tag.number == 0 {
        return out;
    }
    let root = thread_root(sel);
    let ghost views = mail::mail_views(candidates@);
    proof {
        let pick = |n: int| first_sibling(sel@, views.take(0), n);
        assert(mail::mail_views(out@) =~= Seq::<MailView>::empty());
        assert(lists_patches(mail::mail_views(out@), pick));
    }
    for i in 0..candidates.len()
        invariant
            views == mail::mail_views(candidates@),
            sel@.patch_tag == Some(sel_tag),
            root@ == root_of(sel@),
            lists_patches(
                mail::mail_views(out@),
                |n: int| first_sibling(sel@, views.take(i as int), n),
            ),
            forall|a: int| 0 <= a < out@.len() ==> (#[trigger] out@[a]).patch_tag is Some,
    {
        let ghost pick = |n: int| first_sibling(sel@, views.take(i as int), n);
        let ghost next = |n: int| first_sibling(sel@, views.take(i + 1), n);
        proof {
            assert(views.take(i + 1).drop_last() =~= views.take(i as int));
            assert(views[i as int] == candidates@[i as int]@);
        }
        let mail = &candidates[i];
        match mail.patch_tag {
            Some(tag) => {
                if tag.number != 0 && tag.version == sel_tag.version && tag.total == sel_tag.total
                    && (references_root(mail, &root) || thread_root(mail) == root) {
                    add_patch(&mut out, mail, tag.number, Ghost(pick));
                    assert(next =~= |n: int|
                        if pick(n) is None && n == tag.number {
                            Some(mail@)
                        } else {
                            pick(n)
                        });
                } else {
                    assert(next =~= pick);
                }
            },
            None => {
                assert(next =~= pick);
            },
        }
    }
    let ghost pick = |n: int| first_sibling(sel@, views, n);
    assert(views.take(views.len() as int) =~= views);
    add_patch(&mut out, sel, sel_tag.number, Ghost(pick));
    proof {
        let last = |n: int|
            if pick(n) is None && n == sel_tag.number {
                Some(sel@)
            } else {
                pick(n)
            };
        assert(last =~= |n: int| chosen_patch(sel@, views, n));
    }
    out
}

/// What git is asked for the candidates of `sel`'s series: let it prune the epoch before
/// any mail is read, to the patches of the same sender. Nothing is asked when `sel` is
/// not a patch mail.
pub fn series_search(sel: &Mail) -> (r: Option<Vec<String>>)
    ensures
        match r {
            Some(args) => is_numbered_patch(sel@) && text::strings(args@)
                == archive::search_words(Some("PATCH"@), Some(sel@.sender)),
            None => !is_numbered_patch(sel@),
        },
{
    match sel.patch_tag {
        Some(tag) => if tag.number > 0 {
            Some(archive::search_args(Some("PATCH"), Some(sel.sender.as_str())))
        } else {
            None
        },
        None => None,
    }
}

/// What is picked out for a patch number is a patch of that number, of the selected
/// mail's series, and for the selected mail's own number there is always one.
pub proof fn law_chosen_patches_are_siblings(sel: MailView, candidates: Seq<MailView>, n: int)
    requires
        is_numbered_patch(sel),
    ensures
        chosen_patch(sel, candidates, n) matches Some(m) ==> patch_number(m) == n && is_sibling(
            sel,
            m,
        ),
        chosen_patch(sel, candidates, patch_number(sel)) is Some,
    decreases candidates.len(),
{
    if candidates.len() > 0 {
        law_chosen_patches_are_siblings(sel, candidates.drop_last(), n);
    }
}

/// The mail is patch `n` of the series that `sel` is a patch of: its number is that, it
/// has `sel`'s revision and length, and it is, names or hangs off the root of `sel`'s
/// thread.
pub open spec fn is_patch_of(sel: MailView, mail: MailView, n: int) -> bool {
    &&& mail.patch_tag is Some
    &&& mail.patch_tag->0.number == n
    &&& n >= 1
    &&& mail.patch_tag->0.version == sel.patch_tag->0.version
    &&& mail.patch_tag->0.total == sel.patch_tag->0.total
    &&& {
        ||| parse::normalized_id(mail.message_id) == root_of(sel)
        ||| root_of(mail) == root_of(sel)
        ||| exists|k: int|
            0 <= k < mail.references.len() && parse::normalized_id(#[trigger] mail.references[k])
                == root_of(sel)
    }
}

/// Of the candidates that are patch `n` of the series, the first is picked out. Where
/// there is none, it is the selected mail, if `n` is its number, and none otherwise.
pub proof fn law_the_first_candidate_is_picked(sel: MailView, candidates: Seq<MailView>, n: int)
    requires
        is_numbered_patch(sel),
    ensures
        match chosen_patch(sel, candidates, n) {
            Some(m) => (exists|k: int|
                0 <= k < candidates.len() && m == #[trigger] candidates[k] && is_patch_of(
                    sel,
                    candidates[k],
                    n,
                ) && forall|q: int|
                    0 <= q < k ==> !is_patch_of(sel, #[trigger] candidates[q], n)) || (m == sel && n
                == sel.patch_tag->0.number && forall|q: int|
                0 <= q < candidates.len() ==> !is_patch_of(sel, #[trigger] candidates[q], n)),
            None => n != sel.patch_tag->0.number && forall|q: int|
                0 <= q < candidates.len() ==> !is_patch_of(sel, #[trigger] candidates[q], n),
        },
        sel.patch_tag is Some && sel.patch_tag->0.number >= 1,
{
    lemma_first_sibling(sel, candidates, n);
}

proof fn lemma_first_sibling(sel: MailView, candidates: Seq<MailView>, n: int)
    ensures
        match first_sibling(sel, candidates, n) {
            Some(m) => exists|k: int|
                0 <= k < candidates.len() && m == #[trigger] candidates[k] && is_patch_of(
                    sel,
                    candidates[k],
                    n,
                ) && forall|q: int| 0 <= q < k ==> !is_patch_of(sel, #[trigger] candidates[q], n),
            None => forall|q: int|
                0 <= q < candidates.len() ==> !is_patch_of(sel, #[trigger] candidates[q], n),
        },
    decreases candidates.len(),
{
    if candidates.len() > 0 {
        let fewer = candidates.drop_last();
        let last = candidates.last();
        lemma_first_sibling(sel, fewer, n);
        assert forall|q: int| 0 <= q < fewer.len() implies #[trigger] candidates[q] == fewer[q] by {
        }
        assert(is_patch_of(sel, last, n) <==> is_sibling(sel, last) && patch_number(last) == n) by {
            if hangs_off(last, root_of(sel)) && parse::normalized_id(last.message_id) != root_of(
                sel,
            ) {
                let k = choose|k: int|
                    0 <= k < last.references.len() && #[trigger] parse::normalized_id(
                        last.references[k],
                    ) == root_of(sel);
                assert(parse::normalized_id(last.references[k]) == root_of(sel));
            }
            if exists|k: int|
                0 <= k < last.references.len() && parse::normalized_id(
                    #[trigger] last.references[k],
                ) == root_of(sel) {
                let k = choose|k: int|
                    0 <= k < last.references.len() && parse::normalized_id(
                        #[trigger] last.references[k],
                    ) == root_of(sel);
                assert(hangs_off(last, root_of(sel))) by {
                    assert(parse::normalized_id(last.references[k]) == root_of(sel));
                }
            }
        }
        match first_sibling(sel, fewer, n) {
            Some(m) => {
                let k = choose|k: int|
                    0 <= k < fewer.len() && m == #[trigger] fewer[k] && is_patch_of(
                        sel,
                        fewer[k],
                        n,
                    ) && forall|q: int| 0 <= q < k ==> !is_patch_of(sel, #[trigger] fewer[q], n);
                assert(m == candidates[k]);
            },
            None => {
                let k = candidates.len() - 1;
                assert(candidates[k] == last);
                assert forall|q: int| 0 <= q < k implies !is_patch_of(
                    sel,
                    #[trigger] candidates[q],
                    n,
                ) by {
                    assert(fewer[q] == candidates[q]);
                }
            },
        }
    }
}

/// The patches of a series come in the order in which they are applied, each number once,
/// and each is the one that was picked out for its number; none that was is left out.
pub proof fn law_patches_come_in_apply_order(
    patches: Seq<MailView>,
    pick: spec_fn(int) -> Option<MailView>,
    n: int,
)
    requires
        lists_patches(patches, pick),
    ensures
        forall|a: int, b: int|
            0 <= a < b < patches.len() ==> patch_number(#[trigger] patches[a]) < patch_number(
                #[trigger] patches[b],
            ),
        forall|a: int|
            0 <= a < patches.len() ==> pick(patch_number(#[trigger] patches[a])) == Some(patches[a]),
        pick(n) matches Some(m) ==> patch_number(m) == n ==> patches.contains(m),
{
    if pick(n) is Some {
        let a = choose|a: int| 0 <= a < patches.len() && patch_number(#[trigger] patches[a]) == n;
        assert(pick(patch_number(patches[a])) == Some(patches[a]));
    }
}

/// A candidate that shares the selected mail's revision, series length and thread is
/// enough for its patch number to be picked out.
pub proof fn law_every_sibling_has_its_number_picked(
    sel: MailView,
    candidates: Seq<MailView>,
    k: int,
)
    requires
        is_numbered_patch(sel),
        0 <= k < candidates.len(),
        is_sibling(sel, candidates[k]),
    ensures
        chosen_patch(sel, candidates, patch_number(candidates[k])) is Some,
    decreases candidates.len(),
{
    if k < candidates.len() - 1 {
        law_every_sibling_has_its_number_picked(sel, candidates.drop_last(), k);
    }
}

/// Mails of one series are siblings: a numbered patch with the selected mail's series
/// tag belongs to its series, also where only `In-Reply-To` ties it to the thread.
pub proof fn law_one_series_tag_makes_siblings(sel: MailView, mail: MailView)
    requires
        is_numbered_patch(mail),
        series_of(sel) is Some,
        series_of(mail) == series_of(sel),
    ensures
        is_sibling(sel, mail),
{
}

// Replies

/// The mail has the given Message-ID, once normalized.
pub open spec fn has_id(mail: MailView, id: Seq<char>) -> bool {
    mail.message_id.len() > 0 && parse::normalized_id(mail.message_id) == id
}

/// The place of the first mail with the given Message-ID.
pub open spec fn place_of_id(mails: Seq<MailView>, id: Seq<char>) -> Option<int>
    decreases mails.len(),
{
    if mails.len() == 0 {
        None
    } else {
        match place_of_id(mails.drop_last(), id) {
            Some(i) => Some(i),
            None => if has_id(mails.last(), id) {
                Some(mails.len() - 1)
            } else {
                None
            },
        }
    }
}

/// The place of the mail that the mail at `i` replies to, where it is another mail of
/// the set.
pub open spec fn reply_target(mails: Seq<MailView>, i: int) -> Option<int> {
    if mails[i].in_reply_to.len() == 0 {
        None
    } else {
        match place_of_id(mails, parse::normalized_id(mails[i].in_reply_to)) {
            Some(p) => if p != i {
                Some(p)
            } else {
                None
            },
            None => None,
        }
    }
}

/// For each mail, what it replies to.
pub open spec fn reply_targets(mails: Seq<MailView>) -> Seq<Option<int>> {
    Seq::new(mails.len(), |i: int| reply_target(mails, i))
}

proof fn lemma_place_of_id(mails: Seq<MailView>, id: Seq<char>)
    ensures
        place_of_id(mails, id) matches Some(i) ==> 0 <= i < mails.len() && has_id(mails[i], id),
    decreases mails.len(),
{
    if mails.len() > 0 {
        lemma_place_of_id(mails.drop_last(), id);
    }
}

/// The mails reply to mails of the set.
proof fn lemma_reply_graph(mails: Seq<MailView>)
    ensures
        forest::is_graph(reply_targets(mails)),
{
    let targets = reply_targets(mails);
    assert forall|i: int| 0 <= i < targets.len() implies match #[trigger] targets[i] {
        Some(p) => 0 <= p < targets.len(),
        None => true,
    } by {
        lemma_place_of_id(mails, parse::normalized_id(mails[i].in_reply_to));
    }
}

/// The table from Message-IDs to the places of the mails that have them.
fn id_table(items: &[Mail]) -> (r: StringHashMap<usize>)
    ensures
        forall|id: Seq<char>|
            #[trigger] r@.contains_key(id) <==> place_of_id(mail::mail_views(items@), id) is Some,
        forall|id: Seq<char>|
            #[trigger] r@.contains_key(id) ==> place_of_id(mail::mail_views(items@), id) == Some(
                r@[id] as int,
            ),
{
    let ghost views = mail::mail_views(items@);
    let mut ids: StringHashMap<usize> = StringHashMap::new();
    for i in 0..items.len()
        invariant
            views == mail::mail_views(items@),
            forall|id: Seq<char>|
                #[trigger] ids@.contains_key(id) <==> place_of_id(views.take(i as int), id) is Some,
            forall|id: Seq<char>|
                #[trigger] ids@.contains_key(id) ==> place_of_id(views.take(i as int), id) == Some(
                    ids@[id] as int,
                ),
    {
        let ghost before = ids@;
        proof {
            assert(views.take(i + 1).drop_last() =~= views.take(i as int));
            assert(views[i as int] == items@[i as int]@);
        }
        if !items[i].message_id.as_str().is_empty() {
            let id = parse::normalize_message_id(items[i].message_id.as_str());
            if !ids.contains_key(id.as_str()) {
                ids.insert(id, i);
            }
        }
        proof {
            assert forall|id: Seq<char>| #[trigger] ids@.contains_key(id) <==> place_of_id(
                views.take(i + 1),
                id,
            ) is Some by {
                assert(before.contains_key(id) <==> place_of_id(views.take(i as int), id) is Some);
            }
            assert forall|id: Seq<char>| #[trigger] ids@.contains_key(id) implies place_of_id(
                views.take(i + 1),
                id,
            ) == Some(ids@[id] as int) by {
                assert(before.contains_key(id) <==> place_of_id(views.take(i as int), id) is Some);
            }
        }
    }
    assert(views.take(views.len() as int) =~= views);
    ids
}

/// For each item, the number of items in the set that reply to it transitively (its
/// thread-subtree size minus itself). Only items within `items` are counted, so a
/// thread root reflects the in-set thread size. The result is index-aligned with
/// `items`.
pub fn reply_counts(items: &[Mail]) -> (r: Vec<usize>)
    ensures
        r@.len() == items@.len(),
        forall|i: int|
            0 <= i < items@.len() ==> #[trigger] r@[i] == forest::replies_below(
                reply_targets(mail::mail_views(items@)),
                i,
            ),
{
    let ghost views = mail::mail_views(items@);
    let ghost targets = reply_targets(views);
    let n: usize = items.len();
    let ids = id_table(items);
    let mut parents: Vec<Option<usize>> = Vec::new();
    for i in 0..n
        invariant
            n == items@.len(),
            views == mail::mail_views(items@),
            targets == reply_targets(views),
            forall|id: Seq<char>|
                #[trigger] ids@.contains_key(id) <==> place_of_id(views, id) is Some,
            forall|id: Seq<char>|
                #[trigger] ids@.contains_key(id) ==> place_of_id(views, id) == Some(
                    ids@[id] as int,
                ),
            parents@.len() == i,
            forall|j: int| 0 <= j < i ==> forest::graph(parents@)[j] == #[trigger] targets[j],
    {
        assert(views[i as int] == items@[i as int]@);
        let ghost before = parents@;
        let mut parent: Option<usize> = None;
        if !items[i].in_reply_to.as_str().is_empty() {
            let id = parse::normalize_message_id(items[i].in_reply_to.as_str());
            if let Some(found) = ids.get(id.as_str()) {
                assert(ids@.contains_key(id@));
                if *found != i {
                    parent = Some(*found);
                }
            }
        }
        parents.push(parent);
        proof {
            assert forall|j: int| 0 <= j < i + 1 implies forest::graph(parents@)[j]
                == #[trigger] targets[j] by {
                if j < i {
                    assert(forest::graph(before)[j] == targets[j]);
                }
            }
        }
    }
    proof {
        lemma_reply_graph(views);
        assert(forest::graph(parents@) =~= targets);
    }
    forest::reply_totals(&parents)
}

/// The count of a mail is the number of all other mails that reply to it, directly or
/// through others, also where mails reply to each other in a circle.
pub proof fn law_counts_are_of_all_transitive_replies(mails: Seq<MailView>, i: int)
    ensures
        forest::replies_below(reply_targets(mails), i) == Set::new(
            |j: int|
                0 <= j < mails.len() && j != i && forest::reaches(reply_targets(mails), j, i),
        ).len(),
{
    assert(forest::repliers(reply_targets(mails), i) =~= Set::new(
        |j: int|
            0 <= j < mails.len() && j != i && forest::reaches(reply_targets(mails), j, i),
    ));
}

/// The mail at `p` is another mail than the one at `i`, and the first whose Message-ID is
/// the one that the mail at `i` names as what it replies to. White space and angle
/// brackets apart, that is; what either lists as references has no part in it.
pub open spec fn answers(mails: Seq<MailView>, i: int, p: int) -> bool {
    let wanted = parse::normalized_id(mails[i].in_reply_to);
    &&& 0 <= i < mails.len()
    &&& 0 <= p < mails.len()
    &&& i != p
    &&& mails[i].in_reply_to.len() > 0
    &&& mails[p].message_id.len() > 0
    &&& parse::normalized_id(mails[p].message_id) == wanted
    &&& forall|q: int|
        0 <= q < p ==> (#[trigger] mails[q]).message_id.len() == 0 || parse::normalized_id(
            mails[q].message_id,
        ) != wanted
}

/// No mail before the one that is found has the Message-ID.
proof fn lemma_place_is_first(mails: Seq<MailView>, id: Seq<char>)
    ensures
        match place_of_id(mails, id) {
            Some(i) => 0 <= i < mails.len() && has_id(mails[i], id) && forall|q: int|
                0 <= q < i ==> !has_id(#[trigger] mails[q], id),
            None => forall|q: int| 0 <= q < mails.len() ==> !has_id(#[trigger] mails[q], id),
        },
    decreases mails.len(),
{
    if mails.len() > 0 {
        let fewer = mails.drop_last();
        lemma_place_is_first(fewer, id);
        assert forall|q: int| 0 <= q < fewer.len() implies #[trigger] mails[q] == fewer[q] by {}
    }
}

/// A mail replies to the mail that its `In-Reply-To` names, whatever its references are.
pub proof fn law_in_reply_to_names_the_parent(mails: Seq<MailView>, i: int, p: int)
    requires
        0 <= i < mails.len(),
    ensures
        reply_targets(mails)[i] == Some(p) <==> answers(mails, i, p),
{
    let wanted = parse::normalized_id(mails[i].in_reply_to);
    lemma_place_is_first(mails, wanted);
    if answers(mails, i, p) {
        assert(has_id(mails[p], wanted));
        let k = place_of_id(mails, wanted)->0;
        if k < p {
            assert(has_id(mails[k], wanted));
        }
    }
}

/// Only Message-IDs and what mails reply to decide the counts: sets of mails that agree
/// in these have the same replies and the same counts.
pub proof fn law_counts_look_at_ids_only(mails: Seq<MailView>, others: Seq<MailView>, i: int)
    requires
        mails.len() == others.len(),
        forall|k: int|
            0 <= k < mails.len() ==> (#[trigger] mails[k]).message_id == others[k].message_id
                && mails[k].in_reply_to == others[k].in_reply_to,
    ensures
        reply_targets(mails) == reply_targets(others),
        forest::replies_below(reply_targets(mails), i) == forest::replies_below(
            reply_targets(others),
            i,
        ),
{
    let a = reply_targets(mails);
    let b = reply_targets(others);
    assert forall|k: int| 0 <= k < a.len() implies a[k] == b[k] by {
        let wanted = parse::normalized_id(mails[k].in_reply_to);
        lemma_place_is_first(mails, wanted);
        lemma_place_is_first(others, wanted);
        assert forall|q: int| 0 <= q < mails.len() implies has_id(#[trigger] mails[q], wanted)
            == has_id(others[q], wanted) by {}
        match (place_of_id(mails, wanted), place_of_id(others, wanted)) {
            (Some(x), Some(y)) => {
                assert(has_id(mails[x], wanted) && has_id(others[y], wanted));
                assert(has_id(others[x], wanted) && has_id(mails[y], wanted));
            },
            (Some(x), None) => {
                assert(has_id(others[x], wanted));
            },
            (None, Some(y)) => {
                assert(has_id(mails[y], wanted));
            },
            (None, None) => {},
        }
    }
    assert(a =~= b);
}

/// A mail is counted under another exactly when it replies to it, or to one that is
/// counted under it.
pub proof fn law_replies_count_directly_and_through_others(mails: Seq<MailView>, j: int, i: int)
    requires
        0 <= i < mails.len(),
        0 <= j < mails.len(),
        j != i,
    ensures
        forest::repliers(reply_targets(mails), i).contains(j) <==> exists|p: int|
            #[trigger] answers(mails, j, p) && (p == i || forest::repliers(
                reply_targets(mails),
                i,
            ).contains(p)),
{
    let parent = reply_targets(mails);
    let set = forest::repliers(parent, i);
    lemma_reply_graph(mails);
    if set.contains(j) {
        let k = choose|k: nat| #[trigger] forest::ancestor(parent, j, k) == Some(i);
        assert(k > 0);
        let p = parent[j]->0;
        law_in_reply_to_names_the_parent(mails, j, p);
        assert(answers(mails, j, p));
        if p != i {
            assert(forest::ancestor(parent, p, (k - 1) as nat) == Some(i));
            assert(forest::reaches(parent, p, i));
            assert(set.contains(p));
        }
    }
    if exists|p: int| #[trigger] answers(mails, j, p) && (p == i || set.contains(p)) {
        let p = choose|p: int| #[trigger] answers(mails, j, p) && (p == i || set.contains(p));
        law_in_reply_to_names_the_parent(mails, j, p);
        assert(forest::ancestor(parent, p, 0) == Some(p));
        let k = choose|k: nat| #[trigger] forest::ancestor(parent, p, k) == Some(i);
        assert(forest::reaches(parent, p, i)) by {
            if p == i {
                assert(forest::ancestor(parent, p, 0) == Some(i));
            }
        }
        assert(forest::ancestor(parent, p, k) == Some(i));
        assert(forest::ancestor(parent, j, (k + 1) as nat) == Some(i));
        assert(forest::reaches(parent, j, i));
    }
}

/// A mail that another replies to counts at least that one, and one that none replies to
/// counts none.
pub proof fn law_a_reply_is_counted(mails: Seq<MailView>, i: int)
    requires
        0 <= i < mails.len(),
    ensures
        forest::replies_below(reply_targets(mails), i) > 0 <==> exists|j: int|
            #[trigger] answers(mails, j, i),
{
    let parent = reply_targets(mails);
    let set = forest::repliers(parent, i);
    forest::lemma_repliers_finite(parent, i);
    if exists|j: int| #[trigger] answers(mails, j, i) {
        let j = choose|j: int| #[trigger] answers(mails, j, i);
        law_replies_count_directly_and_through_others(mails, j, i);
        assert(set.contains(j));
        if set.len() == 0 {
            assert(set =~= Set::empty());
        }
    }
    if set.len() > 0 {
        let j = set.choose();
        assert(set.contains(j)) by {
            if forall|x: int| !set.contains(x) {
                assert(set =~= Set::empty());
            }
        }
        let k = choose|k: nat| #[trigger] forest::ancestor(parent, j, k) == Some(i);
        lemma_reply_graph(mails);
        let d = forest::lemma_last_step(parent, j, i, k);
        law_in_reply_to_names_the_parent(mails, d, i);
    }
}

} // verus!
