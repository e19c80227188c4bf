//! How many nodes reply to a node, directly or through others, in a graph where each
//! node replies to at most one other. Malformed mail can make nodes reply to each other
//! in a circle; all nodes of a circle then share one subtree.

use crate::order;
use vstd::prelude::*;
use vstd::set_lib::*;

verus! {

/// Each node that replies replies to a node of the graph.
pub open spec fn is_graph(parent: Seq<Option<int>>) -> bool {
    forall|i: int|
        0 <= i < parent.len() ==> match #[trigger] parent[i] {
            Some(p) => 0 <= p < parent.len(),
            None => true,
        }
}

/// The node that is reached from `i` after `k` steps, each from a reply to what it
/// replies to.
pub open spec fn ancestor(parent: Seq<Option<int>>, i: int, k: nat) -> Option<int>
    decreases k,
{
    if k == 0 {
        Some(i)
    } else {
        match parent[i] {
            Some(p) => ancestor(parent, p, (k - 1) as nat),
            None => None,
        }
    }
}

/// `j` is `i`, or replies to it, directly or through others.
pub open spec fn reaches(parent: Seq<Option<int>>, j: int, i: int) -> bool {
    exists|k: nat| #[trigger] ancestor(parent, j, k) == Some(i)
}

/// The other nodes that reply to `i`, directly or through others.
pub open spec fn repliers(parent: Seq<Option<int>>, i: int) -> Set<int> {
    Set::new(|j: int| 0 <= j < parent.len() && j != i && reaches(parent, j, i))
}

/// How many other nodes reply to `i`, directly or through others.
pub open spec fn replies_below(parent: Seq<Option<int>>, i: int) -> nat {
    repliers(parent, i).len()
}

/// The nodes below `i`, itself among them.
spec fn subtree(parent: Seq<Option<int>>, i: int) -> Set<int> {
    Set::new(|j: int| 0 <= j < parent.len() && reaches(parent, j, i))
}

/// `i` replies to itself, directly or through others.
spec fn on_cycle(parent: Seq<Option<int>>, i: int) -> bool {
    exists|k: nat| k >= 1 && #[trigger] ancestor(parent, i, k) == Some(i)
}

/// `i` is the first node of a circle of replies.
spec fn heads_cycle(parent: Seq<Option<int>>, i: int) -> bool {
    &&& on_cycle(parent, i)
    &&& forall|k: nat|
        match #[trigger] ancestor(parent, i, k) {
            Some(a) => i <= a,
            None => true,
        }
}

/// The graph with each circle opened: the first node of it replies to nothing.
spec fn opened(parent: Seq<Option<int>>) -> Seq<Option<int>> {
    Seq::new(
        parent.len(),
        |i: int|
            if heads_cycle(parent, i) {
                None
            } else {
                parent[i]
            },
    )
}

/// The nodes of the tree below `i`, itself among them, once circles are opened.
spec fn tree(parent: Seq<Option<int>>, i: int) -> Set<int> {
    Set::new(|j: int| 0 <= j < parent.len() && reaches(opened(parent), j, i))
}

/// Steps add up.
proof fn lemma_ancestor_adds(parent: Seq<Option<int>>, i: int, a: nat, b: nat)
    ensures
        ancestor(parent, i, a + b) == match ancestor(parent, i, a) {
            Some(x) => ancestor(parent, x, b),
            None => None,
        },
    decreases a,
{
    if a > 0 {
        match parent[i] {
            Some(p) => {
                lemma_ancestor_adds(parent, p, (a - 1) as nat, b);
                assert((a - 1) as nat + b == (a + b - 1) as nat);
            },
            None => {},
        }
    }
}

/// Steps stay in the graph.
proof fn lemma_ancestor_in_graph(parent: Seq<Option<int>>, i: int, k: nat)
    requires
        is_graph(parent),
        0 <= i < parent.len(),
    ensures
        ancestor(parent, i, k) matches Some(a) ==> 0 <= a < parent.len(),
    decreases k,
{
    if k > 0 {
        match parent[i] {
            Some(p) => lemma_ancestor_in_graph(parent, p, (k - 1) as nat),
            None => {},
        }
    }
}

/// What is reached with circles opened is reached as well before.
proof fn lemma_opened_ancestor(parent: Seq<Option<int>>, i: int, k: nat)
    requires
        is_graph(parent),
        0 <= i < parent.len(),
    ensures
        ancestor(opened(parent), i, k) matches Some(a) ==> ancestor(parent, i, k) == Some(a),
    decreases k,
{
    if k > 0 {
        match opened(parent)[i] {
            Some(p) => lemma_opened_ancestor(parent, p, (k - 1) as nat),
            None => {},
        }
    }
}

/// A walk round a circle repeats itself.
proof fn lemma_cycle_repeats(parent: Seq<Option<int>>, i: int, k: nat, x: nat)
    requires
        k >= 1,
        ancestor(parent, i, k) == Some(i),
    ensures
        ancestor(parent, i, x) == ancestor(parent, i, x % k),
    decreases x,
{
    if x >= k {
        let rest = (x - k) as nat;
        lemma_cycle_repeats(parent, i, k, rest);
        lemma_ancestor_adds(parent, i, k, rest);
        assert(k + rest == x);
        vstd::arithmetic::div_mod::lemma_mod_add_multiples_vanish(rest as int, k as int);
    } else {
        vstd::arithmetic::div_mod::lemma_small_mod(x, k);
    }
}

/// On a walk that goes on for `k` steps, some step before reaches a least node.
proof fn lemma_least_ancestor(parent: Seq<Option<int>>, i: int, k: nat) -> (t: nat)
    requires
        k >= 1,
        forall|u: nat| u < k ==> #[trigger] ancestor(parent, i, u) is Some,
    ensures
        t < k,
        forall|u: nat|
            u < k ==> ancestor(parent, i, t)->0 <= (#[trigger] ancestor(parent, i, u))->0,
    decreases k,
{
    if k == 1 {
        0
    } else {
        let t = lemma_least_ancestor(parent, i, (k - 1) as nat);
        let last = (k - 1) as nat;
        if ancestor(parent, i, last)->0 < ancestor(parent, i, t)->0 {
            last
        } else {
            t
        }
    }
}

/// A node that some step of a walk along a circle reaches, and that is the least of
/// them, heads the circle.
proof fn lemma_least_heads_cycle(parent: Seq<Option<int>>, i: int, k: nat, t: nat)
    requires
        k >= 1,
        ancestor(parent, i, k) == Some(i),
        t < k,
        ancestor(parent, i, t) is Some,
        forall|u: nat|
            u < k ==> ancestor(parent, i, t)->0 <= (#[trigger] ancestor(parent, i, u))->0,
    ensures
        heads_cycle(parent, ancestor(parent, i, t)->0),
{
    let m = ancestor(parent, i, t)->0;
    lemma_ancestor_adds(parent, i, t, k);
    lemma_ancestor_adds(parent, i, k, t);
    assert(t + k == k + t);
    assert(ancestor(parent, m, k) == Some(m));
    assert forall|u: nat|
        match #[trigger] ancestor(parent, m, u) {
            Some(a) => m <= a,
            None => true,
        } by {
        lemma_ancestor_adds(parent, i, t, u);
        lemma_cycle_repeats(parent, i, k, t + u);
        vstd::arithmetic::div_mod::lemma_mod_bound((t + u) as int, k as int);
        assert(ancestor(parent, i, (t + u) % k) == ancestor(parent, m, u));
    }
}

/// Once circles are opened, no node replies to itself.
proof fn lemma_opened_acyclic(parent: Seq<Option<int>>, i: int, k: nat)
    requires
        is_graph(parent),
        0 <= i < parent.len(),
        k >= 1,
    ensures
        ancestor(opened(parent), i, k) != Some(i),
{
    let q = opened(parent);
    if ancestor(q, i, k) == Some(i) {
        assert forall|u: nat| u <= k implies #[trigger] ancestor(q, i, u) is Some && ancestor(
            parent,
            i,
            u,
        ) == ancestor(q, i, u) by {
            lemma_ancestor_adds(q, i, u, (k - u) as nat);
            assert(u + (k - u) as nat == k);
            lemma_opened_ancestor(parent, i, u);
        }
        assert forall|u: nat| u < k implies #[trigger] ancestor(parent, i, u) is Some by {
            assert(ancestor(q, i, u) is Some);
        }
        assert(ancestor(parent, i, k) == Some(i)) by {
            lemma_opened_ancestor(parent, i, k);
        }
        let t = lemma_least_ancestor(parent, i, k);
        lemma_least_heads_cycle(parent, i, k, t);
        let m = ancestor(parent, i, t)->0;
        lemma_ancestor_in_graph(parent, i, t);
        assert(q[m] is None);
        assert(ancestor(q, i, t) == Some(m));
        lemma_ancestor_adds(q, i, t, 1);
        assert(ancestor(q, m, 1) is None) by {
            reveal_with_fuel(ancestor, 2);
        }
        assert(ancestor(q, i, t + 1) is Some);
    }
}

/// A node on the circle of `c` reaches `c`, the head of it, with the circle opened.
proof fn lemma_cycle_below_head(parent: Seq<Option<int>>, c: int, x: int, t: nat, u: nat)
    requires
        is_graph(parent),
        0 <= x < parent.len(),
        heads_cycle(parent, c),
        ancestor(parent, x, t) == Some(c),
        ancestor(parent, c, u) == Some(x),
    ensures
        reaches(opened(parent), x, c),
    decreases t,
{
    let q = opened(parent);
    if x == c || t == 0 {
        assert(ancestor(q, x, 0) == Some(c));
    } else {
        if heads_cycle(parent, x) {
            assert(x <= c);
            assert(c <= x);
        }
        let p = parent[x]->0;
        assert(q[x] == Some(p));
        lemma_ancestor_adds(parent, c, u, 1);
        assert(ancestor(parent, x, 1) == Some(p)) by {
            reveal_with_fuel(ancestor, 2);
        }
        lemma_cycle_below_head(parent, c, p, (t - 1) as nat, u + 1);
        let k = choose|k: nat| #[trigger] ancestor(q, p, k) == Some(c);
        assert(ancestor(q, x, k + 1) == Some(c));
    }
}

/// What `c` heads holds the node that `c` replies to.
proof fn lemma_head_above_its_parent(parent: Seq<Option<int>>, c: int)
    requires
        is_graph(parent),
        0 <= c < parent.len(),
        heads_cycle(parent, c),
    ensures
        parent[c] is Some,
        reaches(opened(parent), parent[c]->0, c),
{
    let k = choose|k: nat| k >= 1 && #[trigger] ancestor(parent, c, k) == Some(c);
    let p = parent[c]->0;
    assert(ancestor(parent, p, (k - 1) as nat) == Some(c));
    assert(ancestor(parent, c, 1) == Some(p)) by {
        reveal_with_fuel(ancestor, 2);
    }
    lemma_cycle_below_head(parent, c, p, (k - 1) as nat, 1);
}

/// A walk round a circle comes back to where it started, from each node that it meets.
proof fn lemma_circle_returns(parent: Seq<Option<int>>, j: int, period: nat, k: nat, i: int)
    requires
        period >= 1,
        ancestor(parent, j, period) == Some(j),
        ancestor(parent, j, k) == Some(i),
    ensures
        on_cycle(parent, i),
        reaches(parent, i, j),
        reaches(parent, j, i),
{
    lemma_ancestor_adds(parent, j, k, period);
    lemma_ancestor_adds(parent, j, period, k);
    assert(k + period == period + k);
    assert(ancestor(parent, i, period) == Some(i));
    let round = k * period;
    lemma_cycle_repeats(parent, j, period, round);
    vstd::arithmetic::div_mod::lemma_mod_multiples_basic(k as int, period as int);
    assert(k <= round) by (nonlinear_arith)
        requires
            round == k * period,
            period >= 1,
    ;
    let back = (round - k) as nat;
    lemma_ancestor_adds(parent, j, k, back);
    assert(k + back == round);
    assert(ancestor(parent, i, back) == Some(j));
}

/// Nodes that reach each other have the same nodes below them.
proof fn lemma_circle_shares_a_subtree(parent: Seq<Option<int>>, a: int, b: int)
    requires
        reaches(parent, a, b),
        reaches(parent, b, a),
    ensures
        subtree(parent, a) == subtree(parent, b),
{
    let ab = choose|k: nat| #[trigger] ancestor(parent, a, k) == Some(b);
    let ba = choose|k: nat| #[trigger] ancestor(parent, b, k) == Some(a);
    assert forall|j: int| reaches(parent, j, a) implies reaches(parent, j, b) by {
        let k = choose|k: nat| #[trigger] ancestor(parent, j, k) == Some(a);
        lemma_ancestor_adds(parent, j, k, ab);
        assert(ancestor(parent, j, k + ab) == Some(b));
    }
    assert forall|j: int| reaches(parent, j, b) implies reaches(parent, j, a) by {
        let k = choose|k: nat| #[trigger] ancestor(parent, j, k) == Some(b);
        lemma_ancestor_adds(parent, j, k, ba);
        assert(ancestor(parent, j, k + ba) == Some(a));
    }
    assert(subtree(parent, a) =~= subtree(parent, b));
}

/// Every circle has a first node.
proof fn lemma_circle_has_a_head(parent: Seq<Option<int>>, c: int) -> (h: int)
    requires
        is_graph(parent),
        0 <= c < parent.len(),
        on_cycle(parent, c),
    ensures
        0 <= h < parent.len(),
        heads_cycle(parent, h),
        reaches(parent, h, c),
{
    let k = choose|k: nat| k >= 1 && #[trigger] ancestor(parent, c, k) == Some(c);
    assert forall|u: nat| u < k implies #[trigger] ancestor(parent, c, u) is Some by {
        lemma_ancestor_adds(parent, c, u, (k - u) as nat);
        assert(u + (k - u) as nat == k);
    }
    let t = lemma_least_ancestor(parent, c, k);
    let h = ancestor(parent, c, t)->0;
    lemma_least_heads_cycle(parent, c, k, t);
    lemma_ancestor_in_graph(parent, c, t);
    lemma_circle_returns(parent, c, k, t, h);
    h
}

/// What reaches a node that is on no circle, or heads one, reaches it with the circles
/// opened.
proof fn lemma_reaches_opened(parent: Seq<Option<int>>, j: int, i: int, k: nat)
    requires
        is_graph(parent),
        0 <= j < parent.len(),
        ancestor(parent, j, k) == Some(i),
        !on_cycle(parent, i) || heads_cycle(parent, i),
    ensures
        reaches(opened(parent), j, i),
    decreases k,
{
    let q = opened(parent);
    if k == 0 {
        assert(ancestor(q, j, 0) == Some(i));
    } else if heads_cycle(parent, j) {
        let period = choose|p: nat| p >= 1 && #[trigger] ancestor(parent, j, p) == Some(j);
        lemma_circle_returns(parent, j, period, k, i);
        let u = choose|u: nat| #[trigger] ancestor(parent, i, u) == Some(j);
        assert(i <= j);
        assert(j <= i);
        assert(ancestor(q, j, 0) == Some(i));
    } else {
        let p = parent[j]->0;
        lemma_reaches_opened(parent, p, i, (k - 1) as nat);
        let m = choose|m: nat| #[trigger] ancestor(q, p, m) == Some(i);
        assert(q[j] == Some(p));
        assert(ancestor(q, j, m + 1) == Some(i));
    }
}

/// The tree below a node that is on no circle, or heads one, is its subtree.
proof fn lemma_tree_is_subtree(parent: Seq<Option<int>>, i: int)
    requires
        is_graph(parent),
        0 <= i < parent.len(),
        !on_cycle(parent, i) || heads_cycle(parent, i),
    ensures
        tree(parent, i) == subtree(parent, i),
{
    assert forall|j: int| 0 <= j < parent.len() implies reaches(opened(parent), j, i)
        == reaches(parent, j, i) by {
        if reaches(opened(parent), j, i) {
            let k = choose|k: nat| #[trigger] ancestor(opened(parent), j, k) == Some(i);
            lemma_opened_ancestor(parent, j, k);
            assert(ancestor(parent, j, k) == Some(i));
        }
        if reaches(parent, j, i) {
            let k = choose|k: nat| #[trigger] ancestor(parent, j, k) == Some(i);
            lemma_reaches_opened(parent, j, i, k);
        }
    }
    assert(tree(parent, i) =~= subtree(parent, i));
}

// The trees

/// The nodes of the trees below the first `n` of the given replies, and `i` itself.
spec fn tree_part(parent: Seq<Option<int>>, i: int, replies: Seq<int>, n: int) -> Set<
    int,
> {
    Set::new(
        |j: int|
            0 <= j < parent.len() && (j == i || exists|m: int|
                0 <= m < n && #[trigger] opened(parent)[replies[m]] == Some(i) && reaches(
                    opened(parent),
                    j,
                    replies[m],
                )),
    )
}

/// A tree is finite and no larger than the graph.
proof fn lemma_bounded(parent: Seq<Option<int>>, s: Set<int>)
    requires
        forall|j: int| #[trigger] s.contains(j) ==> 0 <= j < parent.len(),
    ensures
        s.finite(),
        s.len() <= parent.len(),
{
    lemma_int_range(0, parent.len() as int);
    assert(s.subset_of(set_int_range(0, parent.len() as int)));
    lemma_len_subset(s, set_int_range(0, parent.len() as int));
}

/// No node lies below two replies to the same node.
proof fn lemma_siblings_apart(parent: Seq<Option<int>>, i: int, a: int, b: int, j: int)
    requires
        is_graph(parent),
        0 <= a < parent.len(),
        0 <= b < parent.len(),
        opened(parent)[a] == Some(i),
        opened(parent)[b] == Some(i),
        a != b,
        0 <= j < parent.len(),
        reaches(opened(parent), j, a),
    ensures
        !reaches(opened(parent), j, b),
{
    let q = opened(parent);
    if reaches(q, j, b) {
        let ka = choose|k: nat| #[trigger] ancestor(q, j, k) == Some(a);
        let kb = choose|k: nat| #[trigger] ancestor(q, j, k) == Some(b);
        assert(is_graph(q));
        if ka == kb {
        } else if ka < kb {
            let d = (kb - ka) as nat;
            lemma_ancestor_adds(q, j, ka, d);
            assert(ka + d == kb);
            assert(ancestor(q, i, (d - 1) as nat) == Some(b));
            lemma_ancestor_adds(q, i, (d - 1) as nat, 1);
            assert(ancestor(q, b, 1) == Some(i)) by {
                reveal_with_fuel(ancestor, 2);
            }
            assert((d - 1) as nat + 1 == d);
            lemma_opened_acyclic(parent, i, d);
        } else {
            let d = (ka - kb) as nat;
            lemma_ancestor_adds(q, j, kb, d);
            assert(kb + d == ka);
            assert(ancestor(q, i, (d - 1) as nat) == Some(a));
            lemma_ancestor_adds(q, i, (d - 1) as nat, 1);
            assert(ancestor(q, a, 1) == Some(i)) by {
                reveal_with_fuel(ancestor, 2);
            }
            assert((d - 1) as nat + 1 == d);
            lemma_opened_acyclic(parent, i, d);
        }
    }
}

/// One more reply adds the nodes of its tree, unless a circle was opened there.
proof fn lemma_tree_part_grows(parent: Seq<Option<int>>, i: int, replies: Seq<int>, n: int)
    requires
        is_graph(parent),
        0 <= i < parent.len(),
        0 <= n < replies.len(),
        replies.no_duplicates(),
        forall|m: int| 0 <= m < replies.len() ==> 0 <= #[trigger] replies[m] < parent.len(),
    ensures
        tree_part(parent, i, replies, n + 1).len() == tree_part(parent, i, replies, n).len() + (
        if opened(parent)[replies[n]] == Some(i) {
            tree(parent, replies[n]).len()
        } else {
            0
        }),
{
    let q = opened(parent);
    let c = replies[n];
    let part = tree_part(parent, i, replies, n);
    let next = tree_part(parent, i, replies, n + 1);
    let below = tree(parent, c);
    lemma_bounded(parent, part);
    lemma_bounded(parent, below);
    if q[c] == Some(i) {
        assert forall|j: int| part.contains(j) && below.contains(j) implies false by {
            if j == i {
                let k = choose|k: nat| #[trigger] ancestor(q, i, k) == Some(c);
                lemma_ancestor_adds(q, i, k, 1);
                assert(ancestor(q, c, 1) == Some(i)) by {
                    reveal_with_fuel(ancestor, 2);
                }
                lemma_opened_acyclic(parent, i, k + 1);
            } else {
                let m = choose|m: int|
                    0 <= m < n && #[trigger] q[replies[m]] == Some(i) && reaches(q, j, replies[m]);
                lemma_siblings_apart(parent, i, replies[m], c, j);
            }
        }
        assert(part.disjoint(below));
        assert(next =~= part + below) by {
            assert forall|j: int| next.contains(j) implies (part + below).contains(j) by {
                if j != i {
                    let m = choose|m: int|
                        0 <= m < n + 1 && #[trigger] q[replies[m]] == Some(i) && reaches(
                            q,
                            j,
                            replies[m],
                        );
                    if m < n {
                        assert(part.contains(j));
                    }
                }
            }
        }
        lemma_set_disjoint_lens(part, below);
    } else {
        assert(next =~= part);
    }
}

/// With all the replies to `i`, the parts are the whole tree.
proof fn lemma_tree_part_full(parent: Seq<Option<int>>, i: int, replies: Seq<int>)
    requires
        is_graph(parent),
        0 <= i < parent.len(),
        forall|c: int|
            #![trigger parent[c]]
            0 <= c < parent.len() && parent[c] == Some(i) ==> replies.contains(c),
    ensures
        tree_part(parent, i, replies, replies.len() as int) == tree(parent, i),
{
    let q = opened(parent);
    let part = tree_part(parent, i, replies, replies.len() as int);
    assert forall|j: int| part.contains(j) implies tree(parent, i).contains(j) by {
        if j == i {
            assert(ancestor(q, i, 0) == Some(i));
        } else {
            let m = choose|m: int|
                0 <= m < replies.len() && #[trigger] q[replies[m]] == Some(i) && reaches(
                    q,
                    j,
                    replies[m],
                );
            let k = choose|k: nat| #[trigger] ancestor(q, j, k) == Some(replies[m]);
            lemma_ancestor_adds(q, j, k, 1);
            assert(ancestor(q, replies[m], 1) == Some(i)) by {
                reveal_with_fuel(ancestor, 2);
            }
            assert(ancestor(q, j, k + 1) == Some(i));
        }
    }
    assert forall|j: int| tree(parent, i).contains(j) implies part.contains(j) by {
        if j != i {
            let k = choose|k: nat| #[trigger] ancestor(q, j, k) == Some(i);
            let before = (k - 1) as nat;
            lemma_ancestor_adds(q, j, before, 1);
            assert(before + 1 == k);
            let c = ancestor(q, j, before)->0;
            assert(is_graph(q));
            lemma_ancestor_in_graph(q, j, before);
            assert(ancestor(q, c, 1) == Some(i));
            assert(q[c] == Some(i)) by {
                reveal_with_fuel(ancestor, 2);
            }
            assert(parent[c] == Some(i));
            let m = choose|m: int| 0 <= m < replies.len() && replies[m] == c;
            assert(q[replies[m]] == Some(i) && reaches(q, j, replies[m]));
        }
    }
    assert(part =~= tree(parent, i));
}

// Counting

/// For each node, the list of those that reply to it.
spec fn lists_replies(parent: Seq<Option<int>>, children: Seq<Vec<usize>>) -> bool {
    &&& children.len() == parent.len()
    &&& forall|p: int|
        0 <= p < parent.len() ==> order::places((#[trigger] children[p])@).no_duplicates()
    &&& forall|p: int, c: int|
        #![trigger order::places(children[p]@).contains(c)]
        0 <= p < parent.len() ==> (order::places(children[p]@).contains(c) <==> 0 <= c < parent.len()
            && parent[c] == Some(p))
}

/// What is noted of a node is the size of its tree, and then the sizes are noted of
/// all nodes below it.
spec fn sizes_noted(parent: Seq<Option<int>>, memo: Seq<Option<usize>>) -> bool {
    &&& memo.len() == parent.len()
    &&& forall|x: int|
        0 <= x < parent.len() ==> match #[trigger] memo[x] {
            Some(v) => v == tree(parent, x).len(),
            None => true,
        }
    &&& forall|z: int|
        0 <= z < parent.len() ==> match #[trigger] opened(parent)[z] {
            Some(y) => memo[y] is Some ==> memo[z] is Some,
            None => true,
        }
}

/// The nodes that are marked head circles, and those are marked that reply to a node
/// whose size is noted.
spec fn heads_marked(
    parent: Seq<Option<int>>,
    memo: Seq<Option<usize>>,
    heads: Seq<bool>,
) -> bool {
    &&& heads.len() == parent.len()
    &&& forall|c: int| 0 <= c < parent.len() && #[trigger] heads[c] ==> heads_cycle(parent, c)
    &&& forall|c: int|
        0 <= c < parent.len() && heads_cycle(parent, c) && parent[c] is Some
            && memo[parent[c]->0] is Some ==> #[trigger] heads[c]
}

/// The nodes on the way from the first to the last, each a reply to the one before.
spec fn is_path(parent: Seq<Option<int>>, path: Seq<int>) -> bool {
    &&& path.no_duplicates()
    &&& forall|k: int| 0 <= k < path.len() ==> 0 <= #[trigger] path[k] < parent.len()
    &&& forall|k: int|
        0 < k < path.len() ==> #[trigger] parent[path[k]] == Some(path[k - 1])
}

/// The nodes on the way are marked, and no others.
spec fn marks_path(on_stack: Seq<bool>, path: Seq<int>) -> bool {
    forall|x: int| 0 <= x < on_stack.len() ==> #[trigger] on_stack[x] == path.contains(x)
}

/// The node that the way to `i` starts at.
spec fn way_start(path: Seq<int>, i: int) -> int {
    if path.len() == 0 {
        i
    } else {
        path[0]
    }
}

/// The state in which node `i` is visited, at the end of the way `path`.
spec fn visits(
    parent: Seq<Option<int>>,
    memo: Seq<Option<usize>>,
    path: Seq<int>,
    i: int,
) -> bool {
    &&& is_graph(parent)
    &&& 0 <= i < parent.len()
    &&& sizes_noted(parent, memo)
    &&& is_path(parent, path)
    &&& path.len() > 0 ==> parent[i] == Some(path.last())
    &&& forall|x: int| 0 <= x < way_start(path, i) ==> #[trigger] memo[x] is Some
    &&& forall|k: int| 0 <= k < path.len() ==> memo[#[trigger] path[k]] is None
}

/// The sizes are noted of all that lies below a node whose size is noted.
proof fn lemma_noted_below(
    parent: Seq<Option<int>>,
    memo: Seq<Option<usize>>,
    j: int,
    k: nat,
    c: int,
)
    requires
        is_graph(parent),
        sizes_noted(parent, memo),
        0 <= j < parent.len(),
        ancestor(opened(parent), j, k) == Some(c),
        memo[c] is Some,
    ensures
        memo[j] is Some,
    decreases k,
{
    if k > 0 {
        let p = opened(parent)[j]->0;
        lemma_noted_below(parent, memo, p, (k - 1) as nat, c);
    }
}

/// Going up from `i`, the way is met in reverse.
proof fn lemma_way_back(parent: Seq<Option<int>>, path: Seq<int>, i: int, k: int)
    requires
        is_path(parent, path),
        path.len() > 0,
        parent[i] == Some(path.last()),
        0 <= k < path.len(),
    ensures
        ancestor(parent, i, (path.len() - k) as nat) == Some(path[k]),
    decreases path.len() - k,
{
    if k == path.len() - 1 {
        assert(ancestor(parent, i, 1) == Some(path[k])) by {
            reveal_with_fuel(ancestor, 2);
        }
    } else {
        lemma_way_back(parent, path, i, k + 1);
        let steps = (path.len() - (k + 1)) as nat;
        lemma_ancestor_adds(parent, i, steps, 1);
        assert(steps + 1 == path.len() - k);
        assert(parent[path[k + 1]] == Some(path[k]));
        assert(ancestor(parent, path[k + 1], 1) == Some(path[k])) by {
            reveal_with_fuel(ancestor, 2);
        }
    }
}

/// A reply is met again on its way exactly where a circle is opened.
proof fn lemma_way_closes(
    parent: Seq<Option<int>>,
    memo: Seq<Option<usize>>,
    path: Seq<int>,
    i: int,
)
    requires
        visits(parent, memo, path, i),
        path.len() > 0,
    ensures
        heads_cycle(parent, i) <==> path.contains(i),
{
    let len = path.len();
    if path.contains(i) {
        let m = choose|m: int| 0 <= m < path.len() && path[m] == i;
        if m > 0 {
            assert(parent[path[m]] == Some(path[m - 1]));
            assert(path[m - 1] == path[len - 1]);
        }
        lemma_way_back(parent, path, i, 0);
        assert(ancestor(parent, i, len) == Some(i));
        assert forall|u: nat|
            match #[trigger] ancestor(parent, i, u) {
                Some(a) => i <= a,
                None => true,
            } by {
            lemma_cycle_repeats(parent, i, len, u);
            vstd::arithmetic::div_mod::lemma_mod_bound(u as int, len as int);
            let r = u % len;
            if r > 0 {
                lemma_way_back(parent, path, i, len - r);
                assert(memo[path[len - r]] is None);
            }
        }
    } else if heads_cycle(parent, i) {
        let x = path.last();
        if memo[i] is Some {
            lemma_head_above_its_parent(parent, i);
            let k = choose|k: nat| #[trigger] ancestor(opened(parent), x, k) == Some(i);
            lemma_noted_below(parent, memo, x, k, i);
            assert(memo[path[len - 1]] is None);
        } else {
            lemma_way_back(parent, path, i, 0);
            assert(i <= path[0]);
            assert(path.contains(path[0]));
        }
    }
}

/// A way without repetition is no longer than the graph is large.
proof fn lemma_way_fits(parent: Seq<Option<int>>, path: Seq<int>)
    requires
        is_path(parent, path),
    ensures
        path.len() <= parent.len(),
{
    path.unique_seq_to_set();
    assert forall|x: int| #[trigger] path.to_set().contains(x) implies 0 <= x < parent.len() by {
        let k = choose|k: int| 0 <= k < path.len() && path[k] == x;
        assert(0 <= path[k] < parent.len());
    }
    lemma_bounded(parent, path.to_set());
}

/// Memoized subtree size with a stack guard so that malformed reply cycles cannot
/// recurse forever. A node that the guard meets again heads a circle, and is marked.
fn subtree_size(
    i: usize,
    children: &Vec<Vec<usize>>,
    memo: &mut Vec<Option<usize>>,
    on_stack: &mut Vec<bool>,
    heads: &mut Vec<bool>,
    Ghost(parent): Ghost<Seq<Option<int>>>,
    Ghost(path): Ghost<Seq<int>>,
) -> (r: usize)
    requires
        lists_replies(parent, children@),
        visits(parent, old(memo)@, path, i as int),
        old(on_stack)@.len() == parent.len(),
        marks_path(old(on_stack)@, path),
        heads_marked(parent, old(memo)@, old(heads)@),
    ensures
        final(on_stack)@ == old(on_stack)@,
        sizes_noted(parent, final(memo)@),
        heads_marked(parent, final(memo)@, final(heads)@),
        forall|x: int|
            0 <= x < parent.len() && (#[trigger] old(heads)@[x]) ==> final(heads)@[x],
        forall|x: int|
            0 <= x < parent.len() && (#[trigger] old(memo)@[x]) is Some ==> final(memo)@[x]
                == old(memo)@[x],
        forall|k: int| 0 <= k < path.len() ==> final(memo)@[#[trigger] path[k]] is None,
        path.len() > 0 && heads_cycle(parent, i as int) ==> r == 0 && final(heads)@[i as int],
        path.len() == 0 || !heads_cycle(parent, i as int) ==> r == tree(parent, i as int).len()
            && final(memo)@[i as int] is Some,
    decreases parent.len() - path.len(),
{
    proof {
        if path.len() > 0 {
            lemma_way_closes(parent, memo@, path, i as int);
        }
    }
    if let Some(v) = memo[i] {
        return v;
    }
    if on_stack[i] {
        heads.set(i, true);
        return 0;
    }
    on_stack.set(i, true);
    let ghost deeper = path.push(i as int);
    let ghost replies = order::places(children@[i as int]@);
    proof {
        assert(is_path(parent, deeper));
        lemma_way_fits(parent, deeper);
        assert(marks_path(on_stack@, deeper)) by {
            assert forall|x: int| 0 <= x < on_stack@.len() implies #[trigger] on_stack@[x]
                == deeper.contains(x) by {
                assert(deeper[path.len() as int] == i);
                if path.contains(x) {
                    let k = choose|k: int| 0 <= k < path.len() && path[k] == x;
                    assert(deeper[k] == x);
                }
            }
        }
        let first = tree_part(parent, i as int, replies, 0);
        assert(first =~= Set::<int>::empty().insert(i as int));
    }
    let ghost start = way_start(path, i as int);
    let ghost marked = on_stack@;
    let n: usize = children[i].len();
    let size: usize = children.len();
    let mut total: usize = 1;
    let mut c: usize = 0;
    while c < n
        invariant
            lists_replies(parent, children@),
            is_graph(parent),
            0 <= i < parent.len(),
            n == children@[i as int]@.len(),
            size == parent.len(),
            c <= n,
            replies == order::places(children@[i as int]@),
            deeper == path.push(i as int),
            start == way_start(path, i as int),
            is_path(parent, deeper),
            deeper.len() <= parent.len(),
            on_stack@ == marked,
            marked.len() == parent.len(),
            marks_path(marked, deeper),
            sizes_noted(parent, memo@),
            heads_marked(parent, memo@, heads@),
            forall|x: int|
                0 <= x < parent.len() && (#[trigger] old(heads)@[x]) ==> heads@[x],
            forall|m: int|
                0 <= m < c && heads_cycle(parent, #[trigger] replies[m]) ==> heads@[replies[m]],
            forall|x: int| 0 <= x < start ==> #[trigger] memo@[x] is Some,
            forall|k: int| 0 <= k < deeper.len() ==> memo@[#[trigger] deeper[k]] is None,
            forall|x: int|
                0 <= x < parent.len() && (#[trigger] old(memo)@[x]) is Some ==> memo@[x] == old(
                    memo,
                )@[x],
            forall|m: int|
                0 <= m < c && !heads_cycle(parent, #[trigger] replies[m]) ==> memo@[replies[m]]
                    is Some,
            total == tree_part(parent, i as int, replies, c as int).len(),
        decreases n - c,
    {
        let child: usize = children[i][c];
        proof {
            assert(replies[c as int] == child);
            assert(replies.contains(child as int));
            assert(deeper.last() == i);
            assert(way_start(deeper, child as int) == start);
            assert(visits(parent, memo@, deeper, child as int));
        }
        let ghost before = memo@;
        let ghost marked_before = heads@;
        let r = subtree_size(
            child,
            children,
            memo,
            on_stack,
            heads,
            Ghost(parent),
            Ghost(deeper),
        );
        proof {
            assert forall|m: int| 0 <= m < replies.len() implies 0 <= #[trigger] replies[m]
                < parent.len() by {
                assert(replies.contains(replies[m]));
            }
            assert forall|m: int| 0 <= m < c + 1 && heads_cycle(parent, #[trigger] replies[m])
                implies heads@[replies[m]] by {
                if m < c {
                    assert(marked_before[replies[m]]);
                }
            }
            assert forall|x: int| 0 <= x < parent.len() && (#[trigger] old(heads)@[x])
                implies heads@[x] by {
                assert(marked_before[x]);
            }
            lemma_tree_part_grows(parent, i as int, replies, c as int);
            let part = tree_part(parent, i as int, replies, c + 1);
            lemma_bounded(parent, part);
            assert(parent[child as int] == Some(i as int));
            assert(total + r == part.len());
            assert forall|m: int|
                0 <= m < c + 1 && !heads_cycle(
                    parent,
                    #[trigger] replies[m],
                ) implies memo@[replies[m]] is Some by {
                if m < c {
                    assert(before[replies[m]] is Some);
                }
            }
            assert forall|x: int| 0 <= x < start implies #[trigger] memo@[x] is Some by {
                assert(before[x] is Some);
                assert(start <= i || start == path[0]);
                assert(x < parent.len()) by {
                    if path.len() > 0 {
                        assert(deeper[0] == start);
                    }
                }
            }
            assert forall|x: int|
                0 <= x < parent.len() && (#[trigger] old(memo)@[x]) is Some implies memo@[x]
                == old(memo)@[x] by {
                assert(before[x] is Some);
            }
        }
        total = total + r;
        c = c + 1;
    }
    on_stack.set(i, false);
    memo.set(i, Some(total));
    proof {
        assert(deeper[path.len() as int] == i);
        assert(on_stack@ =~= old(on_stack)@);
        assert forall|x: int| 0 <= x < parent.len() && parent[x] == Some(i as int) implies
            replies.contains(x) by {}
        lemma_tree_part_full(parent, i as int, replies);
        assert forall|z: int| 0 <= z < parent.len() implies match #[trigger] opened(parent)[z] {
            Some(y) => memo@[y] is Some ==> memo@[z] is Some,
            None => true,
        } by {
            if opened(parent)[z] == Some(i as int) {
                assert(parent[z] == Some(i as int));
                let m = choose|m: int| 0 <= m < replies.len() && replies[m] == z;
                assert(!heads_cycle(parent, replies[m]));
            }
        }
        assert forall|k: int| 0 <= k < path.len() implies memo@[#[trigger] path[k]] is None by {
            assert(deeper[k] == path[k]);
        }
        assert forall|x: int|
            0 <= x < parent.len() && heads_cycle(parent, x) && parent[x] is Some
                && memo@[parent[x]->0] is Some implies #[trigger] heads@[x] by {
            if parent[x] == Some(i as int) {
                assert(replies.contains(x));
                let m = choose|m: int| 0 <= m < replies.len() && replies[m] == x;
                assert(heads_cycle(parent, replies[m]));
            }
        }
    }
    total
}

/// What each node replies to, as numbers.
pub open spec fn graph(parents: Seq<Option<usize>>) -> Seq<Option<int>> {
    parents.map_values(
        |p: Option<usize>|
            match p {
                Some(x) => Some(x as int),
                None => None,
            },
    )
}

/// For each node, the list of those that reply to it.
fn list_replies(parents: &Vec<Option<usize>>) -> (r: Vec<Vec<usize>>)
    requires
        is_graph(graph(parents@)),
    ensures
        lists_replies(graph(parents@), r@),
{
    let ghost parent = graph(parents@);
    let n: usize = parents.len();
    let mut children: Vec<Vec<usize>> = Vec::new();
    for i in 0..n
        invariant
            children@.len() == i,
            forall|p: int| 0 <= p < i ==> (#[trigger] children@[p])@.len() == 0,
    {
        children.push(Vec::new());
    }
    for i in 0..n
        invariant
            n == parents@.len(),
            parent == graph(parents@),
            is_graph(parent),
            children@.len() == n,
            forall|p: int|
                0 <= p < n ==> order::places((#[trigger] children@[p])@).no_duplicates(),
            forall|p: int, c: int|
                #![trigger order::places(children@[p]@).contains(c)]
                0 <= p < n ==> (order::places(children@[p]@).contains(c) <==> 0 <= c < i
                    && parent[c] == Some(p)),
    {
        let ghost before = children@;
        if let Some(p) = parents[i] {
            assert(parent[i as int] == Some(p as int));
            children[p].push(i);
            proof {
                let old_list = order::places(before[p as int]@);
                let list = order::places(children@[p as int]@);
                assert(list =~= old_list.push(i as int));
                assert(!old_list.contains(i as int));
                assert(list.no_duplicates());
                assert forall|c: int| #[trigger] list.contains(c) <==> old_list.contains(c) || c
                    == i by {
                    if old_list.contains(c) {
                        let k = choose|k: int| 0 <= k < old_list.len() && old_list[k] == c;
                        assert(list[k] == c);
                    }
                    assert(list[old_list.len() as int] == i);
                }
            }
        }
        proof {
            assert forall|p: int, c: int|
                #![trigger order::places(children@[p]@).contains(c)]
                0 <= p < n implies (order::places(children@[p]@).contains(c) <==> 0 <= c < i + 1
                && parent[c] == Some(p)) by {
                assert(order::places(before[p]@).contains(c) <==> 0 <= c < i && parent[c] == Some(
                    p,
                ));
            }
        }
    }
    children
}

/// The size that is held of a node is that of its subtree.
spec fn is_size_of(parent: Seq<Option<int>>, sizes: Seq<usize>, x: int) -> bool {
    sizes[x] == subtree(parent, x).len()
}

/// The node is on no circle, heads one, or is on one whose head comes before `end`.
spec fn is_settled(parent: Seq<Option<int>>, end: int, x: int) -> bool {
    ||| !on_cycle(parent, x)
    ||| heads_cycle(parent, x)
    ||| exists|h: int| 0 <= h < end && heads_cycle(parent, h) && #[trigger] reaches(parent, h, x)
}

/// Give all nodes of the circle that `h` heads the size of its subtree.
fn share_size(
    parents: &Vec<Option<usize>>,
    h: usize,
    sizes: &mut Vec<usize>,
)
    requires
        is_graph(graph(parents@)),
        0 <= h < parents@.len(),
        old(sizes)@.len() == parents@.len(),
        heads_cycle(graph(parents@), h as int),
        is_size_of(graph(parents@), old(sizes)@, h as int),
    ensures
        final(sizes)@.len() == parents@.len(),
        forall|x: int|
            0 <= x < parents@.len() && is_size_of(graph(parents@), old(sizes)@, x)
                ==> #[trigger] is_size_of(graph(parents@), final(sizes)@, x),
        forall|x: int|
            #[trigger] reaches(graph(parents@), h as int, x) ==> is_size_of(
                graph(parents@),
                final(sizes)@,
                x,
            ),
{
    let ghost parent = graph(parents@);
    let ghost period = choose|k: nat| k >= 1 && #[trigger] ancestor(parent, h as int, k) == Some(
        h as int,
    );
    let size: usize = sizes[h];
    let ghost mut t: nat = 1;
    assert(parent[h as int] is Some);
    let mut at: usize = match parents[h] {
        Some(p) => p,
        None => h,
    };
    proof {
        assert(ancestor(parent, h as int, 1) == Some(at as int)) by {
            reveal_with_fuel(ancestor, 2);
        }
        assert forall|u: nat| u < 1 implies is_size_of(
            parent,
            sizes@,
            (#[trigger] ancestor(parent, h as int, u))->0,
        ) by {
            assert(u == 0);
        }
    }
    while at != h
        invariant
            parent == graph(parents@),
            is_graph(parent),
            0 <= h < parents@.len(),
            0 <= at < parents@.len(),
            sizes@.len() == parents@.len(),
            period >= 1,
            ancestor(parent, h as int, period) == Some(h as int),
            1 <= t <= period,
            ancestor(parent, h as int, t) == Some(at as int),
            size == subtree(parent, h as int).len(),
            forall|x: int|
                0 <= x < parents@.len() && is_size_of(parent, old(sizes)@, x)
                    ==> #[trigger] is_size_of(parent, sizes@, x),
            forall|u: nat|
                u < t ==> is_size_of(
                    parent,
                    sizes@,
                    (#[trigger] ancestor(parent, h as int, u))->0,
                ),
        decreases period - t,
    {
        let ghost before = sizes@;
        sizes.set(at, size);
        proof {
            lemma_circle_returns(parent, h as int, period, t, at as int);
            lemma_circle_shares_a_subtree(parent, h as int, at as int);
            assert(is_size_of(parent, sizes@, at as int));
            assert forall|x: int| 0 <= x < parents@.len() && is_size_of(parent, before, x) implies
                #[trigger] is_size_of(parent, sizes@, x) by {
                if x != at {
                    assert(sizes@[x] == before[x]);
                }
            }
            assert forall|x: int|
                0 <= x < parents@.len() && is_size_of(parent, old(sizes)@, x) implies
                #[trigger] is_size_of(parent, sizes@, x) by {
                assert(is_size_of(parent, before, x));
            }
            assert forall|u: nat| u < t + 1 implies is_size_of(
                parent,
                sizes@,
                (#[trigger] ancestor(parent, h as int, u))->0,
            ) by {
                if u < t {
                    lemma_ancestor_adds(parent, h as int, u, (t - u) as nat);
                    assert(u + (t - u) as nat == t);
                    lemma_ancestor_in_graph(parent, h as int, u);
                    assert(is_size_of(parent, before, ancestor(parent, h as int, u)->0));
                }
            }
            assert(t < period);
            lemma_ancestor_adds(parent, h as int, t, (period - t) as nat);
            assert(t + (period - t) as nat == period);
            assert(parent[at as int] is Some);
            lemma_ancestor_adds(parent, h as int, t, 1);
            assert(ancestor(parent, at as int, 1) == parent[at as int]) by {
                reveal_with_fuel(ancestor, 2);
            }
            t = t + 1;
        }
        at = match parents[at] {
            Some(p) => p,
            None => h,
        };
    }
    proof {
        assert forall|x: int| #[trigger] reaches(parent, h as int, x) implies is_size_of(
            parent,
            sizes@,
            x,
        ) by {
            let k = choose|k: nat| #[trigger] ancestor(parent, h as int, k) == Some(x);
            lemma_cycle_repeats(parent, h as int, t, k);
            vstd::arithmetic::div_mod::lemma_mod_bound(k as int, t as int);
            assert(is_size_of(parent, sizes@, ancestor(parent, h as int, k % t)->0));
        }
    }
}

/// For each node, how many other nodes reply to it, directly or through others.
pub(crate) fn reply_totals(parents: &Vec<Option<usize>>) -> (r: Vec<usize>)
    requires
        is_graph(graph(parents@)),
    ensures
        r@.len() == parents@.len(),
        forall|i: int|
            0 <= i < parents@.len() ==> #[trigger] r@[i] == replies_below(graph(parents@), i),
{
    let ghost parent = graph(parents@);
    let n: usize = parents.len();
    let children = list_replies(parents);
    let mut memo: Vec<Option<usize>> = Vec::new();
    let mut on_stack: Vec<bool> = Vec::new();
    let mut heads: Vec<bool> = Vec::new();
    for i in 0..n
        invariant
            memo@.len() == i,
            on_stack@.len() == i,
            heads@.len() == i,
            forall|x: int| 0 <= x < i ==> #[trigger] memo@[x] is None,
            forall|x: int| 0 <= x < i ==> !#[trigger] on_stack@[x],
            forall|x: int| 0 <= x < i ==> !#[trigger] heads@[x],
    {
        memo.push(None);
        on_stack.push(false);
        heads.push(false);
    }
    let mut sizes: Vec<usize> = Vec::new();
    let ghost path = Seq::<int>::empty();
    for i in 0..n
        invariant
            is_graph(parent),
            lists_replies(parent, children@),
            n == parent.len(),
            path == Seq::<int>::empty(),
            on_stack@.len() == n,
            marks_path(on_stack@, path),
            sizes_noted(parent, memo@),
            heads_marked(parent, memo@, heads@),
            forall|x: int| 0 <= x < i ==> #[trigger] memo@[x] is Some,
            sizes@.len() == i,
            forall|x: int| 0 <= x < i ==> #[trigger] sizes@[x] == tree(parent, x).len(),
    {
        let ghost before = memo@;
        let size = subtree_size(
            i,
            &children,
            &mut memo,
            &mut on_stack,
            &mut heads,
            Ghost(parent),
            Ghost(path),
        );
        proof {
            assert forall|x: int| 0 <= x < i + 1 implies #[trigger] memo@[x] is Some by {
                if x < i {
                    assert(before[x] is Some);
                }
            }
        }
        sizes.push(size);
    }
    proof {
        assert forall|x: int| 0 <= x < n && is_settled(parent, 0, x) implies #[trigger] is_size_of(
            parent,
            sizes@,
            x,
        ) by {
            lemma_tree_is_subtree(parent, x);
            assert(sizes@[x] == tree(parent, x).len());
        }
        assert forall|x: int| 0 <= x < n && heads_cycle(parent, x) implies #[trigger] heads@[x] by {
            lemma_head_above_its_parent(parent, x);
            assert(memo@[parent[x]->0] is Some);
        }
    }
    for h in 0..n
        invariant
            parent == graph(parents@),
            is_graph(parent),
            n == parents@.len(),
            heads@.len() == n,
            sizes@.len() == n,
            forall|x: int| 0 <= x < n ==> #[trigger] heads@[x] == heads_cycle(parent, x),
            forall|x: int|
                0 <= x < n && is_settled(parent, h as int, x) ==> #[trigger] is_size_of(
                    parent,
                    sizes@,
                    x,
                ),
    {
        let ghost before = sizes@;
        assert(heads@[h as int] == heads_cycle(parent, h as int));
        if heads[h] {
            assert(is_settled(parent, h as int, h as int));
            share_size(parents, h, &mut sizes);
        }
        proof {
            assert forall|x: int| 0 <= x < n && is_settled(parent, h + 1, x) implies
                #[trigger] is_size_of(parent, sizes@, x) by {
                if is_settled(parent, h as int, x) {
                    assert(is_size_of(parent, before, x));
                } else {
                    let g = choose|g: int|
                        0 <= g < h + 1 && heads_cycle(parent, g) && #[trigger] reaches(
                            parent,
                            g,
                            x,
                        );
                    assert(g == h);
                }
            }
        }
    }
    let mut out: Vec<usize> = Vec::new();
    for i in 0..n
        invariant
            parent == graph(parents@),
            is_graph(parent),
            n == parents@.len(),
            sizes@.len() == n,
            forall|x: int|
                0 <= x < n && is_settled(parent, n as int, x) ==> #[trigger] is_size_of(
                    parent,
                    sizes@,
                    x,
                ),
            out@.len() == i,
            forall|x: int| 0 <= x < i ==> #[trigger] out@[x] == replies_below(parent, x),
    {
        proof {
            let x = i as int;
            if on_cycle(parent, x) {
                let h = lemma_circle_has_a_head(parent, x);
                assert(reaches(parent, h, x));
            }
            assert(is_settled(parent, n as int, x));
            assert(is_size_of(parent, sizes@, x));
            lemma_subtree_counts(parent, x);
        }
        out.push(sizes[i] - 1);
    }
    out
}

/// A node's subtree is the node and those that reply to it.
proof fn lemma_subtree_counts(parent: Seq<Option<int>>, i: int)
    requires
        0 <= i < parent.len(),
    ensures
        subtree(parent, i).len() == replies_below(parent, i) + 1,
        subtree(parent, i).len() <= parent.len(),
{
    let below = subtree(parent, i);
    assert(ancestor(parent, i, 0) == Some(i));
    assert(below.contains(i));
    lemma_bounded(parent, below);
    assert(below.remove(i) =~= repliers(parent, i));
}

/// There are no more repliers than nodes.
pub proof fn lemma_repliers_finite(parent: Seq<Option<int>>, i: int)
    requires
        0 <= i < parent.len(),
    ensures
        repliers(parent, i).finite(),
{
    let below = subtree(parent, i);
    lemma_bounded(parent, below);
    assert(below.remove(i) =~= repliers(parent, i));
}

/// A walk to another node ends with a step to it.
pub proof fn lemma_last_step(parent: Seq<Option<int>>, j: int, i: int, k: nat) -> (d: int)
    requires
        is_graph(parent),
        0 <= j < parent.len(),
        j != i,
        ancestor(parent, j, k) == Some(i),
    ensures
        0 <= d < parent.len(),
        parent[d] == Some(i),
    decreases k,
{
    let p = parent[j]->0;
    if p == i {
        j
    } else {
        lemma_last_step(parent, p, i, (k - 1) as nat)
    }
}

/// Nodes that reply to each other, directly or through others, count the same: all nodes
/// of a circle share one subtree.
pub proof fn law_circle_shares_one_count(parent: Seq<Option<int>>, a: int, b: int)
    requires
        0 <= a < parent.len(),
        0 <= b < parent.len(),
        reaches(parent, a, b),
        reaches(parent, b, a),
    ensures
        replies_below(parent, a) == replies_below(parent, b),
{
    lemma_circle_shares_a_subtree(parent, a, b);
    lemma_subtree_counts(parent, a);
    lemma_subtree_counts(parent, b);
}

/// A node counts no more replies than there are other nodes.
pub proof fn law_counts_at_most_the_others(parent: Seq<Option<int>>, i: int)
    requires
        0 <= i < parent.len(),
    ensures
        replies_below(parent, i) < parent.len(),
{
    lemma_subtree_counts(parent, i);
}

/// What replies to a reply replies to what that replies to: a node counts more than a
/// reply to it that it does not itself reply to.
pub proof fn law_counts_grow_towards_the_root(parent: Seq<Option<int>>, i: int, p: int)
    requires
        0 <= i < parent.len(),
        0 <= p < parent.len(),
        parent[i] == Some(p),
        !reaches(parent, p, i),
    ensures
        replies_below(parent, i) < replies_below(parent, p),
{
    let a = subtree(parent, i);
    let b = subtree(parent, p);
    assert(ancestor(parent, i, 1) == Some(p)) by {
        reveal_with_fuel(ancestor, 2);
    }
    assert forall|j: int| a.contains(j) implies b.contains(j) by {
        let k = choose|k: nat| #[trigger] ancestor(parent, j, k) == Some(i);
        lemma_ancestor_adds(parent, j, k, 1);
        assert(ancestor(parent, j, k + 1) == Some(p));
    }
    assert(ancestor(parent, p, 0) == Some(p));
    assert(b.contains(p) && !a.contains(p));
    lemma_bounded(parent, b);
    lemma_len_subset(a, b.remove(p));
    lemma_subtree_counts(parent, i);
    lemma_subtree_counts(parent, p);
}

} // verus!
