//! Chains of parents and paths through children lists, and why every walk
//! over an arena ends.
//!
//! An arena is kept *bounded* by some `b`: from every node, the chain of
//! parents and every path down the children lists end within `b` nodes.
//! Linking a parent or a child that would close a cycle is refused; every
//! other edit keeps the arena bounded (by a larger `b`).
use vstd::prelude::*;

use crate::element::{wf_nodes, NodeView};

verus! {

/// The chain of parents from node `i` ends within `n` nodes.
pub open spec fn up_ok(t: Seq<NodeView>, i: int, n: nat) -> bool
    decreases n,
{
    n > 0 && match t[i].parent {
        Some(p) => up_ok(t, p as int, (n - 1) as nat),
        None => true,
    }
}

/// Every path down the children lists from node `i` ends within `n` nodes.
pub open spec fn down_ok(t: Seq<NodeView>, i: int, n: nat) -> bool
    decreases n,
{
    n > 0 && forall|k: int|
        0 <= k < t[i].children.len() ==> down_ok(t, #[trigger] t[i].children[k] as int, (n - 1) as nat)
}

/// From every node, chains and paths end within `b` nodes.
pub open spec fn bounded(t: Seq<NodeView>, b: nat) -> bool {
    &&& forall|i: int| 0 <= i < t.len() ==> #[trigger] up_ok(t, i, b)
    &&& forall|i: int| 0 <= i < t.len() ==> #[trigger] down_ok(t, i, b)
}

/// No chain of parents and no path through children lists runs in a circle.
pub open spec fn acyclic(t: Seq<NodeView>) -> bool {
    exists|b: nat| bounded(t, b)
}

/// Node `d` is among the first `n` nodes of the chain of parents from `a`.
pub open spec fn on_chain_within(t: Seq<NodeView>, a: int, d: int, n: nat) -> bool
    decreases n,
{
    n > 0 && (a == d || match t[a].parent {
        Some(p) => on_chain_within(t, p as int, d, (n - 1) as nat),
        None => false,
    })
}

/// Node `d` is on the chain of parents from `a`: `a` itself, its parent, its
/// parent's parent, and so on.
pub open spec fn on_chain(t: Seq<NodeView>, a: int, d: int) -> bool {
    exists|n: nat| on_chain_within(t, a, d, n)
}

/// Node `d` is reached from `a` through at most `n - 1` children links.
pub open spec fn reach_within(t: Seq<NodeView>, a: int, d: int, n: nat) -> bool
    decreases n,
{
    n > 0 && (a == d || exists|k: int|
        0 <= k < t[a].children.len() && reach_within(t, #[trigger] t[a].children[k] as int, d, (n - 1) as nat))
}

/// Node `d` lies in the subtree of node `a`: it is `a` itself, or lies in the
/// subtree of one of `a`'s children.
pub open spec fn reaches(t: Seq<NodeView>, a: int, d: int) -> bool {
    exists|n: nat| reach_within(t, a, d, n)
}

pub proof fn lemma_up_mono(t: Seq<NodeView>, i: int, n: nat, m: nat)
    requires
        up_ok(t, i, n),
        n <= m,
    ensures
        up_ok(t, i, m),
    decreases n,
{
    if let Some(p) = t[i].parent {
        lemma_up_mono(t, p as int, (n - 1) as nat, (m - 1) as nat);
    }
}

pub proof fn lemma_down_mono(t: Seq<NodeView>, i: int, n: nat, m: nat)
    requires
        down_ok(t, i, n),
        n <= m,
    ensures
        down_ok(t, i, m),
    decreases n,
{
    assert forall|k: int| 0 <= k < t[i].children.len() implies down_ok(t, #[trigger] t[i].children[k] as int, (m - 1) as nat) by {
        lemma_down_mono(t, t[i].children[k] as int, (n - 1) as nat, (m - 1) as nat);
    }
}

/// Chains of parents read only parent links: two arenas that agree on them
/// agree on which chains end.
pub proof fn lemma_up_frame(t: Seq<NodeView>, t2: Seq<NodeView>, i: int, n: nat)
    requires
        wf_nodes(t),
        t.len() <= t2.len(),
        forall|j: int| 0 <= j < t.len() ==> #[trigger] t2[j].parent == t[j].parent,
        0 <= i < t.len(),
    ensures
        up_ok(t, i, n) == up_ok(t2, i, n),
    decreases n,
{
    assert(crate::element::node_ok(t, i));
    if n > 0 {
        if let Some(p) = t[i].parent {
            lemma_up_frame(t, t2, p as int, (n - 1) as nat);
        }
    }
}

/// Paths down children lists read only children lists.
pub proof fn lemma_down_frame(t: Seq<NodeView>, t2: Seq<NodeView>, i: int, n: nat)
    requires
        wf_nodes(t),
        t.len() <= t2.len(),
        forall|j: int| 0 <= j < t.len() ==> #[trigger] t2[j].children == t[j].children,
        0 <= i < t.len(),
    ensures
        down_ok(t, i, n) == down_ok(t2, i, n),
    decreases n,
{
    assert(crate::element::node_ok(t, i));
    if n > 0 {
        assert forall|k: int| 0 <= k < t[i].children.len() implies down_ok(t, #[trigger] t[i].children[k] as int, (n - 1) as nat)
            == down_ok(t2, t[i].children[k] as int, (n - 1) as nat) by {
            lemma_down_frame(t, t2, t[i].children[k] as int, (n - 1) as nat);
        }
        assert(t2[i].children == t[i].children);
        if down_ok(t, i, n) {
            assert forall|k: int| 0 <= k < t2[i].children.len() implies down_ok(t2, #[trigger] t2[i].children[k] as int, (n - 1) as nat) by {
                assert(t2[i].children[k] == t[i].children[k]);
            }
        }
        if down_ok(t2, i, n) {
            assert forall|k: int| 0 <= k < t[i].children.len() implies down_ok(t, #[trigger] t[i].children[k] as int, (n - 1) as nat) by {
                assert(t2[i].children[k] == t[i].children[k]);
            }
        }
    }
}

/// An arena that agrees with a bounded one on every parent link and
/// children list (and may have more nodes, each bounded by `b`) is bounded.
pub proof fn lemma_bounded_frame(t: Seq<NodeView>, t2: Seq<NodeView>, b: nat)
    requires
        wf_nodes(t),
        bounded(t, b),
        t.len() <= t2.len(),
        forall|j: int| 0 <= j < t.len() ==> #[trigger] t2[j].parent == t[j].parent,
        forall|j: int| 0 <= j < t.len() ==> #[trigger] t2[j].children == t[j].children,
        forall|j: int| t.len() <= j < t2.len() ==> #[trigger] up_ok(t2, j, b) && down_ok(t2, j, b),
    ensures
        bounded(t2, b),
{
    assert forall|i: int| 0 <= i < t2.len() implies #[trigger] up_ok(t2, i, b) by {
        if i < t.len() {
            lemma_up_frame(t, t2, i, b);
        }
    }
    assert forall|i: int| 0 <= i < t2.len() implies #[trigger] down_ok(t2, i, b) by {
        if i < t.len() {
            lemma_down_frame(t, t2, i, b);
        } else {
            assert(up_ok(t2, i, b));
        }
    }
}

proof fn lemma_up_keep(t: Seq<NodeView>, t2: Seq<NodeView>, i: int, x: int, m: nat)
    requires
        wf_nodes(t),
        0 <= i < t.len(),
        0 <= x < t.len(),
        t2.len() == t.len(),
        forall|j: int| 0 <= j < t.len() && j != i ==> #[trigger] t2[j].parent == t[j].parent,
        !on_chain(t, x, i),
        up_ok(t, x, m),
    ensures
        up_ok(t2, x, m),
    decreases m,
{
    assert(on_chain_within(t, x, x, 1));
    assert(x != i);
    assert(crate::element::node_ok(t, x));
    if let Some(q) = t[x].parent {
        if on_chain(t, q as int, i) {
            let n = choose|n: nat| on_chain_within(t, q as int, i, n);
            assert(on_chain_within(t, x, i, n + 1));
        }
        lemma_up_keep(t, t2, i, q as int, (m - 1) as nat);
    }
}

proof fn lemma_up_grow(t: Seq<NodeView>, t2: Seq<NodeView>, i: int, p: Option<usize>, b: nat, x: int, m: nat)
    requires
        wf_nodes(t),
        bounded(t, b),
        0 <= i < t.len(),
        0 <= x < t.len(),
        t2 == t.update(i, NodeView { parent: p, ..t[i] }),
        p matches Some(q) ==> q < t.len() && !on_chain(t, q as int, i),
        up_ok(t, x, m),
    ensures
        up_ok(t2, x, m + b + 1),
    decreases m,
{
    assert(crate::element::node_ok(t, x));
    if x == i {
        if let Some(q) = p {
            assert(up_ok(t, q as int, b));
            lemma_up_keep(t, t2, i, q as int, b);
            lemma_up_mono(t2, q as int, b, m + b);
        }
    } else if let Some(q) = t[x].parent {
        lemma_up_grow(t, t2, i, p, b, q as int, (m - 1) as nat);
    }
}

/// Pointing the parent link of `i` at `p` keeps the arena bounded, unless
/// `i` is on the chain of parents from `p`.
pub proof fn lemma_link_parent(t: Seq<NodeView>, t2: Seq<NodeView>, i: int, p: Option<usize>, b: nat)
    requires
        wf_nodes(t),
        bounded(t, b),
        0 <= i < t.len(),
        t2 == t.update(i, NodeView { parent: p, ..t[i] }),
        p matches Some(q) ==> q < t.len() && !on_chain(t, q as int, i),
    ensures
        bounded(t2, 2 * b + 1),
{
    assert forall|x: int| 0 <= x < t2.len() implies #[trigger] up_ok(t2, x, 2 * b + 1) by {
        assert(up_ok(t, x, b));
        lemma_up_grow(t, t2, i, p, b, x, b);
    }
    assert forall|x: int| 0 <= x < t2.len() implies #[trigger] down_ok(t2, x, 2 * b + 1) by {
        assert(down_ok(t, x, b));
        lemma_down_mono(t, x, b, 2 * b + 1);
        lemma_down_frame(t, t2, x, 2 * b + 1);
    }
}

proof fn lemma_down_keep(t: Seq<NodeView>, t2: Seq<NodeView>, s: int, x: int, m: nat)
    requires
        wf_nodes(t),
        0 <= s < t.len(),
        0 <= x < t.len(),
        t2.len() == t.len(),
        forall|j: int| 0 <= j < t.len() && j != s ==> #[trigger] t2[j].children == t[j].children,
        !reaches(t, x, s),
        down_ok(t, x, m),
    ensures
        down_ok(t2, x, m),
    decreases m,
{
    assert(reach_within(t, x, x, 1));
    assert(x != s);
    assert(crate::element::node_ok(t, x));
    assert forall|k: int| 0 <= k < t2[x].children.len() implies down_ok(t2, #[trigger] t2[x].children[k] as int, (m - 1) as nat) by {
        let c = t[x].children[k] as int;
        assert(t2[x].children[k] == t[x].children[k]);
        if reaches(t, c, s) {
            let n = choose|n: nat| reach_within(t, c, s, n);
            assert(reach_within(t, x, s, n + 1));
        }
        lemma_down_keep(t, t2, s, c, (m - 1) as nat);
    }
}

proof fn lemma_down_grow(t: Seq<NodeView>, t2: Seq<NodeView>, s: int, c: usize, b: nat, x: int, m: nat)
    requires
        wf_nodes(t),
        bounded(t, b),
        0 <= s < t.len(),
        0 <= x < t.len(),
        c < t.len(),
        t2 == t.update(s, NodeView { children: t[s].children.push(c), ..t[s] }),
        !reaches(t, c as int, s),
        down_ok(t, x, m),
    ensures
        down_ok(t2, x, m + b + 1),
    decreases m,
{
    assert(crate::element::node_ok(t, x));
    assert forall|k: int| 0 <= k < t2[x].children.len() implies down_ok(t2, #[trigger] t2[x].children[k] as int, (m + b) as nat) by {
        if x == s && k == t[s].children.len() {
            assert(t2[x].children[k] == c);
            assert(down_ok(t, c as int, b));
            lemma_down_keep(t, t2, s, c as int, b);
            lemma_down_mono(t2, c as int, b, m + b);
        } else {
            assert(t2[x].children[k] == t[x].children[k]);
            lemma_down_grow(t, t2, s, c, b, t[x].children[k] as int, (m - 1) as nat);
        }
    }
}

/// Appending `c` to the children of `s` keeps the arena bounded, unless `s`
/// lies in the subtree of `c`.
pub proof fn lemma_link_child(t: Seq<NodeView>, t2: Seq<NodeView>, s: int, c: usize, b: nat)
    requires
        wf_nodes(t),
        bounded(t, b),
        0 <= s < t.len(),
        c < t.len(),
        t2 == t.update(s, NodeView { children: t[s].children.push(c), ..t[s] }),
        !reaches(t, c as int, s),
    ensures
        bounded(t2, 2 * b + 1),
{
    assert forall|x: int| 0 <= x < t2.len() implies #[trigger] down_ok(t2, x, 2 * b + 1) by {
        assert(down_ok(t, x, b));
        lemma_down_grow(t, t2, s, c, b, x, b);
    }
    assert forall|x: int| 0 <= x < t2.len() implies #[trigger] up_ok(t2, x, 2 * b + 1) by {
        assert(up_ok(t, x, b));
        lemma_up_mono(t, x, b, 2 * b + 1);
        lemma_up_frame(t, t2, x, 2 * b + 1);
    }
}

proof fn lemma_down_drop(t: Seq<NodeView>, t2: Seq<NodeView>, s: int, pos: int, x: int, m: nat)
    requires
        wf_nodes(t),
        0 <= s < t.len(),
        0 <= pos < t[s].children.len(),
        0 <= x < t.len(),
        t2 == t.update(s, NodeView { children: t[s].children.remove(pos), ..t[s] }),
        down_ok(t, x, m),
    ensures
        down_ok(t2, x, m),
    decreases m,
{
    assert(crate::element::node_ok(t, x));
    assert forall|k: int| 0 <= k < t2[x].children.len() implies down_ok(t2, #[trigger] t2[x].children[k] as int, (m - 1) as nat) by {
        let k0 = if x == s && k >= pos { k + 1 } else { k };
        assert(t2[x].children[k] == t[x].children[k0]);
        lemma_down_drop(t, t2, s, pos, t[x].children[k0] as int, (m - 1) as nat);
    }
}

/// Removing an entry from a children list keeps the arena bounded.
pub proof fn lemma_unlink_child(t: Seq<NodeView>, t2: Seq<NodeView>, s: int, pos: int, b: nat)
    requires
        wf_nodes(t),
        bounded(t, b),
        0 <= s < t.len(),
        0 <= pos < t[s].children.len(),
        t2 == t.update(s, NodeView { children: t[s].children.remove(pos), ..t[s] }),
    ensures
        bounded(t2, b),
{
    assert forall|x: int| 0 <= x < t2.len() implies #[trigger] down_ok(t2, x, b) by {
        assert(down_ok(t, x, b));
        lemma_down_drop(t, t2, s, pos, x, b);
    }
    assert forall|x: int| 0 <= x < t2.len() implies #[trigger] up_ok(t2, x, b) by {
        assert(up_ok(t, x, b));
        lemma_up_frame(t, t2, x, b);
    }
}

/// The chain of parents from `a` holds `d` exactly when `a` is `d` or the
/// chain from `a`'s parent holds `d`.
pub proof fn lemma_on_chain_step(t: Seq<NodeView>, a: int, d: int)
    ensures
        on_chain(t, a, d) == (a == d || (t[a].parent matches Some(p) && on_chain(t, p as int, d))),
{
    if on_chain(t, a, d) {
        let n = choose|n: nat| on_chain_within(t, a, d, n);
        if a != d {
            assert(on_chain_within(t, t[a].parent.unwrap() as int, d, (n - 1) as nat));
        }
    }
    if a == d {
        assert(on_chain_within(t, a, d, 1));
    } else if let Some(p) = t[a].parent {
        if on_chain(t, p as int, d) {
            let n = choose|n: nat| on_chain_within(t, p as int, d, n);
            assert(on_chain_within(t, a, d, n + 1));
        }
    }
}

/// The subtree of `a` holds `d` exactly when `a` is `d` or the subtree of
/// one of `a`'s children holds `d`.
pub proof fn lemma_reaches_step(t: Seq<NodeView>, a: int, d: int)
    ensures
        reaches(t, a, d) == (a == d || exists|k: int|
            0 <= k < t[a].children.len() && reaches(t, #[trigger] t[a].children[k] as int, d)),
{
    if reaches(t, a, d) && a != d {
        let n = choose|n: nat| reach_within(t, a, d, n);
        let k = choose|k: int|
            0 <= k < t[a].children.len() && reach_within(t, #[trigger] t[a].children[k] as int, d, (n - 1) as nat);
        assert(reaches(t, t[a].children[k] as int, d));
    }
    if a == d {
        assert(reach_within(t, a, d, 1));
    } else if exists|k: int| 0 <= k < t[a].children.len() && reaches(t, #[trigger] t[a].children[k] as int, d) {
        let k = choose|k: int| 0 <= k < t[a].children.len() && reaches(t, #[trigger] t[a].children[k] as int, d);
        let n = choose|n: nat| reach_within(t, t[a].children[k] as int, d, n);
        assert(reach_within(t, a, d, n + 1));
    }
}

} // verus!
