//! The element tree and the resolution of its geometry.
//!
//! Elements live in an arena, `ElementTree`, and are named by `Element`
//! handles. A node owns its style and the ordered list of its children; its
//! parent is a back-reference used for lookup only. Linking a child or a
//! parent that would close a cycle is refused, so every walk up the parents
//! or down the children ends (see `graph`).
//!
//! Lengths resolve to whole pixels. A fraction `Perc(p)` of a length `l`
//! resolves to `floor(l * p / PERC_ONE)`. A result that leaves the range of
//! `i64` at any step resolves to `None`.
use vstd::prelude::*;

use crate::background::{Background, BackgroundType};
use crate::color::{is_positive, Color};
use crate::coord::{Coord, CoordValue, PERC_ONE};
use crate::graph::{
    bounded, down_ok, lemma_bounded_frame, lemma_link_child, lemma_link_parent, lemma_on_chain_step,
    lemma_reaches_step, lemma_unlink_child, on_chain, on_chain_within, reaches, up_ok,
};
use crate::position::Position;

verus! {

/// The size of the viewport in pixels.
#[derive(Clone, Copy, Debug, PartialEq, Eq, Structural)]
pub struct WindowSize {
    pub width: u32,
    pub height: u32,
}

/// The style of an element.
#[derive(Clone, Copy, Debug)]
pub struct Style {
    pub width: Coord,
    pub height: Coord,
    pub x: Coord,
    pub y: Coord,
    pub background: Background,
    pub position: Position,
}

/// What a style holds.
pub struct StyleView {
    pub width: CoordValue,
    pub height: CoordValue,
    pub x: CoordValue,
    pub y: CoordValue,
    pub background: BackgroundType,
    /// `true` for absolute positioning.
    pub absolute: bool,
}

impl View for Style {
    type V = StyleView;

    open spec fn view(&self) -> StyleView {
        StyleView {
            width: self.width@,
            height: self.height@,
            x: self.x@,
            y: self.y@,
            background: self.background@,
            absolute: self.position@,
        }
    }
}

/// The default style: all four coordinates automatic, no background,
/// relative positioning.
pub open spec fn default_style() -> StyleView {
    StyleView {
        width: CoordValue::Auto,
        height: CoordValue::Auto,
        x: CoordValue::Auto,
        y: CoordValue::Auto,
        background: BackgroundType::Empty,
        absolute: false,
    }
}

impl Style {
    pub fn new() -> (s: Style)
        ensures
            s@ == default_style(),
    {
        Style {
            width: Coord::new(),
            height: Coord::new(),
            x: Coord::new(),
            y: Coord::new(),
            background: Background::new(),
            position: Position::new(),
        }
    }
}

impl Default for Style {
    fn default() -> (s: Style)
        ensures
            s@ == default_style(),
    {
        Style::new()
    }
}

/// One node of the arena.
pub struct Node {
    style: Style,
    parent: Option<usize>,
    children: Vec<usize>,
}

/// What a node holds: its style, the index of its parent, and the indices of
/// its children in order.
pub struct NodeView {
    pub style: StyleView,
    pub parent: Option<usize>,
    pub children: Seq<usize>,
}

impl View for Node {
    type V = NodeView;

    closed spec fn view(&self) -> NodeView {
        NodeView { style: self.style@, parent: self.parent, children: self.children@ }
    }
}

/// A node with the default style, no parent and no children.
pub open spec fn is_fresh(n: NodeView) -> bool {
    n.style == default_style() && n.parent.is_none() && n.children.len() == 0
}

/// An arena of elements.
pub struct ElementTree {
    nodes: Vec<Node>,
    /// Every chain of parents and every path down the children ends within
    /// this many nodes.
    bound: Ghost<nat>,
}

/// A handle to an element of an `ElementTree`.
#[derive(Clone, Copy, Debug, PartialEq, Eq, Structural)]
pub struct Element {
    index: usize,
}

impl Element {
    /// The index of the element in its arena.
    pub closed spec fn id(&self) -> usize {
        self.index
    }
}

/// Node `i` links only to nodes of the arena.
pub open spec fn node_ok(t: Seq<NodeView>, i: int) -> bool {
    &&& match t[i].parent {
        Some(p) => (p as int) < t.len(),
        None => true,
    }
    &&& forall|k: int| 0 <= k < t[i].children.len() ==> #[trigger] t[i].children[k] < t.len()
}

/// Every node of the arena is in order.
pub open spec fn wf_nodes(t: Seq<NodeView>) -> bool {
    forall|i: int| 0 <= i < t.len() ==> #[trigger] node_ok(t, i)
}

/// Every element is listed as a child at most once in the whole arena, as
/// `create_child` leaves it.
pub open spec fn single_parent(t: Seq<NodeView>) -> bool {
    forall|a: int, k: int, b: int, l: int|
        0 <= a < t.len() && 0 <= b < t.len() && 0 <= k < t[a].children.len() && 0 <= l < t[b].children.len()
            && #[trigger] t[a].children[k] == #[trigger] t[b].children[l] ==> a == b && k == l
}

impl View for ElementTree {
    type V = Seq<NodeView>;

    closed spec fn view(&self) -> Seq<NodeView> {
        self.nodes@.map_values(|n: Node| n@)
    }
}

impl ElementTree {
    /// A bound within which every chain of parents and every path down the
    /// children lists ends.
    pub closed spec fn bound(&self) -> nat {
        self.bound@
    }

    pub open spec fn wf(&self) -> bool {
        &&& wf_nodes(self@)
        &&& self.bound() > 0
        &&& bounded(self@, self.bound())
    }

    pub open spec fn contains(&self, e: Element) -> bool {
        (e.id() as int) < self@.len()
    }

    /// An empty arena.
    pub fn new() -> (t: ElementTree)
        ensures
            t.wf(),
            t@.len() == 0,
    {
        let t = ElementTree { nodes: Vec::new(), bound: Ghost(1) };
        assert(t@ =~= Seq::<NodeView>::empty());
        t
    }

    /// The number of elements in the arena.
    pub fn len(&self) -> (n: usize)
        ensures
            n == self@.len(),
    {
        self.nodes.len()
    }

    /// Adds a standalone element: default style, no parent, no children.
    pub fn create_element(&mut self) -> (e: Element)
        requires
            old(self).wf(),
            old(self)@.len() < usize::MAX,
        ensures
            final(self).wf(),
            e.id() == old(self)@.len(),
            final(self)@ == old(self)@.push(final(self)@[e.id() as int]),
            is_fresh(final(self)@[e.id() as int]),
            single_parent(old(self)@) ==> single_parent(final(self)@),
    {
        let index = self.nodes.len();
        let node = Node { style: Style::new(), parent: None, children: Vec::new() };
        self.nodes.push(node);
        let e = Element { index };
        proof {
            assert(final(self)@ =~= old(self)@.push(node@));
            assert forall|i: int| 0 <= i < final(self)@.len() implies #[trigger] node_ok(final(self)@, i) by {
                if i < old(self)@.len() {
                    assert(node_ok(old(self)@, i));
                }
            }
            assert(final(self)@[index as int].children.len() == 0);
            let t = old(self)@;
            let t2 = final(self)@;
            assert forall|j: int| 0 <= j < t.len() implies #[trigger] t2[j].parent == t[j].parent && t2[j].children == t[j].children by {
                assert(t2[j] == t[j]);
            }
            assert(up_ok(t2, index as int, self.bound()));
            assert(down_ok(t2, index as int, self.bound()));
            lemma_bounded_frame(t, t2, self.bound());
        }
        e
    }
}

/// No chain of parents from an old node reaches a node appended after it.
proof fn lemma_fresh_off_chain(t: Seq<NodeView>, t1: Seq<NodeView>, x: int, n: nat)
    requires
        wf_nodes(t),
        t1.len() == t.len() + 1,
        forall|j: int| 0 <= j < t.len() ==> #[trigger] t1[j] == t[j],
        0 <= x < t.len(),
    ensures
        !on_chain_within(t1, x, t.len() as int, n),
    decreases n,
{
    assert(node_ok(t, x));
    assert(t1[x] == t[x]);
    if n > 0 {
        if let Some(p) = t1[x].parent {
            lemma_fresh_off_chain(t, t1, p as int, (n - 1) as nat);
        }
    }
}

/// Every node keeps its links within the arena when one node is replaced
/// by `n`, whose links are within it too.
proof fn lemma_replace_ok(t: Seq<NodeView>, i: int, n: NodeView)
    requires
        wf_nodes(t),
        0 <= i < t.len(),
        node_ok(t.update(i, n), i),
    ensures
        wf_nodes(t.update(i, n)),
{
    let t2 = t.update(i, n);
    assert forall|j: int| 0 <= j < t2.len() implies #[trigger] node_ok(t2, j) by {
        if j != i {
            assert(node_ok(t, j));
            assert(t2[j] == t[j]);
        }
    }
}

impl ElementTree {
    /// Whether `d` is on the chain of parents from `a`.
    fn chain_holds(&self, a: usize, d: usize) -> (r: bool)
        requires
            self.wf(),
            a < self@.len(),
        ensures
            r == on_chain(self@, a as int, d as int),
    {
        let mut cur = a;
        let ghost mut m: nat = self.bound();
        assert(up_ok(self@, a as int, m));
        loop
            invariant
                self.wf(),
                cur < self@.len(),
                up_ok(self@, cur as int, m),
                on_chain(self@, a as int, d as int) == on_chain(self@, cur as int, d as int),
            decreases m,
        {
            proof {
                lemma_on_chain_step(self@, cur as int, d as int);
                assert(node_ok(self@, cur as int));
            }
            if cur == d {
                return true;
            }
            match self.nodes[cur].parent {
                Some(p) => {
                    cur = p;
                    proof {
                        m = (m - 1) as nat;
                    }
                },
                None => {
                    return false;
                },
            }
        }
    }

    /// Whether `d` lies in the subtree of `a`.
    fn subtree_holds(&self, a: usize, d: usize, Ghost(n): Ghost<nat>) -> (r: bool)
        requires
            self.wf(),
            a < self@.len(),
            down_ok(self@, a as int, n),
        ensures
            r == reaches(self@, a as int, d as int),
        decreases n,
    {
        proof {
            lemma_reaches_step(self@, a as int, d as int);
            assert(node_ok(self@, a as int));
        }
        if a == d {
            return true;
        }
        let len = self.nodes[a].children.len();
        let mut k: usize = 0;
        while k < len
            invariant
                self.wf(),
                a < self@.len(),
                a != d,
                node_ok(self@, a as int),
                down_ok(self@, a as int, n),
                len == self@[a as int].children.len(),
                k <= len,
                forall|j: int| 0 <= j < k ==> !reaches(self@, #[trigger] self@[a as int].children[j] as int, d as int),
                reaches(self@, a as int, d as int) == exists|j: int|
                    0 <= j < self@[a as int].children.len() && reaches(self@, #[trigger] self@[a as int].children[j] as int, d as int),
            decreases len - k,
        {
            let c = self.nodes[a].children[k];
            assert(c == self@[a as int].children[k as int]);
            assert(down_ok(self@, c as int, (n - 1) as nat));
            if self.subtree_holds(c, d, Ghost((n - 1) as nat)) {
                return true;
            }
            k = k + 1;
        }
        false
    }
}

impl Element {
    /// Creates a child of this element: a fresh element whose parent is this
    /// one, appended to this element's children.
    pub fn create_child(&self, tree: &mut ElementTree) -> (c: Element)
        requires
            old(tree).wf(),
            old(tree).contains(*self),
            old(tree)@.len() < usize::MAX,
        ensures
            final(tree).wf(),
            c.id() == old(tree)@.len(),
            final(tree)@.len() == old(tree)@.len() + 1,
            final(tree)@.take(old(tree)@.len() as int) == old(tree)@.update(
                self.id() as int,
                NodeView {
                    children: old(tree)@[self.id() as int].children.push(c.id()),
                    ..old(tree)@[self.id() as int]
                },
            ),
            final(tree)@[c.id() as int] == (NodeView {
                style: default_style(),
                parent: Some(self.id()),
                children: Seq::empty(),
            }),
            single_parent(old(tree)@) ==> single_parent(final(tree)@),
    {
        let ghost t0 = tree@;
        let c = tree.create_element();
        let ghost t1 = tree@;
        let ghost b = tree.bound();
        assert(tree.nodes@.len() == t1.len());
        assert(c.index == c.id());
        proof {
            assert forall|j: int| 0 <= j < t0.len() implies #[trigger] t1[j] == t0[j] by {
                assert(t1[j] == t1.take(t0.len() as int)[j]);
            }
            if on_chain(t1, self.id() as int, c.id() as int) {
                let n = choose|n: nat| on_chain_within(t1, self.id() as int, c.id() as int, n);
                lemma_fresh_off_chain(t0, t1, self.id() as int, n);
            }
        }
        tree.nodes[c.index].parent = Some(self.index);
        let ghost t2 = tree@;
        assert(t2 =~= t1.update(c.id() as int, NodeView { parent: Some(self.id()), ..t1[c.id() as int] }));
        proof {
            lemma_replace_ok(t1, c.id() as int, NodeView { parent: Some(self.id()), ..t1[c.id() as int] });
            lemma_link_parent(t1, t2, c.id() as int, Some(self.id()), b);
        }
        tree.nodes[self.index].children.push(c.index);
        proof {
            let t = tree@;
            assert(t =~= t2.update(
                self.id() as int,
                NodeView { children: t2[self.id() as int].children.push(c.id()), ..t2[self.id() as int] },
            ));
            assert(node_ok(t2, self.id() as int));
            assert(node_ok(t, self.id() as int)) by {
                let i = self.id() as int;
                assert forall|k: int| 0 <= k < t[i].children.len() implies #[trigger] t[i].children[k] < t.len() by {
                    if k < t2[i].children.len() {
                        assert(t[i].children[k] == t2[i].children[k]);
                    }
                }
            }
            lemma_replace_ok(t2, self.id() as int, t[self.id() as int]);
            lemma_reaches_step(t2, c.id() as int, self.id() as int);
            lemma_link_child(t2, t, self.id() as int, c.id(), 2 * b + 1);
            assert(t.take(t0.len() as int) =~= t0.update(
                self.id() as int,
                NodeView {
                    children: t0[self.id() as int].children.push(c.id()),
                    ..t0[self.id() as int]
                },
            ));
            assert(t[c.id() as int].children =~= Seq::empty());
            if single_parent(t0) {
                let ci = c.id() as int;
                let si = self.id() as int;
                assert forall|a: int, k: int, b2: int, l: int|
                    0 <= a < t.len() && 0 <= b2 < t.len() && 0 <= k < t[a].children.len() && 0 <= l < t[b2].children.len()
                        && #[trigger] t[a].children[k] == #[trigger] t[b2].children[l] implies a == b2 && k == l by {
                    let fresh_a = a == si && k == t0[si].children.len();
                    let fresh_b = b2 == si && l == t0[si].children.len();
                    if !fresh_a {
                        assert(a != ci);
                        assert(t[a].children[k] == t0[a].children[k]);
                        assert(node_ok(t0, a));
                    }
                    if !fresh_b {
                        assert(b2 != ci);
                        assert(t[b2].children[l] == t0[b2].children[l]);
                        assert(node_ok(t0, b2));
                    }
                }
            }
        }
        tree.bound = Ghost(2 * (2 * b + 1) + 1);
        c
    }

    /// Appends `child` to this element's children. The child's parent
    /// back-reference is left as it is: a child whose back-reference is not
    /// set resolves as if it had no parent. Adopting an element in whose
    /// subtree this one lies (this element itself included) would close a
    /// cycle: it is refused, nothing changes and `false` is returned.
    pub fn add_child(&self, tree: &mut ElementTree, child: Element) -> (ok: bool)
        requires
            old(tree).wf(),
            old(tree).contains(*self),
            old(tree).contains(child),
        ensures
            final(tree).wf(),
            ok == !reaches(old(tree)@, child.id() as int, self.id() as int),
            ok ==> final(tree)@ == old(tree)@.update(
                self.id() as int,
                NodeView {
                    children: old(tree)@[self.id() as int].children.push(child.id()),
                    ..old(tree)@[self.id() as int]
                },
            ),
            !ok ==> final(tree)@ == old(tree)@,
    {
        assert(down_ok(tree@, child.id() as int, tree.bound()));
        if tree.subtree_holds(child.index, self.index, Ghost(tree.bound())) {
            return false;
        }
        let ghost t0 = tree@;
        let ghost b = tree.bound();
        tree.nodes[self.index].children.push(child.index);
        proof {
            let t = tree@;
            let i = self.id() as int;
            assert(t =~= t0.update(i, NodeView { children: t0[i].children.push(child.id()), ..t0[i] }));
            assert(node_ok(t0, i));
            assert(node_ok(t, i)) by {
                assert forall|k: int| 0 <= k < t[i].children.len() implies #[trigger] t[i].children[k] < t.len() by {
                    if k < t0[i].children.len() {
                        assert(t[i].children[k] == t0[i].children[k]);
                    }
                }
            }
            lemma_replace_ok(t0, i, t[i]);
            lemma_link_child(t0, t, i, child.id(), b);
        }
        tree.bound = Ghost(2 * b + 1);
        true
    }

    /// The parent of this element, as its back-reference records it.
    pub fn get_parent(&self, tree: &ElementTree) -> (p: Option<Element>)
        requires
            tree.contains(*self),
        ensures
            match p {
                Some(q) => tree@[self.id() as int].parent == Some(q.id()),
                None => tree@[self.id() as int].parent.is_none(),
            },
    {
        match tree.nodes[self.index].parent {
            Some(q) => Some(Element { index: q }),
            None => None,
        }
    }

    /// Sets the back-reference to the parent. A parent on whose chain of
    /// parents this element stands (this element itself included) would close
    /// a cycle: it is refused, nothing changes and `false` is returned. The
    /// parent's list of children is left as it is.
    pub fn set_parent(&self, tree: &mut ElementTree, parent: Option<Element>) -> (ok: bool)
        requires
            old(tree).wf(),
            old(tree).contains(*self),
            parent matches Some(q) ==> old(tree).contains(q),
        ensures
            final(tree).wf(),
            ok == match parent {
                Some(q) => !on_chain(old(tree)@, q.id() as int, self.id() as int),
                None => true,
            },
            ok ==> final(tree)@ == old(tree)@.update(
                self.id() as int,
                NodeView {
                    parent: match parent {
                        Some(q) => Some(q.id()),
                        None => None,
                    },
                    ..old(tree)@[self.id() as int]
                },
            ),
            !ok ==> final(tree)@ == old(tree)@,
    {
        let p = match parent {
            Some(q) => {
                if tree.chain_holds(q.index, self.index) {
                    return false;
                }
                Some(q.index)
            },
            None => None,
        };
        let ghost t0 = tree@;
        let ghost b = tree.bound();
        tree.nodes[self.index].parent = p;
        proof {
            let t = tree@;
            let i = self.id() as int;
            assert(t =~= t0.update(i, NodeView { parent: p, ..t0[i] }));
            assert(node_ok(t0, i));
            lemma_replace_ok(t0, i, t[i]);
            lemma_link_parent(t0, t, i, p, b);
        }
        tree.bound = Ghost(2 * b + 1);
        true
    }

    /// Removes the child at position `pos` of this element's children and
    /// returns it; `None`, with nothing changed, where there is no such
    /// position. The removed element and its subtree stay in the arena but
    /// are no longer reached from this element.
    pub fn remove_child(&self, tree: &mut ElementTree, pos: usize) -> (r: Option<Element>)
        requires
            old(tree).wf(),
            old(tree).contains(*self),
        ensures
            final(tree).wf(),
            match r {
                Some(c) => {
                    &&& pos < old(tree)@[self.id() as int].children.len()
                    &&& c.id() == old(tree)@[self.id() as int].children[pos as int]
                    &&& final(tree)@ == old(tree)@.update(
                        self.id() as int,
                        NodeView {
                            children: old(tree)@[self.id() as int].children.remove(pos as int),
                            ..old(tree)@[self.id() as int]
                        },
                    )
                },
                None => pos >= old(tree)@[self.id() as int].children.len() && final(tree)@ == old(tree)@,
            },
            single_parent(old(tree)@) ==> single_parent(final(tree)@),
    {
        if pos >= tree.nodes[self.index].children.len() {
            return None;
        }
        let c = tree.nodes[self.index].children.remove(pos);
        proof {
            let t = tree@;
            let t0 = old(tree)@;
            let i = self.id() as int;
            assert(t =~= t0.update(i, NodeView { children: t0[i].children.remove(pos as int), ..t0[i] }));
            assert(node_ok(t0, i));
            assert(node_ok(t, i)) by {
                assert forall|k: int| 0 <= k < t[i].children.len() implies #[trigger] t[i].children[k] < t.len() by {
                    if k < pos {
                        assert(t[i].children[k] == t0[i].children[k]);
                    } else {
                        assert(t[i].children[k] == t0[i].children[k + 1]);
                    }
                }
            }
            lemma_replace_ok(t0, i, t[i]);
            lemma_unlink_child(t0, t, i, pos as int, tree.bound());
            if single_parent(t0) {
                assert forall|a: int, k: int, b: int, l: int|
                    0 <= a < t.len() && 0 <= b < t.len() && 0 <= k < t[a].children.len() && 0 <= l < t[b].children.len()
                        && #[trigger] t[a].children[k] == #[trigger] t[b].children[l] implies a == b && k == l by {
                    let k0 = if a == i && k >= pos { k + 1 } else { k };
                    let l0 = if b == i && l >= pos { l + 1 } else { l };
                    assert(t[a].children[k] == t0[a].children[k0]);
                    assert(t[b].children[l] == t0[b].children[l0]);
                }
            }
        }
        Some(Element { index: c })
    }

    /// The style of this element.
    pub fn style<'a>(&self, tree: &'a ElementTree) -> (s: &'a Style)
        requires
            tree.contains(*self),
        ensures
            s@ == tree@[self.id() as int].style,
    {
        &tree.nodes[self.index].style
    }

    /// Replaces the style of this element.
    pub fn set_style(&self, tree: &mut ElementTree, style: Style)
        requires
            old(tree).wf(),
            old(tree).contains(*self),
        ensures
            final(tree).wf(),
            final(tree)@ == old(tree)@.update(
                self.id() as int,
                NodeView { style: style@, ..old(tree)@[self.id() as int] },
            ),
    {
        tree.nodes[self.index].style = style;
        proof {
            let t = tree@;
            let t0 = old(tree)@;
            let i = self.id() as int;
            assert(t =~= t0.update(i, NodeView { style: style@, ..t0[i] }));
            assert(node_ok(t0, i));
            lemma_replace_ok(t0, i, t[i]);
            assert forall|j: int| 0 <= j < t0.len() implies #[trigger] t[j].parent == t0[j].parent && t[j].children == t0[j].children by {
                if j != i {
                    assert(t[j] == t0[j]);
                }
            }
            lemma_bounded_frame(t0, t, tree.bound());
        }
    }
}

/// `v` as a value of `i64`, if it is one.
pub open spec fn checked(v: int) -> Option<int> {
    if i64::MIN <= v <= i64::MAX {
        Some(v)
    } else {
        None
    }
}

/// What an `Option<i64>` says, over the integers.
pub open spec fn as_int(r: Option<i64>) -> Option<int> {
    match r {
        Some(v) => Some(v as int),
        None => None,
    }
}

/// The fraction `p / PERC_ONE` of the length `len`, rounded down.
pub open spec fn scaled(len: int, p: int) -> int {
    (len * p) / (PERC_ONE as int)
}

/// The length of the viewport along one axis (`horizontal` for the width).
pub open spec fn viewport_len(ws: WindowSize, horizontal: bool) -> int {
    if horizontal {
        ws.width as int
    } else {
        ws.height as int
    }
}

/// The size coordinate of a style along one axis.
pub open spec fn size_coord(s: StyleView, horizontal: bool) -> CoordValue {
    if horizontal {
        s.width
    } else {
        s.height
    }
}

/// The offset coordinate of a style along one axis.
pub open spec fn offset_coord(s: StyleView, horizontal: bool) -> CoordValue {
    if horizontal {
        s.x
    } else {
        s.y
    }
}

/// The parent of node `i`, as its back-reference records it.
pub open spec fn parent_of(t: Seq<NodeView>, i: int) -> Option<int> {
    match t[i].parent {
        Some(p) => Some(p as int),
        None => None,
    }
}

/// A number of nodes within which the chain of parents from `i` ends.
pub open spec fn up_depth(t: Seq<NodeView>, i: int) -> nat {
    choose|n: nat| up_ok(t, i, n)
}

/// A number of nodes within which every path down from `i` ends.
pub open spec fn down_depth(t: Seq<NodeView>, i: int) -> nat {
    choose|n: nat| down_ok(t, i, n)
}

/// The content size of node `i` along one axis, over its first `k`
/// children, looking at most `n` levels down: the sum of what each child
/// contributes. A pixel size contributes itself, a fraction nothing, and an
/// automatic size the child's own content size.
///
/// The content size of an automatic child is the child's own, not that of
/// the element being measured: taking the latter would measure an element
/// in terms of itself and never finish.
pub open spec fn content_size(t: Seq<NodeView>, i: int, k: int, horizontal: bool, n: nat) -> Option<int>
    decreases n, k,
{
    if n == 0 {
        None
    } else if 0 < k <= t[i].children.len() {
        match content_size(t, i, k - 1, horizontal, n) {
            Some(sum) => {
                let c = t[i].children[k - 1] as int;
                let part = match size_coord(t[c].style, horizontal) {
                    CoordValue::Px(v) => Some(v as int),
                    CoordValue::Perc(_) => Some(0int),
                    CoordValue::Auto => content_size(t, c, t[c].children.len() as int, horizontal, (n - 1) as nat),
                };
                match part {
                    Some(w) => checked(sum + w),
                    None => None,
                }
            },
            None => None,
        }
    } else {
        Some(0)
    }
}

/// The content size of node `i` over all its children.
pub open spec fn content_of(t: Seq<NodeView>, i: int, horizontal: bool) -> Option<int> {
    content_size(t, i, t[i].children.len() as int, horizontal, down_depth(t, i))
}

/// The resolved size of node `i` along one axis, following at most `n`
/// nodes of the chain of parents.
pub open spec fn size_within(t: Seq<NodeView>, i: int, ws: WindowSize, horizontal: bool, n: nat) -> Option<int>
    decreases n,
{
    if n == 0 {
        None
    } else {
        match size_coord(t[i].style, horizontal) {
            CoordValue::Px(v) => Some(v as int),
            CoordValue::Perc(p) => match parent_of(t, i) {
                Some(q) => match size_within(t, q, ws, horizontal, (n - 1) as nat) {
                    Some(l) => checked(scaled(l, p as int)),
                    None => None,
                },
                None => checked(scaled(viewport_len(ws, horizontal), p as int)),
            },
            CoordValue::Auto => content_of(t, i, horizontal),
        }
    }
}

/// The resolved size of node `i` along one axis: a pixel size is itself; a
/// fraction scales the parent's resolved size, or the viewport's where
/// there is no parent; an automatic size is the content size.
pub open spec fn size_of(t: Seq<NodeView>, i: int, ws: WindowSize, horizontal: bool) -> Option<int> {
    size_within(t, i, ws, horizontal, up_depth(t, i))
}

/// The resolved offset of node `i` along one axis, following at most `n`
/// nodes of the chain of parents.
pub open spec fn offset_within(t: Seq<NodeView>, i: int, ws: WindowSize, horizontal: bool, n: nat) -> Option<int>
    decreases n,
{
    if n == 0 {
        None
    } else {
        match offset_coord(t[i].style, horizontal) {
            CoordValue::Px(v) => if t[i].style.absolute {
                Some(v as int)
            } else {
                match parent_of(t, i) {
                    Some(q) => match offset_within(t, q, ws, horizontal, (n - 1) as nat) {
                        Some(o) => checked(o + v),
                        None => None,
                    },
                    None => Some(v as int),
                }
            },
            CoordValue::Perc(p) => match parent_of(t, i) {
                Some(q) => match size_of(t, q, ws, horizontal) {
                    Some(l) => match checked(scaled(l, p as int)) {
                        Some(d) => match offset_within(t, q, ws, horizontal, (n - 1) as nat) {
                            Some(o) => checked(d + o),
                            None => None,
                        },
                        None => None,
                    },
                    None => None,
                },
                None => checked(scaled(viewport_len(ws, horizontal), p as int)),
            },
            CoordValue::Auto => match parent_of(t, i) {
                Some(q) => offset_within(t, q, ws, horizontal, (n - 1) as nat),
                None => Some(0),
            },
        }
    }
}

/// The resolved offset of node `i` along one axis. A pixel offset is taken
/// from the origin when the node is absolute, else from the parent's
/// resolved offset (from the origin where there is no parent). A fraction
/// scales the parent's resolved size and adds the parent's offset (or scales
/// the viewport). An automatic offset is the parent's offset, or zero.
pub open spec fn offset_of(t: Seq<NodeView>, i: int, ws: WindowSize, horizontal: bool) -> Option<int> {
    offset_within(t, i, ws, horizontal, up_depth(t, i))
}

/// Content sizes do not depend on how far down they may look, once every
/// path ends within that far.
pub proof fn lemma_content_fuel(t: Seq<NodeView>, i: int, k: int, horizontal: bool, n1: nat, n2: nat)
    requires
        down_ok(t, i, n1),
        down_ok(t, i, n2),
        0 <= k <= t[i].children.len(),
    ensures
        content_size(t, i, k, horizontal, n1) == content_size(t, i, k, horizontal, n2),
    decreases n1, k,
{
    if k > 0 {
        lemma_content_fuel(t, i, k - 1, horizontal, n1, n2);
        let c = t[i].children[k - 1] as int;
        assert(down_ok(t, c, (n1 - 1) as nat));
        assert(down_ok(t, c, (n2 - 1) as nat));
        lemma_content_fuel(t, c, t[c].children.len() as int, horizontal, (n1 - 1) as nat, (n2 - 1) as nat);
    }
}

/// Sizes do not depend on how far up they may look, once the chain of
/// parents ends within that far.
pub proof fn lemma_size_fuel(t: Seq<NodeView>, i: int, ws: WindowSize, horizontal: bool, n1: nat, n2: nat)
    requires
        up_ok(t, i, n1),
        up_ok(t, i, n2),
    ensures
        size_within(t, i, ws, horizontal, n1) == size_within(t, i, ws, horizontal, n2),
    decreases n1,
{
    if let Some(q) = t[i].parent {
        lemma_size_fuel(t, q as int, ws, horizontal, (n1 - 1) as nat, (n2 - 1) as nat);
    }
}

/// Offsets do not depend on how far up they may look, once the chain of
/// parents ends within that far.
pub proof fn lemma_offset_fuel(t: Seq<NodeView>, i: int, ws: WindowSize, horizontal: bool, n1: nat, n2: nat)
    requires
        up_ok(t, i, n1),
        up_ok(t, i, n2),
    ensures
        offset_within(t, i, ws, horizontal, n1) == offset_within(t, i, ws, horizontal, n2),
    decreases n1,
{
    if let Some(q) = t[i].parent {
        lemma_offset_fuel(t, q as int, ws, horizontal, (n1 - 1) as nat, (n2 - 1) as nat);
    }
}

proof fn lemma_floor_div_neg(m: int, d: int)
    requires
        m > 0,
        d > 0,
    ensures
        -((m + d - 1) / d) == (-m) / d,
{
    let a = (m + d - 1) / d;
    let r = (m + d - 1) % d;
    vstd::arithmetic::div_mod::lemma_fundamental_div_mod(m + d - 1, d);
    assert(-m == (-a) * d + (d - 1 - r)) by (nonlinear_arith)
        requires
            m + d - 1 == d * a + r,
    ;
    vstd::arithmetic::div_mod::lemma_fundamental_div_mod_converse(-m, d, -a, d - 1 - r);
}

/// The fraction `p / PERC_ONE` of `len`, rounded down, if it fits.
fn scale(len: i64, p: i32) -> (r: Option<i64>)
    ensures
        as_int(r) == checked(scaled(len as int, p as int)),
{
    assert(-0x1_0000_0000_0000_0000_0000_0000 <= (len as int) * (p as int) <= 0x1_0000_0000_0000_0000_0000_0000)
        by (nonlinear_arith)
        requires
            i64::MIN <= len <= i64::MAX,
            i32::MIN <= p <= i32::MAX,
    ;
    let prod: i128 = (len as i128) * (p as i128);
    let q: i128 = if prod >= 0 {
        prod / 10000
    } else {
        proof {
            lemma_floor_div_neg(-prod, 10000);
        }
        -((-prod + 9999) / 10000)
    };
    if q < i64::MIN as i128 || q > i64::MAX as i128 {
        None
    } else {
        Some(q as i64)
    }
}

/// `a + b`, if it fits.
fn checked_sum(a: i64, b: i64) -> (r: Option<i64>)
    ensures
        as_int(r) == checked(a + b),
{
    a.checked_add(b)
}

proof fn lemma_content_none(t: Seq<NodeView>, i: int, k: int, m: int, horizontal: bool, n: nat)
    requires
        0 <= k <= m <= t[i].children.len(),
        content_size(t, i, k, horizontal, n).is_none(),
    ensures
        content_size(t, i, m, horizontal, n).is_none(),
    decreases m - k,
{
    if k < m {
        lemma_content_none(t, i, k + 1, m, horizontal, n);
    }
}

impl ElementTree {
    fn coord_of_size(&self, i: usize, horizontal: bool) -> (c: CoordValue)
        requires
            i < self@.len(),
        ensures
            c == size_coord(self@[i as int].style, horizontal),
    {
        if horizontal {
            self.nodes[i].style.width.get()
        } else {
            self.nodes[i].style.height.get()
        }
    }

    fn coord_of_offset(&self, i: usize, horizontal: bool) -> (c: CoordValue)
        requires
            i < self@.len(),
        ensures
            c == offset_coord(self@[i as int].style, horizontal),
    {
        if horizontal {
            self.nodes[i].style.x.get()
        } else {
            self.nodes[i].style.y.get()
        }
    }

    fn parent_index(&self, i: usize) -> (p: Option<usize>)
        requires
            self.wf(),
            i < self@.len(),
        ensures
            match p {
                Some(q) => parent_of(self@, i as int) == Some(q as int) && q < self@.len(),
                None => parent_of(self@, i as int).is_none(),
            },
    {
        assert(node_ok(self@, i as int));
        self.nodes[i].parent
    }

    fn content_within(&self, i: usize, horizontal: bool, Ghost(n): Ghost<nat>) -> (r: Option<i64>)
        requires
            self.wf(),
            i < self@.len(),
            down_ok(self@, i as int, n),
        ensures
            as_int(r) == content_size(self@, i as int, self@[i as int].children.len() as int, horizontal, n),
        decreases n,
    {
        let len = self.nodes[i].children.len();
        let mut sum: i64 = 0;
        let mut k: usize = 0;
        assert(node_ok(self@, i as int));
        while k < len
            invariant
                self.wf(),
                i < self@.len(),
                node_ok(self@, i as int),
                down_ok(self@, i as int, n),
                len == self@[i as int].children.len(),
                k <= len,
                content_size(self@, i as int, k as int, horizontal, n) == Some(sum as int),
            decreases len - k,
        {
            let c = self.nodes[i].children[k];
            assert(c == self@[i as int].children[k as int]);
            assert(down_ok(self@, c as int, (n - 1) as nat));
            let part: i64 = match self.coord_of_size(c, horizontal) {
                CoordValue::Px(v) => v as i64,
                CoordValue::Perc(_) => 0,
                CoordValue::Auto => match self.content_within(c, horizontal, Ghost((n - 1) as nat)) {
                    Some(w) => w,
                    None => {
                        proof {
                            lemma_content_none(self@, i as int, k as int + 1, len as int, horizontal, n);
                        }
                        return None;
                    },
                },
            };
            match checked_sum(sum, part) {
                Some(s) => {
                    sum = s;
                },
                None => {
                    proof {
                        lemma_content_none(self@, i as int, k as int + 1, len as int, horizontal, n);
                    }
                    return None;
                },
            }
            k = k + 1;
        }
        Some(sum)
    }

    fn content(&self, i: usize, horizontal: bool) -> (r: Option<i64>)
        requires
            self.wf(),
            i < self@.len(),
        ensures
            as_int(r) == content_of(self@, i as int, horizontal),
    {
        assert(down_ok(self@, i as int, self.bound()));
        assert(node_ok(self@, i as int));
        proof {
            lemma_content_fuel(
                self@, i as int, self@[i as int].children.len() as int, horizontal,
                self.bound(), down_depth(self@, i as int),
            );
        }
        self.content_within(i, horizontal, Ghost(self.bound()))
    }

    fn size_within(&self, i: usize, ws: WindowSize, horizontal: bool, Ghost(n): Ghost<nat>) -> (r: Option<i64>)
        requires
            self.wf(),
            i < self@.len(),
            up_ok(self@, i as int, n),
        ensures
            as_int(r) == size_within(self@, i as int, ws, horizontal, n),
        decreases n,
    {
        match self.coord_of_size(i, horizontal) {
            CoordValue::Px(v) => Some(v as i64),
            CoordValue::Perc(p) => match self.parent_index(i) {
                Some(q) => match self.size_within(q, ws, horizontal, Ghost((n - 1) as nat)) {
                    Some(l) => scale(l, p),
                    None => None,
                },
                None => {
                    let l: u32 = if horizontal { ws.width } else { ws.height };
                    scale(l as i64, p)
                },
            },
            CoordValue::Auto => self.content(i, horizontal),
        }
    }

    fn size(&self, i: usize, ws: WindowSize, horizontal: bool) -> (r: Option<i64>)
        requires
            self.wf(),
            i < self@.len(),
        ensures
            as_int(r) == size_of(self@, i as int, ws, horizontal),
    {
        assert(up_ok(self@, i as int, self.bound()));
        proof {
            lemma_size_fuel(self@, i as int, ws, horizontal, self.bound(), up_depth(self@, i as int));
        }
        self.size_within(i, ws, horizontal, Ghost(self.bound()))
    }

    fn offset_within(&self, i: usize, ws: WindowSize, horizontal: bool, Ghost(n): Ghost<nat>) -> (r: Option<i64>)
        requires
            self.wf(),
            i < self@.len(),
            up_ok(self@, i as int, n),
        ensures
            as_int(r) == offset_within(self@, i as int, ws, horizontal, n),
        decreases n,
    {
        match self.coord_of_offset(i, horizontal) {
            CoordValue::Px(v) => if self.nodes[i].style.position.is_absolute() {
                Some(v as i64)
            } else {
                match self.parent_index(i) {
                    Some(q) => match self.offset_within(q, ws, horizontal, Ghost((n - 1) as nat)) {
                        Some(o) => checked_sum(o, v as i64),
                        None => None,
                    },
                    None => Some(v as i64),
                }
            },
            CoordValue::Perc(p) => match self.parent_index(i) {
                Some(q) => match self.size(q, ws, horizontal) {
                    Some(l) => match scale(l, p) {
                        Some(d) => match self.offset_within(q, ws, horizontal, Ghost((n - 1) as nat)) {
                            Some(o) => checked_sum(d, o),
                            None => None,
                        },
                        None => None,
                    },
                    None => None,
                },
                None => {
                    let l: u32 = if horizontal { ws.width } else { ws.height };
                    scale(l as i64, p)
                },
            },
            CoordValue::Auto => match self.parent_index(i) {
                Some(q) => self.offset_within(q, ws, horizontal, Ghost((n - 1) as nat)),
                None => Some(0),
            },
        }
    }

    fn offset(&self, i: usize, ws: WindowSize, horizontal: bool) -> (r: Option<i64>)
        requires
            self.wf(),
            i < self@.len(),
        ensures
            as_int(r) == offset_of(self@, i as int, ws, horizontal),
    {
        assert(up_ok(self@, i as int, self.bound()));
        proof {
            lemma_offset_fuel(self@, i as int, ws, horizontal, self.bound(), up_depth(self@, i as int));
        }
        self.offset_within(i, ws, horizontal, Ghost(self.bound()))
    }
}

impl Element {
    /// The content width: what the children's widths add up to.
    pub fn get_content_width(&self, tree: &ElementTree) -> (r: Option<i64>)
        requires
            tree.wf(),
            tree.contains(*self),
        ensures
            as_int(r) == content_of(tree@, self.id() as int, true),
    {
        tree.content(self.index, true)
    }

    /// The content height: what the children's heights add up to.
    pub fn get_content_height(&self, tree: &ElementTree) -> (r: Option<i64>)
        requires
            tree.wf(),
            tree.contains(*self),
        ensures
            as_int(r) == content_of(tree@, self.id() as int, false),
    {
        tree.content(self.index, false)
    }

    /// The resolved width.
    pub fn get_width(&self, tree: &ElementTree, ws: WindowSize) -> (r: Option<i64>)
        requires
            tree.wf(),
            tree.contains(*self),
        ensures
            as_int(r) == size_of(tree@, self.id() as int, ws, true),
    {
        tree.size(self.index, ws, true)
    }

    /// The resolved height.
    pub fn get_height(&self, tree: &ElementTree, ws: WindowSize) -> (r: Option<i64>)
        requires
            tree.wf(),
            tree.contains(*self),
        ensures
            as_int(r) == size_of(tree@, self.id() as int, ws, false),
    {
        tree.size(self.index, ws, false)
    }

    /// The resolved horizontal offset.
    pub fn get_x(&self, tree: &ElementTree, ws: WindowSize) -> (r: Option<i64>)
        requires
            tree.wf(),
            tree.contains(*self),
        ensures
            as_int(r) == offset_of(tree@, self.id() as int, ws, true),
    {
        tree.offset(self.index, ws, true)
    }

    /// The resolved vertical offset.
    pub fn get_y(&self, tree: &ElementTree, ws: WindowSize) -> (r: Option<i64>)
        requires
            tree.wf(),
            tree.contains(*self),
        ensures
            as_int(r) == offset_of(tree@, self.id() as int, ws, false),
    {
        tree.offset(self.index, ws, false)
    }
}


/// One rectangle to draw: its extent in pixels and its color.
#[derive(Clone, Copy, Debug, PartialEq, Eq, Structural)]
pub struct DrawRecord {
    pub x_min: i64,
    pub x_max: i64,
    pub y_min: i64,
    pub y_max: i64,
    pub color: Color,
}

/// What node `i` draws itself: one record where its background is a solid
/// color with alpha above zero, none otherwise. `None` where its geometry
/// does not resolve.
pub open spec fn own_records(t: Seq<NodeView>, i: int, ws: WindowSize) -> Option<Seq<DrawRecord>> {
    match t[i].style.background {
        BackgroundType::Solid(c) => if is_positive(c.a) {
            match (offset_of(t, i, ws, true), offset_of(t, i, ws, false), size_of(t, i, ws, true), size_of(t, i, ws, false)) {
                (Some(x), Some(y), Some(w), Some(h)) => match (checked(x + w), checked(y + h)) {
                    (Some(x_max), Some(y_max)) => Some(
                        seq![DrawRecord { x_min: x as i64, x_max: x_max as i64, y_min: y as i64, y_max: y_max as i64, color: c }],
                    ),
                    _ => None,
                },
                _ => None,
            }
        } else {
            Some(Seq::empty())
        },
        BackgroundType::Empty => Some(Seq::empty()),
    }
}

/// The records of node `i` and of the subtrees of its first `k` children, in
/// pre-order (the node first, then each child's subtree in turn), looking
/// at most `n` levels down.
pub open spec fn records_upto(t: Seq<NodeView>, i: int, k: int, ws: WindowSize, n: nat) -> Option<Seq<DrawRecord>>
    decreases n, k,
{
    if n == 0 {
        None
    } else if 0 < k <= t[i].children.len() {
        match records_upto(t, i, k - 1, ws, n) {
            Some(prev) => {
                let c = t[i].children[k - 1] as int;
                match records_upto(t, c, t[c].children.len() as int, ws, (n - 1) as nat) {
                    Some(sub) => Some(prev + sub),
                    None => None,
                }
            },
            None => None,
        }
    } else {
        own_records(t, i, ws)
    }
}

/// The records of the subtree of node `i`, in pre-order.
pub open spec fn records_of(t: Seq<NodeView>, i: int, ws: WindowSize) -> Option<Seq<DrawRecord>> {
    records_upto(t, i, t[i].children.len() as int, ws, down_depth(t, i))
}

/// Records do not depend on how far down they may look, once every path
/// ends within that far.
pub proof fn lemma_records_fuel(t: Seq<NodeView>, i: int, k: int, ws: WindowSize, n1: nat, n2: nat)
    requires
        down_ok(t, i, n1),
        down_ok(t, i, n2),
        0 <= k <= t[i].children.len(),
    ensures
        records_upto(t, i, k, ws, n1) == records_upto(t, i, k, ws, n2),
    decreases n1, k,
{
    if k > 0 {
        lemma_records_fuel(t, i, k - 1, ws, n1, n2);
        let c = t[i].children[k - 1] as int;
        assert(down_ok(t, c, (n1 - 1) as nat));
        assert(down_ok(t, c, (n2 - 1) as nat));
        lemma_records_fuel(t, c, t[c].children.len() as int, ws, (n1 - 1) as nat, (n2 - 1) as nat);
    }
}

proof fn lemma_records_none(t: Seq<NodeView>, i: int, k: int, m: int, ws: WindowSize, n: nat)
    requires
        0 <= k <= m <= t[i].children.len(),
        records_upto(t, i, k, ws, n).is_none(),
    ensures
        records_upto(t, i, m, ws, n).is_none(),
    decreases m - k,
{
    if k < m {
        lemma_records_none(t, i, k + 1, m, ws, n);
    }
}

impl ElementTree {
    /// Appends what node `i` draws itself; `false` where its geometry does
    /// not resolve.
    fn own_data(&self, i: usize, ws: WindowSize, data: &mut Vec<DrawRecord>) -> (ok: bool)
        requires
            self.wf(),
            i < self@.len(),
        ensures
            ok == own_records(self@, i as int, ws).is_some(),
            ok ==> final(data)@ == old(data)@ + own_records(self@, i as int, ws).unwrap(),
    {
        match self.nodes[i].style.background.get() {
            BackgroundType::Solid(c) => {
                if c.is_visible() {
                    let x = match self.offset(i, ws, true) { Some(v) => v, None => return false };
                    let y = match self.offset(i, ws, false) { Some(v) => v, None => return false };
                    let w = match self.size(i, ws, true) { Some(v) => v, None => return false };
                    let h = match self.size(i, ws, false) { Some(v) => v, None => return false };
                    let x_max = match checked_sum(x, w) { Some(v) => v, None => return false };
                    let y_max = match checked_sum(y, h) { Some(v) => v, None => return false };
                    let r = DrawRecord { x_min: x, x_max, y_min: y, y_max, color: c };
                    data.push(r);
                    assert(data@ =~= old(data)@ + seq![r]);
                } else {
                    assert(data@ =~= old(data)@ + Seq::<DrawRecord>::empty());
                }
                true
            },
            BackgroundType::Empty => {
                assert(data@ =~= old(data)@ + Seq::<DrawRecord>::empty());
                true
            },
        }
    }

    /// Appends the records of the subtree of node `i`, in pre-order, looking
    /// at most `n` levels down; `false` where some geometry does not resolve.
    fn data_loop(&self, i: usize, ws: WindowSize, data: &mut Vec<DrawRecord>, Ghost(n): Ghost<nat>) -> (ok: bool)
        requires
            self.wf(),
            i < self@.len(),
            down_ok(self@, i as int, n),
        ensures
            ok == records_upto(self@, i as int, self@[i as int].children.len() as int, ws, n).is_some(),
            ok ==> final(data)@ == old(data)@ + records_upto(
                self@, i as int, self@[i as int].children.len() as int, ws, n,
            ).unwrap(),
        decreases n,
    {
        let len = self.nodes[i].children.len();
        assert(node_ok(self@, i as int));
        if !self.own_data(i, ws, data) {
            proof {
                lemma_records_none(self@, i as int, 0, len as int, ws, n);
            }
            return false;
        }
        let mut k: usize = 0;
        while k < len
            invariant
                self.wf(),
                i < self@.len(),
                node_ok(self@, i as int),
                down_ok(self@, i as int, n),
                len == self@[i as int].children.len(),
                k <= len,
                records_upto(self@, i as int, k as int, ws, n).is_some(),
                data@ == old(data)@ + records_upto(self@, i as int, k as int, ws, n).unwrap(),
            decreases len - k,
        {
            let c = self.nodes[i].children[k];
            assert(c == self@[i as int].children[k as int]);
            assert(down_ok(self@, c as int, (n - 1) as nat));
            if !self.data_loop(c, ws, data, Ghost((n - 1) as nat)) {
                proof {
                    lemma_records_none(self@, i as int, k as int + 1, len as int, ws, n);
                }
                return false;
            }
            proof {
                let prev = records_upto(self@, i as int, k as int, ws, n).unwrap();
                let sub = records_upto(self@, c as int, self@[c as int].children.len() as int, ws, (n - 1) as nat).unwrap();
                assert(data@ =~= old(data)@ + (prev + sub));
            }
            k = k + 1;
        }
        true
    }
}

impl Element {
    /// The draw records of this element's subtree, in pre-order: one for each
    /// element whose background is a solid color with alpha above zero.
    /// `None` where the geometry of such an element does not resolve.
    pub fn get_data(&self, tree: &ElementTree, ws: WindowSize) -> (r: Option<Vec<DrawRecord>>)
        requires
            tree.wf(),
            tree.contains(*self),
        ensures
            match r {
                Some(v) => records_of(tree@, self.id() as int, ws) == Some(v@),
                None => records_of(tree@, self.id() as int, ws).is_none(),
            },
    {
        let mut data: Vec<DrawRecord> = Vec::new();
        assert(down_ok(tree@, self.id() as int, tree.bound()));
        assert(node_ok(tree@, self.id() as int));
        proof {
            lemma_records_fuel(
                tree@, self.id() as int, tree@[self.id() as int].children.len() as int, ws,
                tree.bound(), down_depth(tree@, self.id() as int),
            );
        }
        if tree.data_loop(self.index, ws, &mut data, Ghost(tree.bound())) {
            assert(data@ =~= records_of(tree@, self.id() as int, ws).unwrap());
            Some(data)
        } else {
            None
        }
    }
}

} // verus!
