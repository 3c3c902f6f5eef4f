//! Properties of resolution, flattening and the frame buffer.
use vstd::prelude::*;

use crate::background::BackgroundType;
use crate::buffer::{buffer_of, record_words, words_of, BufferWord, PADDING_LEN, RECORD_LEN};
use crate::color::is_positive;
use crate::coord::CoordValue;
use crate::element::{
    checked, content_of, content_size, down_depth, lemma_content_fuel, lemma_offset_fuel, lemma_records_fuel,
    lemma_size_fuel, node_ok, offset_of, offset_within, own_records, parent_of, records_of, records_upto,
    single_parent, size_of, size_within, up_depth, wf_nodes, DrawRecord, ElementTree, NodeView, WindowSize,
};
use crate::graph::{acyclic, bounded, down_ok, reach_within, reaches, up_ok};

verus! {

/// Resolution keeps no state of its own: two arenas with the same contents
/// give the same width, height and offsets for every element and viewport,
/// so resolving twice without a change in between gives the same results.
pub proof fn law_resolution_repeats(t1: &ElementTree, t2: &ElementTree, i: int, ws: WindowSize)
    requires
        t1@ == t2@,
    ensures
        size_of(t1@, i, ws, true) == size_of(t2@, i, ws, true),
        size_of(t1@, i, ws, false) == size_of(t2@, i, ws, false),
        offset_of(t1@, i, ws, true) == offset_of(t2@, i, ws, true),
        offset_of(t1@, i, ws, false) == offset_of(t2@, i, ws, false),
{
}

/// An absolute element with pixel offsets `x` and `y` resolves to exactly
/// `(x, y)`, whatever its parent's offset.
pub proof fn law_absolute_pixel_offset(t: Seq<NodeView>, i: int, ws: WindowSize, x: i32, y: i32)
    requires
        wf_nodes(t),
        acyclic(t),
        0 <= i < t.len(),
        t[i].style.absolute,
        t[i].style.x == CoordValue::Px(x),
        t[i].style.y == CoordValue::Px(y),
    ensures
        offset_of(t, i, ws, true) == Some(x as int),
        offset_of(t, i, ws, false) == Some(y as int),
{
    let b = choose|b: nat| bounded(t, b);
    assert(up_ok(t, i, b));
    assert(up_ok(t, i, up_depth(t, i)));
}

/// A relative element with pixel offset `x` whose parent resolves to
/// offset `o` resolves to `o + x` (where that fits in 64 bits).
pub proof fn law_relative_pixel_offset(t: Seq<NodeView>, i: int, ws: WindowSize, x: i32, o: int)
    requires
        wf_nodes(t),
        acyclic(t),
        0 <= i < t.len(),
        !t[i].style.absolute,
        t[i].style.x == CoordValue::Px(x),
        parent_of(t, i) matches Some(q) && offset_of(t, q, ws, true) == Some(o),
    ensures
        offset_of(t, i, ws, true) == checked(o + x),
{
    let b = choose|b: nat| bounded(t, b);
    let q = parent_of(t, i).unwrap();
    assert(node_ok(t, i));
    assert(up_ok(t, i, b));
    assert(up_ok(t, q, b));
    let d = up_depth(t, i);
    assert(up_ok(t, i, d));
    assert(up_ok(t, q, up_depth(t, q)));
    lemma_offset_fuel(t, q, ws, true, (d - 1) as nat, up_depth(t, q));
}

/// An element whose background is a solid color with alpha at or below zero
/// (or not a number) draws nothing itself.
pub proof fn law_invisible_draws_nothing(t: Seq<NodeView>, i: int, ws: WindowSize)
    requires
        t[i].style.background matches BackgroundType::Solid(c) && !is_positive(c.a),
    ensures
        own_records(t, i, ws) == Some(Seq::<DrawRecord>::empty()),
{
}

/// An element whose background is a solid color with alpha above zero, and
/// whose geometry resolves, draws exactly one record, which begins with the
/// rectangle tag and carries that color.
pub proof fn law_visible_draws_one(t: Seq<NodeView>, i: int, ws: WindowSize)
    requires
        t[i].style.background matches BackgroundType::Solid(c) && is_positive(c.a),
        own_records(t, i, ws).is_some(),
    ensures
        own_records(t, i, ws).unwrap().len() == 1,
        record_words(own_records(t, i, ws).unwrap()[0])[0] == BufferWord::Tag,
        t[i].style.background == BackgroundType::Solid(own_records(t, i, ws).unwrap()[0].color),
{
}

proof fn lemma_words_len(s: Seq<DrawRecord>)
    ensures
        words_of(s).len() == s.len() * RECORD_LEN,
    decreases s.len(),
{
    if s.len() > 0 {
        lemma_words_len(s.drop_last());
    }
}

/// A frame buffer is never empty: nine values for each record, or the four
/// zeros of the padding where there is no record.
pub proof fn law_buffer_never_empty(s: Seq<DrawRecord>)
    ensures
        buffer_of(s).len() == if s.len() == 0 {
            PADDING_LEN as int
        } else {
            s.len() * RECORD_LEN
        },
        buffer_of(s).len() > 0,
        s.len() == 0 ==> (forall|k: int| 0 <= k < buffer_of(s).len() ==> buffer_of(s)[k] == BufferWord::Zero),
{
    lemma_words_len(s);
    assert(s.len() > 0 ==> s.len() * RECORD_LEN > 0) by (nonlinear_arith);
}


/// Some node `x` of the subtree of `c` lists `y` as its child, where `y` lies
/// in that subtree (within `n` nodes of `c`) and is not `c`.
proof fn lemma_last_edge(t: Seq<NodeView>, c: int, y: int, n: nat) -> (e: (int, int))
    requires
        wf_nodes(t),
        0 <= c < t.len(),
        reach_within(t, c, y, n),
        c != y,
    ensures
        reaches(t, c, e.0),
        0 <= e.0 < t.len(),
        0 <= e.1 < t[e.0].children.len(),
        t[e.0].children[e.1] == y,
    decreases n,
{
    assert(reach_within(t, c, c, 1));
    let k = choose|k: int|
        0 <= k < t[c].children.len() && reach_within(t, #[trigger] t[c].children[k] as int, y, (n - 1) as nat);
    let ch = t[c].children[k] as int;
    assert(node_ok(t, c));
    if ch == y {
        (c, k)
    } else {
        let e = lemma_last_edge(t, ch, y, (n - 1) as nat);
        let m = choose|m: nat| reach_within(t, ch, e.0, m);
        assert(reach_within(t, c, e.0, m + 1));
        e
    }
}

/// A path of at most `n` nodes from `j` to `d` after the removal is
/// impossible.
proof fn lemma_detached(t: Seq<NodeView>, t2: Seq<NodeView>, p: int, pos: int, j: int, d: int, n: nat)
    requires
        wf_nodes(t),
        single_parent(t),
        0 <= p < t.len(),
        0 <= pos < t[p].children.len(),
        0 <= j < t.len(),
        t2 == t.update(p, NodeView { children: t[p].children.remove(pos), ..t[p] }),
        reaches(t, t[p].children[pos] as int, d),
        !reaches(t, t[p].children[pos] as int, j),
    ensures
        !reach_within(t2, j, d, n),
    decreases n,
{
    let c = t[p].children[pos] as int;
    assert(node_ok(t, p));
    if reach_within(t2, j, d, n) {
        assert(j != d);
        let k = choose|k: int|
            0 <= k < t2[j].children.len() && reach_within(t2, #[trigger] t2[j].children[k] as int, d, (n - 1) as nat);
        let ch = t2[j].children[k] as int;
        let k2 = if j == p && k >= pos {
            k + 1
        } else {
            k
        };
        assert(t[j].children[k2] == ch);
        assert(j != p || k2 != pos);
        assert(node_ok(t, j));
        if reaches(t, c, ch) {
            if ch == c {
                assert(t[j].children[k2] == t[p].children[pos]);
            } else {
                let m = choose|m: nat| reach_within(t, c, ch, m);
                let e = lemma_last_edge(t, c, ch, m);
                assert(t[e.0].children[e.1] == t[j].children[k2]);
            }
        } else {
            lemma_detached(t, t2, p, pos, ch, d, (n - 1) as nat);
        }
    }
}

/// Removing an element from its parent's children detaches its whole
/// subtree: in an arena where every element is listed as a child at most
/// once, no element outside the removed subtree (the root, say) reaches any
/// element inside it afterwards, so no later resolution or flattening from
/// there visits it.
pub proof fn law_removed_subtree_detached(t: Seq<NodeView>, t2: Seq<NodeView>, p: int, pos: int, j: int, d: int)
    requires
        wf_nodes(t),
        single_parent(t),
        0 <= p < t.len(),
        0 <= pos < t[p].children.len(),
        t2 == t.update(p, NodeView { children: t[p].children.remove(pos), ..t[p] }),
        0 <= j < t.len(),
        reaches(t, t[p].children[pos] as int, d),
        !reaches(t, t[p].children[pos] as int, j),
    ensures
        !reaches(t2, j, d),
{
    if reaches(t2, j, d) {
        let n = choose|n: nat| reach_within(t2, j, d, n);
        lemma_detached(t, t2, p, pos, j, d, n);
    }
}

/// `s` holds nodes of both arenas, is closed under parent and child links
/// of `t`, and the two arenas agree on every node of it.
pub open spec fn agree_on(t: Seq<NodeView>, t3: Seq<NodeView>, s: Set<int>) -> bool {
    forall|x: int|
        #[trigger] s.contains(x) ==> {
            &&& 0 <= x < t.len()
            &&& x < t3.len()
            &&& t3[x] == t[x]
            &&& (t[x].parent matches Some(p) ==> s.contains(p as int))
            &&& forall|k: int| 0 <= k < t[x].children.len() ==> s.contains(#[trigger] t[x].children[k] as int)
        }
}

proof fn lemma_agree_up(t: Seq<NodeView>, t3: Seq<NodeView>, s: Set<int>, x: int, n: nat)
    requires
        agree_on(t, t3, s),
        s.contains(x),
    ensures
        up_ok(t, x, n) == up_ok(t3, x, n),
    decreases n,
{
    if n > 0 {
        if let Some(p) = t[x].parent {
            lemma_agree_up(t, t3, s, p as int, (n - 1) as nat);
        }
    }
}

proof fn lemma_agree_down(t: Seq<NodeView>, t3: Seq<NodeView>, s: Set<int>, x: int, n: nat)
    requires
        agree_on(t, t3, s),
        s.contains(x),
    ensures
        down_ok(t, x, n) == down_ok(t3, x, n),
    decreases n,
{
    if n > 0 {
        assert forall|k: int| 0 <= k < t[x].children.len() implies down_ok(t, #[trigger] t[x].children[k] as int, (n - 1) as nat)
            == down_ok(t3, t[x].children[k] as int, (n - 1) as nat) by {
            lemma_agree_down(t, t3, s, t[x].children[k] as int, (n - 1) as nat);
        }
        assert(down_ok(t, x, n) == down_ok(t3, x, n));
    }
}

proof fn lemma_agree_content_size(t: Seq<NodeView>, t3: Seq<NodeView>, s: Set<int>, x: int, k: int, h: bool, n: nat)
    requires
        agree_on(t, t3, s),
        s.contains(x),
        0 <= k <= t[x].children.len(),
    ensures
        content_size(t, x, k, h, n) == content_size(t3, x, k, h, n),
    decreases n, k,
{
    if n > 0 && k > 0 {
        lemma_agree_content_size(t, t3, s, x, k - 1, h, n);
        let c = t[x].children[k - 1] as int;
        assert(s.contains(c));
        lemma_agree_content_size(t, t3, s, c, t[c].children.len() as int, h, (n - 1) as nat);
    }
}

proof fn lemma_agree_content(t: Seq<NodeView>, t3: Seq<NodeView>, s: Set<int>, x: int, h: bool)
    requires
        agree_on(t, t3, s),
        acyclic(t),
        acyclic(t3),
        s.contains(x),
    ensures
        content_of(t, x, h) == content_of(t3, x, h),
{
    let b = choose|b: nat| bounded(t, b);
    let b3 = choose|b: nat| bounded(t3, b);
    assert(down_ok(t, x, b));
    assert(down_ok(t3, x, b3));
    let d = down_depth(t, x);
    let d3 = down_depth(t3, x);
    assert(down_ok(t, x, d));
    assert(down_ok(t3, x, d3));
    lemma_agree_down(t, t3, s, x, d3);
    lemma_content_fuel(t, x, t[x].children.len() as int, h, d, d3);
    lemma_agree_content_size(t, t3, s, x, t[x].children.len() as int, h, d3);
}

proof fn lemma_agree_size_within(t: Seq<NodeView>, t3: Seq<NodeView>, s: Set<int>, x: int, ws: WindowSize, h: bool, n: nat)
    requires
        agree_on(t, t3, s),
        acyclic(t),
        acyclic(t3),
        s.contains(x),
    ensures
        size_within(t, x, ws, h, n) == size_within(t3, x, ws, h, n),
    decreases n,
{
    if n > 0 {
        lemma_agree_content(t, t3, s, x, h);
        if let Some(p) = t[x].parent {
            lemma_agree_size_within(t, t3, s, p as int, ws, h, (n - 1) as nat);
        }
    }
}

proof fn lemma_agree_size(t: Seq<NodeView>, t3: Seq<NodeView>, s: Set<int>, x: int, ws: WindowSize, h: bool)
    requires
        agree_on(t, t3, s),
        acyclic(t),
        acyclic(t3),
        s.contains(x),
    ensures
        size_of(t, x, ws, h) == size_of(t3, x, ws, h),
{
    let b = choose|b: nat| bounded(t, b);
    let b3 = choose|b: nat| bounded(t3, b);
    assert(up_ok(t, x, b));
    assert(up_ok(t3, x, b3));
    let d = up_depth(t, x);
    let d3 = up_depth(t3, x);
    assert(up_ok(t, x, d));
    assert(up_ok(t3, x, d3));
    lemma_agree_up(t, t3, s, x, d3);
    lemma_size_fuel(t, x, ws, h, d, d3);
    lemma_agree_size_within(t, t3, s, x, ws, h, d3);
}

proof fn lemma_agree_offset_within(t: Seq<NodeView>, t3: Seq<NodeView>, s: Set<int>, x: int, ws: WindowSize, h: bool, n: nat)
    requires
        agree_on(t, t3, s),
        acyclic(t),
        acyclic(t3),
        s.contains(x),
    ensures
        offset_within(t, x, ws, h, n) == offset_within(t3, x, ws, h, n),
    decreases n,
{
    if n > 0 {
        if let Some(p) = t[x].parent {
            lemma_agree_size(t, t3, s, p as int, ws, h);
            lemma_agree_offset_within(t, t3, s, p as int, ws, h, (n - 1) as nat);
        }
    }
}

proof fn lemma_agree_offset(t: Seq<NodeView>, t3: Seq<NodeView>, s: Set<int>, x: int, ws: WindowSize, h: bool)
    requires
        agree_on(t, t3, s),
        acyclic(t),
        acyclic(t3),
        s.contains(x),
    ensures
        offset_of(t, x, ws, h) == offset_of(t3, x, ws, h),
{
    let b = choose|b: nat| bounded(t, b);
    let b3 = choose|b: nat| bounded(t3, b);
    assert(up_ok(t, x, b));
    assert(up_ok(t3, x, b3));
    let d = up_depth(t, x);
    let d3 = up_depth(t3, x);
    assert(up_ok(t, x, d));
    assert(up_ok(t3, x, d3));
    lemma_agree_up(t, t3, s, x, d3);
    lemma_offset_fuel(t, x, ws, h, d, d3);
    lemma_agree_offset_within(t, t3, s, x, ws, h, d3);
}

proof fn lemma_agree_records_upto(t: Seq<NodeView>, t3: Seq<NodeView>, s: Set<int>, x: int, k: int, ws: WindowSize, n: nat)
    requires
        agree_on(t, t3, s),
        acyclic(t),
        acyclic(t3),
        s.contains(x),
        0 <= k <= t[x].children.len(),
    ensures
        records_upto(t, x, k, ws, n) == records_upto(t3, x, k, ws, n),
    decreases n, k,
{
    if n > 0 {
        if k > 0 {
            lemma_agree_records_upto(t, t3, s, x, k - 1, ws, n);
            let c = t[x].children[k - 1] as int;
            assert(s.contains(c));
            lemma_agree_records_upto(t, t3, s, c, t[c].children.len() as int, ws, (n - 1) as nat);
        } else {
            lemma_agree_size(t, t3, s, x, ws, true);
            lemma_agree_size(t, t3, s, x, ws, false);
            lemma_agree_offset(t, t3, s, x, ws, true);
            lemma_agree_offset(t, t3, s, x, ws, false);
        }
    }
}

/// Resolution and flattening are local: in two valid arenas that agree on a
/// set of elements closed under parent and child links, every element of
/// the set has the same content size, size, offset and draw records,
/// whatever else either arena holds. Together with
/// `law_removed_subtree_detached` this says that once a subtree is removed
/// (and no parent link from what stays leads into it), nothing in it counts
/// towards the content size or the draw records of what stays: those are
/// computed from the pruned tree alone.
pub proof fn law_resolution_is_local(t: Seq<NodeView>, t3: Seq<NodeView>, s: Set<int>, j: int, ws: WindowSize)
    requires
        wf_nodes(t),
        wf_nodes(t3),
        acyclic(t),
        acyclic(t3),
        agree_on(t, t3, s),
        s.contains(j),
    ensures
        content_of(t, j, true) == content_of(t3, j, true),
        content_of(t, j, false) == content_of(t3, j, false),
        size_of(t, j, ws, true) == size_of(t3, j, ws, true),
        size_of(t, j, ws, false) == size_of(t3, j, ws, false),
        offset_of(t, j, ws, true) == offset_of(t3, j, ws, true),
        offset_of(t, j, ws, false) == offset_of(t3, j, ws, false),
        records_of(t, j, ws) == records_of(t3, j, ws),
{
    lemma_agree_content(t, t3, s, j, true);
    lemma_agree_content(t, t3, s, j, false);
    lemma_agree_size(t, t3, s, j, ws, true);
    lemma_agree_size(t, t3, s, j, ws, false);
    lemma_agree_offset(t, t3, s, j, ws, true);
    lemma_agree_offset(t, t3, s, j, ws, false);
    let b = choose|b: nat| bounded(t, b);
    let b3 = choose|b: nat| bounded(t3, b);
    assert(down_ok(t, j, b));
    assert(down_ok(t3, j, b3));
    let d = down_depth(t, j);
    let d3 = down_depth(t3, j);
    assert(down_ok(t, j, d));
    assert(down_ok(t3, j, d3));
    lemma_agree_down(t, t3, s, j, d3);
    lemma_records_fuel(t, j, t[j].children.len() as int, ws, d, d3);
    lemma_agree_records_upto(t, t3, s, j, t[j].children.len() as int, ws, d3);
}

} // verus!
