//! The links of the node table: the invariant that the tree-building pass
//! keeps, and why each of its steps keeps it.
use vstd::prelude::*;
use crate::fdt::{add_prop, begin_node, empty_node, BuildState, Fdt, Frame, Node, Property};

verus! {

/// A node's links: its parent, its first child and its next sibling.
pub type Links = (Option<usize>, Option<usize>, Option<usize>);

pub open spec fn links_of(n: Node) -> Links {
    (n.paren_idx, n.first_child_idx, n.next_sibling_idx)
}

/// The links of every node of the table.
pub open spec fn link_view(nodes: Seq<Node>) -> Seq<Links> {
    Seq::new(nodes.len(), |i: int| links_of(nodes[i]))
}

pub open spec fn no_links() -> Links {
    (None, None, None)
}

/// A node's first child names it as parent.
pub open spec fn children_name_parent(l: Seq<Links>) -> bool {
    forall|i: int| 0 <= i < l.len() ==> ((#[trigger] l[i]).1 matches Some(ch) ==> l[ch as int].0 == Some(i as usize))
}

/// A node's next sibling has the node's parent.
pub open spec fn siblings_share_parent(l: Seq<Links>) -> bool {
    forall|i: int| 0 <= i < l.len() ==> ((#[trigger] l[i]).2 matches Some(x) ==> l[x as int].0 == l[i].0)
}

/// A node with a parent is its first child or the next sibling of another
/// of its children.
pub open spec fn parent_lists_child(l: Seq<Links>) -> bool {
    forall|j: int| 0 <= j < l.len() ==> ((#[trigger] l[j]).0 matches Some(p)
        ==> l[p as int].1 == Some(j as usize)
            || exists|k: int| 0 <= k < l.len() && (#[trigger] l[k]).2 == Some(j as usize) && l[k].0 == Some(p))
}

/// The slots from `node_idx` on have no links.
pub open spec fn untaken_unlinked(l: Seq<Links>, node_idx: int) -> bool {
    forall|i: int| node_idx <= i < l.len() ==> #[trigger] l[i] == no_links()
}

/// Each open node's last child so far names it as parent and has no next
/// sibling yet; an open node with no child yet has no first child.
pub open spec fn open_nodes_linked(l: Seq<Links>, frames: Seq<Frame>, sp: int) -> bool {
    &&& forall|k: int| 0 <= k < sp ==> ((#[trigger] frames[k]).last_child_idx matches Some(lc)
        ==> l[lc as int].0 == Some(frames[k].node_idx) && l[lc as int].2 is None)
    &&& forall|k: int| 0 <= k < sp ==> (#[trigger] frames[k]).last_child_idx is None
        ==> l[frames[k].node_idx as int].1 is None
}

/// The open nodes come in increasing order.
pub open spec fn open_nodes_increasing(frames: Seq<Frame>, sp: int) -> bool {
    forall|k: int, k2: int| 0 <= k < k2 < sp ==> (#[trigger] frames[k]).node_idx < (#[trigger] frames[k2]).node_idx
}

/// A node's first child is its child of least index.
pub open spec fn first_child_is_least(l: Seq<Links>) -> bool {
    forall|j: int| 0 <= j < l.len() ==> ((#[trigger] l[j]).0 matches Some(p)
        ==> (l[p as int].1 matches Some(c) && c <= j))
}

/// No child of a node's parent lies between the node and its next sibling.
pub open spec fn siblings_consecutive(l: Seq<Links>) -> bool {
    forall|k: int, j: int| #![trigger l[k], l[j]] 0 <= k < j < l.len() ==> (l[k].2 matches Some(x)
        ==> (j < x ==> l[j].0 != l[k].0))
}

/// An open node's last child so far is its child of greatest index, and an
/// open node with no child yet has none.
pub open spec fn last_child_is_greatest(l: Seq<Links>, frames: Seq<Frame>, sp: int) -> bool {
    forall|k: int, j: int| #![trigger frames[k], l[j]] 0 <= k < sp && 0 <= j < l.len() && l[j].0 == Some(frames[k].node_idx)
        ==> (frames[k].last_child_idx matches Some(lc) && j <= lc)
}

/// What keeps the links of the tables being built in agreement: the
/// finished links agree (see `Fdt::tree_linked`), the open nodes are linked
/// to their children so far and come in increasing order, and the slots not
/// yet taken have no links.
#[verifier::opaque]
pub open spec fn links_agree(l: Seq<Links>, frames: Seq<Frame>, sp: int, node_idx: int) -> bool {
    &&& children_name_parent(l)
    &&& siblings_share_parent(l)
    &&& parent_lists_child(l)
    &&& untaken_unlinked(l, node_idx)
    &&& open_nodes_linked(l, frames, sp)
    &&& open_nodes_increasing(frames, sp)
    &&& first_child_is_least(l)
    &&& siblings_consecutive(l)
    &&& last_child_is_greatest(l, frames, sp)
}

/// The bounds on the links that the building pass keeps.
pub open spec fn links_bounded(l: Seq<Links>, frames: Seq<Frame>, sp: int, node_idx: int) -> bool {
    &&& 0 <= node_idx < l.len() <= usize::MAX
    &&& 0 <= sp < frames.len()
    &&& forall|k: int| 0 <= k < sp ==> (#[trigger] frames[k]).node_idx < node_idx
    &&& forall|k: int| 0 <= k < sp ==> ((#[trigger] frames[k]).last_child_idx matches Some(lc)
        ==> frames[k].node_idx < lc < node_idx)
    &&& forall|i: int| 0 <= i < l.len() ==> {
        &&& (#[trigger] l[i]).0 matches Some(p) ==> p < i
        &&& l[i].1 matches Some(ch) ==> i < ch < node_idx
        &&& l[i].2 matches Some(x) ==> i < x < node_idx
    }
}

/// Before any node is opened, with every slot empty, the links agree.
pub proof fn lemma_links_start(nodes: Seq<Node>, frames: Seq<Frame>)
    requires
        nodes == Seq::new(nodes.len(), |i: int| empty_node()),
    ensures
        links_agree(link_view(nodes), frames, 0, 0),
{
    reveal(links_agree);
    let l = link_view(nodes);
    assert forall|i: int| 0 <= i < l.len() implies #[trigger] l[i] == no_links() by {
        assert(nodes[i] == empty_node());
    }
}

/// The links after opening a node: the new node `i` gets the innermost open
/// node as parent; that node gets `i` as first child if it had no child
/// yet, or else its last child gets `i` as next sibling.
#[verifier::opaque]
pub open spec fn begin_links(l: Seq<Links>, frames: Seq<Frame>, sp: int, i: int) -> Seq<Links> {
    if sp == 0 {
        l.update(i, no_links())
    } else {
        let pf = frames[sp - 1];
        let p = pf.node_idx as int;
        let l1 = l.update(i, (Some(pf.node_idx), None, None));
        match pf.last_child_idx {
            Some(lc) => l1.update(lc as int, (l[lc as int].0, l[lc as int].1, Some(i as usize))),
            None => l1.update(p, (l[p].0, Some(i as usize), l[p].2)),
        }
    }
}

/// The frames after opening node `i`.
#[verifier::opaque]
pub open spec fn begin_frames(frames: Seq<Frame>, sp: int, i: int) -> Seq<Frame> {
    let top = Frame { node_idx: i as usize, last_child_idx: None };
    if sp == 0 {
        frames.update(0, top)
    } else {
        let pf = frames[sp - 1];
        frames.update(sp - 1, Frame { last_child_idx: Some(i as usize), ..pf }).update(sp, top)
    }
}

/// `begin_node` moves the links as `begin_links` says.
pub proof fn lemma_begin_node_links(bs: BuildState, c: int, n: int)
    requires
        0 <= bs.node_idx < bs.nodes.len(),
        0 <= bs.sp < bs.frames.len(),
        bs.sp > 0 ==> bs.frames[bs.sp - 1].node_idx < bs.node_idx,
        bs.sp > 0 ==> (bs.frames[bs.sp - 1].last_child_idx matches Some(lc) ==> lc < bs.node_idx),
    ensures
        link_view(begin_node(bs, c, n).nodes) == begin_links(link_view(bs.nodes), bs.frames, bs.sp, bs.node_idx),
        begin_node(bs, c, n).frames == begin_frames(bs.frames, bs.sp, bs.node_idx),
        begin_node(bs, c, n).sp == bs.sp + 1,
        begin_node(bs, c, n).node_idx == bs.node_idx + 1,
{
    reveal(begin_node);
    reveal(begin_links);
    reveal(begin_frames);
    let b1 = begin_node(bs, c, n);
    let l = link_view(bs.nodes);
    let want = begin_links(l, bs.frames, bs.sp, bs.node_idx);
    let got = link_view(b1.nodes);
    assert(got.len() == want.len());
    assert forall|x: int| 0 <= x < got.len() implies got[x] == want[x] by {
        assert(got[x] == links_of(b1.nodes[x]));
    }
    assert(got =~= want);
    assert(b1.frames =~= begin_frames(bs.frames, bs.sp, bs.node_idx));
}

/// Entry by entry, what `begin_links` changes.
proof fn lemma_begin_links_entries(l: Seq<Links>, frames: Seq<Frame>, sp: int, i: int)
    requires
        links_bounded(l, frames, sp, i),
        untaken_unlinked(l, i),
    ensures
        ({
            let m = begin_links(l, frames, sp, i);
            let pf = frames[sp - 1];
            &&& m.len() == l.len()
            &&& m[i] == (if sp == 0 { no_links() } else { (Some(pf.node_idx), None, None) })
            &&& forall|x: int| 0 <= x < m.len() && x != i ==> {
                &&& (#[trigger] m[x]).0 == l[x].0
                &&& m[x].1 == (if sp > 0 && x == pf.node_idx && pf.last_child_idx is None { Some(i as usize) } else { l[x].1 })
                &&& m[x].2 == (if sp > 0 && pf.last_child_idx == Some(x as usize) { Some(i as usize) } else { l[x].2 })
            }
        }),
{
    reveal(begin_links);
    if sp > 0 {
        assert(frames[sp - 1].node_idx < i);
        if let Some(lc) = frames[sp - 1].last_child_idx {
            assert(lc < i);
        }
    }
}

/// Entry by entry, what `begin_frames` changes.
proof fn lemma_begin_frames_entries(frames: Seq<Frame>, sp: int, i: int)
    requires
        0 <= sp < frames.len(),
    ensures
        ({
            let fr = begin_frames(frames, sp, i);
            &&& fr.len() == frames.len()
            &&& forall|k: int| 0 <= k < sp - 1 ==> #[trigger] fr[k] == frames[k]
            &&& sp > 0 ==> fr[sp - 1] == (Frame { node_idx: frames[sp - 1].node_idx, last_child_idx: Some(i as usize) })
            &&& fr[sp] == (Frame { node_idx: i as usize, last_child_idx: None })
        }),
{
    reveal(begin_frames);
}

/// Opening a node keeps the finished links in agreement.
proof fn lemma_begin_keeps_tree(l: Seq<Links>, frames: Seq<Frame>, sp: int, i: int)
    requires
        links_bounded(l, frames, sp, i),
        children_name_parent(l),
        siblings_share_parent(l),
        parent_lists_child(l),
        untaken_unlinked(l, i),
        open_nodes_linked(l, frames, sp),
    ensures
        ({
            let m = begin_links(l, frames, sp, i);
            &&& children_name_parent(m)
            &&& siblings_share_parent(m)
            &&& parent_lists_child(m)
            &&& untaken_unlinked(m, i + 1)
        }),
{
    let m = begin_links(l, frames, sp, i);
    let pf = frames[sp - 1];
    let p = pf.node_idx as int;
    lemma_begin_links_entries(l, frames, sp, i);
    assert(l[i] == no_links());
    assert forall|j: int| 0 <= j < m.len() && (#[trigger] m[j]).0 is Some implies ({
        let q = m[j].0->Some_0;
        m[q as int].1 == Some(j as usize)
            || exists|k: int| 0 <= k < m.len() && (#[trigger] m[k]).2 == Some(j as usize) && m[k].0 == Some(q)
    }) by {
        let q = m[j].0->Some_0 as int;
        if j == i {
            if let Some(lc) = pf.last_child_idx {
                assert(frames[sp - 1].last_child_idx == Some(lc));
                assert(m[lc as int].2 == Some(j as usize));
                assert(m[lc as int].0 == Some(q as usize));
            }
        } else {
            assert(q < j);
            if l[q].1 != Some(j as usize) {
                let k = choose|k: int| 0 <= k < l.len() && (#[trigger] l[k]).2 == Some(j as usize) && l[k].0 == Some(q as usize);
                assert(k != i);
                assert(m[k].0 == l[k].0);
                assert(m[k].2 == l[k].2);
            }
        }
    }
    assert forall|x: int| 0 <= x < m.len() && (#[trigger] m[x]).1 is Some implies
        m[m[x].1->Some_0 as int].0 == Some(x as usize) by {
        let ch = m[x].1->Some_0 as int;
        assert(x != i);
        if ch != i {
            assert(m[ch].0 == l[ch].0);
        } else {
            assert(x == p);
        }
    }
    assert forall|x: int| 0 <= x < m.len() && (#[trigger] m[x]).2 is Some implies
        m[m[x].2->Some_0 as int].0 == m[x].0 by {
        let sb = m[x].2->Some_0 as int;
        assert(x != i);
        if sb != i {
            assert(m[sb].0 == l[sb].0);
        } else {
            assert(pf.last_child_idx == Some(x as usize));
        }
    }
    assert forall|x: int| i + 1 <= x < m.len() implies #[trigger] m[x] == no_links() by {
        assert(l[x] == no_links());
    }
}

/// Opening a node keeps the open nodes linked and in order.
proof fn lemma_begin_keeps_open(l: Seq<Links>, frames: Seq<Frame>, sp: int, i: int)
    requires
        links_bounded(l, frames, sp, i),
        untaken_unlinked(l, i),
        open_nodes_linked(l, frames, sp),
        open_nodes_increasing(frames, sp),
    ensures
        open_nodes_linked(begin_links(l, frames, sp, i), begin_frames(frames, sp, i), sp + 1),
        open_nodes_increasing(begin_frames(frames, sp, i), sp + 1),
{
    let m = begin_links(l, frames, sp, i);
    let fr = begin_frames(frames, sp, i);
    let pf = frames[sp - 1];
    let p = pf.node_idx as int;
    lemma_begin_links_entries(l, frames, sp, i);
    lemma_begin_frames_entries(frames, sp, i);
    assert(l[i] == no_links());
    assert forall|k: int| 0 <= k < sp + 1 && (#[trigger] fr[k]).last_child_idx is Some implies ({
        let lc = fr[k].last_child_idx->Some_0 as int;
        m[lc].0 == Some(fr[k].node_idx) && m[lc].2 is None
    }) by {
        if k < sp - 1 {
            let lc = frames[k].last_child_idx->Some_0 as int;
            assert(fr[k] == frames[k]);
            assert(frames[k].node_idx < p);
            assert(lc != i);
            assert(pf.last_child_idx != Some(lc as usize));
        }
    }
    assert forall|k: int| 0 <= k < sp + 1 && (#[trigger] fr[k]).last_child_idx is None implies
        m[fr[k].node_idx as int].1 is None by {
        if k < sp - 1 {
            assert(fr[k] == frames[k]);
            assert(frames[k].node_idx < p);
        }
    }
    assert forall|k: int, k2: int| 0 <= k < k2 < sp + 1 implies (#[trigger] fr[k]).node_idx < (#[trigger] fr[k2]).node_idx by {
        if k2 == sp {
            if k < sp - 1 {
                assert(fr[k] == frames[k]);
            }
        } else if k2 == sp - 1 {
            assert(fr[k] == frames[k]);
        } else {
            assert(fr[k] == frames[k]);
            assert(fr[k2] == frames[k2]);
        }
    }
}

/// Opening a node keeps the children in index order.
proof fn lemma_begin_keeps_order(l: Seq<Links>, frames: Seq<Frame>, sp: int, i: int)
    requires
        links_bounded(l, frames, sp, i),
        untaken_unlinked(l, i),
        open_nodes_linked(l, frames, sp),
        open_nodes_increasing(frames, sp),
        first_child_is_least(l),
        siblings_consecutive(l),
        last_child_is_greatest(l, frames, sp),
    ensures
        first_child_is_least(begin_links(l, frames, sp, i)),
        siblings_consecutive(begin_links(l, frames, sp, i)),
        last_child_is_greatest(begin_links(l, frames, sp, i), begin_frames(frames, sp, i), sp + 1),
{
    let m = begin_links(l, frames, sp, i);
    let fr = begin_frames(frames, sp, i);
    let pf = frames[sp - 1];
    let p = pf.node_idx as int;
    lemma_begin_links_entries(l, frames, sp, i);
    lemma_begin_frames_entries(frames, sp, i);
    assert(l[i] == no_links());
    if sp > 0 {
        assert(p < i);
    }
    assert forall|j: int| 0 <= j < m.len() && (#[trigger] m[j]).0 is Some implies
        (m[m[j].0->Some_0 as int].1 matches Some(c) && c <= j) by {
        let q = m[j].0->Some_0 as int;
        if j == i {
            assert(q == p);
            if let Some(lc) = pf.last_child_idx {
                assert(l[lc as int].0 == Some(pf.node_idx));
                assert(l[p].1 is Some);
                assert(m[p].1 == l[p].1);
                assert(l[p].1->Some_0 <= lc);
            }
        } else {
            if j > i {
                assert(l[j] == no_links());
            }
            assert(m[j].0 == l[j].0);
            assert(q < j);
            assert(l[q].1 is Some);
            if sp > 0 && q == p && pf.last_child_idx is None {
                assert(false) by {
                    assert(last_child_is_greatest(l, frames, sp));
                    assert(l[j].0 == Some(frames[sp - 1].node_idx));
                }
            }
        }
    }
    assert forall|k: int, j: int| #![trigger m[k], m[j]] 0 <= k < j < m.len() && m[k].2 is Some && j < m[k].2->Some_0
        implies m[j].0 != m[k].0 by {
        let x = m[k].2->Some_0 as int;
        assert(k != i);
        assert(m[k].0 == l[k].0);
        if x == i {
            assert(pf.last_child_idx == Some(k as usize));
            if j != i {
                assert(m[j].0 == l[j].0);
                if l[j].0 == l[k].0 {
                    assert(l[k].0 == Some(pf.node_idx));
                    assert(frames[sp - 1] == pf);
                    assert(j <= k);
                }
            }
        } else {
            assert(l[k].2 == Some(x as usize));
            assert(x < i);
            assert(j != i);
            assert(m[j].0 == l[j].0);
        }
    }
    assert forall|k: int, j: int| #![trigger fr[k], m[j]] 0 <= k < sp + 1 && 0 <= j < m.len() && m[j].0 == Some(fr[k].node_idx)
        implies (fr[k].last_child_idx matches Some(lc) && j <= lc) by {
        if j == i {
            assert(fr[k].node_idx == pf.node_idx);
            if k < sp - 1 {
                assert(fr[k] == frames[k]);
                assert(frames[k].node_idx < pf.node_idx);
            } else if k == sp {
                assert(fr[k].node_idx == i);
            }
        } else {
            if j > i {
                assert(l[j] == no_links());
            }
            assert(m[j].0 == l[j].0);
            if k == sp {
                assert(l[j].0 is Some);
                assert(l[j].0->Some_0 < j);
                assert(false);
            } else if k == sp - 1 {
                assert(frames[k] == pf);
            } else {
                assert(fr[k] == frames[k]);
            }
        }
    }
}

/// Opening a node keeps the links in agreement.
pub proof fn lemma_links_begin(l: Seq<Links>, frames: Seq<Frame>, sp: int, i: int)
    requires
        links_agree(l, frames, sp, i),
        links_bounded(l, frames, sp, i),
    ensures
        links_agree(begin_links(l, frames, sp, i), begin_frames(frames, sp, i), sp + 1, i + 1),
{
    reveal(links_agree);
    lemma_begin_keeps_tree(l, frames, sp, i);
    lemma_begin_keeps_open(l, frames, sp, i);
    lemma_begin_keeps_order(l, frames, sp, i);
}

/// Adding a property moves no link.
pub proof fn lemma_add_prop_links(bs: BuildState, p: Property)
    requires
        0 < bs.sp <= bs.frames.len(),
        bs.frames[bs.sp - 1].node_idx < bs.nodes.len(),
    ensures
        link_view(add_prop(bs, p).nodes) == link_view(bs.nodes),
        add_prop(bs, p).frames == bs.frames,
        add_prop(bs, p).sp == bs.sp,
        add_prop(bs, p).node_idx == bs.node_idx,
{
    let b1 = add_prop(bs, p);
    assert(link_view(b1.nodes) =~= link_view(bs.nodes));
}

/// Closing a node keeps the links in agreement.
pub proof fn lemma_links_end(l: Seq<Links>, frames: Seq<Frame>, sp: int, i: int)
    requires
        links_agree(l, frames, sp, i),
        0 < sp,
    ensures
        links_agree(l, frames, sp - 1, i),
{
    reveal(links_agree);
}

/// Every link names a slot of the table.
pub open spec fn links_in_range(l: Seq<Links>) -> bool {
    forall|i: int| 0 <= i < l.len() ==> {
        &&& (#[trigger] l[i]).0 matches Some(p) ==> p < l.len()
        &&& l[i].1 matches Some(c) ==> c < l.len()
        &&& l[i].2 matches Some(x) ==> x < l.len()
    }
}

/// Agreeing links of the finished tables are those of a linked tree.
pub proof fn lemma_links_tree(f: &Fdt, sp: int, node_idx: int)
    requires
        links_in_range(link_view(f.nodes@)),
        links_agree(link_view(f.nodes@), f.frames@, sp, node_idx),
    ensures
        f.tree_linked(),
        f.children_in_order(),
{
    reveal(links_agree);
    let l = link_view(f.nodes@);
    let ns0 = f.nodes@;
    assert forall|j: int| 0 <= j < ns0.len() implies ((#[trigger] ns0[j]).paren_idx matches Some(p)
        ==> (ns0[p as int].first_child_idx matches Some(c) && c <= j)) by {
        assert(l[j] == links_of(ns0[j]));
        if let Some(p) = ns0[j].paren_idx {
            assert(l[p as int] == links_of(ns0[p as int]));
        }
    }
    assert forall|k: int, j: int| #![trigger ns0[k], ns0[j]] 0 <= k < j < ns0.len() implies (ns0[k].next_sibling_idx matches Some(x)
        ==> (j < x ==> ns0[j].paren_idx != ns0[k].paren_idx)) by {
        assert(l[k] == links_of(ns0[k]));
        assert(l[j] == links_of(ns0[j]));
    }
    let ns = f.nodes@;
    assert forall|i: int| 0 <= i < ns.len() implies ((#[trigger] ns[i]).first_child_idx matches Some(c)
        ==> ns[c as int].paren_idx == Some(i as usize)) by {
        assert(l[i] == links_of(ns[i]));
        if let Some(c) = ns[i].first_child_idx {
            assert(l[c as int] == links_of(ns[c as int]));
        }
    }
    assert forall|i: int| 0 <= i < ns.len() implies ((#[trigger] ns[i]).next_sibling_idx matches Some(x)
        ==> ns[x as int].paren_idx == ns[i].paren_idx) by {
        assert(l[i] == links_of(ns[i]));
        if let Some(x) = ns[i].next_sibling_idx {
            assert(l[x as int] == links_of(ns[x as int]));
        }
    }
    assert forall|j: int| 0 <= j < ns.len() implies ((#[trigger] ns[j]).paren_idx matches Some(p)
        ==> ns[p as int].first_child_idx == Some(j as usize)
            || exists|k: int| 0 <= k < ns.len() && (#[trigger] ns[k]).next_sibling_idx == Some(j as usize)
                && ns[k].paren_idx == Some(p)) by {
        assert(l[j] == links_of(ns[j]));
        if let Some(p) = ns[j].paren_idx {
            assert(l[p as int] == links_of(ns[p as int]));
            if l[p as int].1 != Some(j as usize) {
                let k = choose|k: int| 0 <= k < l.len() && (#[trigger] l[k]).2 == Some(j as usize) && l[k].0 == Some(p);
                assert(l[k] == links_of(ns[k]));
            }
        }
    }
}

} // verus!
