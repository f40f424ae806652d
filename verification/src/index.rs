//! The spatial index: a quaternary bounding-volume tree keyed by collider
//! handle.
//!
//! Every leaf stores one handle with a dilated bounding box; every branch box
//! encloses its children. The tree supports a full rebuild from (handle, box)
//! pairs, marking single leaves for update, a refresh pass that recomputes
//! marked leaf boxes and repairs branch bounds bottom-up without discarding
//! topology, and the traversals used by every query.

use vstd::prelude::*;

use crate::math::{Aabb, AABB_LIMIT, COORD_LIMIT, DILATION_LIMIT};
use crate::model::{entries_map, keys_unique, lemma_entries_map, ColliderHandle};

verus! {

/// One leaf of the index: a handle, its stored (dilated) bounding box, and
/// whether the leaf is marked for the next refresh.
#[derive(Clone, Copy, Debug, PartialEq, Eq, Structural)]
pub struct LeafData {
    pub handle: ColliderHandle,
    pub aabb: Aabb,
    pub dirty: bool,
}

/// A node of the quaternary tree.
pub enum Node {
    Leaf(LeafData),
    Branch(Box<BranchNode>),
}

/// A branch holds its enclosing box and two to four children.
pub struct BranchNode {
    pub aabb: Aabb,
    pub c0: Node,
    pub c1: Option<Node>,
    pub c2: Option<Node>,
    pub c3: Option<Node>,
}

pub open spec fn opt_leaves(o: Option<Node>) -> Seq<LeafData> {
    match o {
        None => seq![],
        Some(n) => n.leaves(),
    }
}

pub open spec fn opt_wf(o: Option<Node>) -> bool {
    match o {
        None => true,
        Some(n) => n.wf(),
    }
}

pub open spec fn opt_enclosed(o: Option<Node>, parent: Aabb) -> bool {
    match o {
        None => true,
        Some(n) => parent.spec_contains_box(n.root_aabb()),
    }
}

impl Node {
    /// All leaves of the subtree, left to right.
    pub open spec fn leaves(self) -> Seq<LeafData>
        decreases self,
    {
        match self {
            Node::Leaf(l) => seq![l],
            Node::Branch(b) => b.c0.leaves() + (match b.c1 {
                Some(n) => n.leaves(),
                None => seq![],
            }) + (match b.c2 {
                Some(n) => n.leaves(),
                None => seq![],
            }) + (match b.c3 {
                Some(n) => n.leaves(),
                None => seq![],
            }),
        }
    }

    /// The box stored at the root of the subtree.
    pub open spec fn root_aabb(self) -> Aabb {
        match self {
            Node::Leaf(l) => l.aabb,
            Node::Branch(b) => b.aabb,
        }
    }

    /// Well-formedness: every box is non-empty and bounded, and every branch
    /// box encloses its children's boxes.
    pub open spec fn wf(self) -> bool
        decreases self,
    {
        match self {
            Node::Leaf(l) => l.aabb.wf() && l.aabb.spec_in_range(AABB_LIMIT as int),
            Node::Branch(b) => {
                &&& b.aabb.wf()
                &&& b.aabb.spec_in_range(AABB_LIMIT as int)
                &&& b.c0.wf()
                &&& match b.c1 {
                    Some(n) => n.wf(),
                    None => true,
                }
                &&& match b.c2 {
                    Some(n) => n.wf(),
                    None => true,
                }
                &&& match b.c3 {
                    Some(n) => n.wf(),
                    None => true,
                }
                &&& b.aabb.spec_contains_box(b.c0.root_aabb())
                &&& opt_enclosed(b.c1, b.aabb)
                &&& opt_enclosed(b.c2, b.aabb)
                &&& opt_enclosed(b.c3, b.aabb)
            },
        }
    }

    pub fn root_box(&self) -> (r: Aabb)
        ensures
            r == self.root_aabb(),
    {
        match self {
            Node::Leaf(l) => l.aabb,
            Node::Branch(b) => b.aabb,
        }
    }
}

/// A well-formed subtree's root box is itself well-formed.
pub proof fn lemma_wf_root(n: Node)
    requires
        n.wf(),
    ensures
        n.root_aabb().wf(),
        n.root_aabb().spec_in_range(AABB_LIMIT as int),
{
    match n {
        Node::Leaf(l) => {},
        Node::Branch(b) => {},
    }
}

/// In a well-formed subtree the root box encloses every leaf box, and every
/// leaf box is well-formed and bounded.
pub proof fn lemma_wf_leaves(n: Node)
    requires
        n.wf(),
    ensures
        forall|i: int| 0 <= i < n.leaves().len() ==> (#[trigger] n.leaves()[i]).aabb.wf()
            && n.leaves()[i].aabb.spec_in_range(AABB_LIMIT as int)
            && n.root_aabb().spec_contains_box(n.leaves()[i].aabb),
    decreases n,
{
    match n {
        Node::Leaf(l) => {},
        Node::Branch(b) => {
            let s0 = b.c0.leaves();
            let s1 = opt_leaves(b.c1);
            let s2 = opt_leaves(b.c2);
            let s3 = opt_leaves(b.c3);
            lemma_wf_leaves(b.c0);
            if b.c1 is Some {
                lemma_wf_leaves(b.c1->Some_0);
            }
            if b.c2 is Some {
                lemma_wf_leaves(b.c2->Some_0);
            }
            if b.c3 is Some {
                lemma_wf_leaves(b.c3->Some_0);
            }
            assert forall|i: int| 0 <= i < n.leaves().len() implies (
            #[trigger] n.leaves()[i]).aabb.wf() && n.leaves()[i].aabb.spec_in_range(
                AABB_LIMIT as int,
            ) && n.root_aabb().spec_contains_box(n.leaves()[i].aabb) by {
                if i < s0.len() {
                    assert(n.leaves()[i] == s0[i]);
                    crate::math::lemma_contains_box_trans(b.aabb, b.c0.root_aabb(), s0[i].aabb);
                } else if i < s0.len() + s1.len() {
                    let m = b.c1->Some_0;
                    assert(n.leaves()[i] == m.leaves()[i - s0.len()]);
                    crate::math::lemma_contains_box_trans(
                        b.aabb,
                        m.root_aabb(),
                        m.leaves()[i - s0.len()].aabb,
                    );
                } else if i < s0.len() + s1.len() + s2.len() {
                    let m = b.c2->Some_0;
                    assert(n.leaves()[i] == m.leaves()[i - s0.len() - s1.len()]);
                    crate::math::lemma_contains_box_trans(
                        b.aabb,
                        m.root_aabb(),
                        m.leaves()[i - s0.len() - s1.len()].aabb,
                    );
                } else {
                    let m = b.c3->Some_0;
                    assert(n.leaves()[i] == m.leaves()[i - s0.len() - s1.len() - s2.len()]);
                    crate::math::lemma_contains_box_trans(
                        b.aabb,
                        m.root_aabb(),
                        m.leaves()[i - s0.len() - s1.len() - s2.len()].aabb,
                    );
                }
            }
        },
    }
}

/// Computes the box of a branch from its children: their union, which
/// encloses each of them.
fn branch_box(c0: &Node, c1: &Option<Node>, c2: &Option<Node>, c3: &Option<Node>) -> (r: Aabb)
    requires
        c0.wf(),
        opt_wf(*c1),
        opt_wf(*c2),
        opt_wf(*c3),
    ensures
        r.wf(),
        r.spec_in_range(AABB_LIMIT as int),
        r.spec_contains_box(c0.root_aabb()),
        opt_enclosed(*c1, r),
        opt_enclosed(*c2, r),
        opt_enclosed(*c3, r),
{
    proof {
        lemma_wf_root(*c0);
    }
    let mut bb = c0.root_box();
    if let Some(n) = c1 {
        proof {
            lemma_wf_root(*n);
            crate::math::lemma_union_contains(bb, n.root_aabb());
        }
        let ghost prev = bb;
        bb = bb.union(&n.root_box());
        proof {
            crate::math::lemma_contains_box_trans(bb, prev, c0.root_aabb());
        }
    }
    if let Some(n) = c2 {
        proof {
            lemma_wf_root(*n);
            crate::math::lemma_union_contains(bb, n.root_aabb());
        }
        let ghost prev = bb;
        bb = bb.union(&n.root_box());
        proof {
            crate::math::lemma_contains_box_trans(bb, prev, c0.root_aabb());
            if c1 is Some {
                crate::math::lemma_contains_box_trans(bb, prev, c1->Some_0.root_aabb());
            }
        }
    }
    if let Some(n) = c3 {
        proof {
            lemma_wf_root(*n);
            crate::math::lemma_union_contains(bb, n.root_aabb());
        }
        let ghost prev = bb;
        bb = bb.union(&n.root_box());
        proof {
            crate::math::lemma_contains_box_trans(bb, prev, c0.root_aabb());
            if c1 is Some {
                crate::math::lemma_contains_box_trans(bb, prev, c1->Some_0.root_aabb());
            }
            if c2 is Some {
                crate::math::lemma_contains_box_trans(bb, prev, c2->Some_0.root_aabb());
            }
        }
    }
    bb
}

/// The hierarchical spatial index over collider handles.
pub struct Qbvh {
    pub root: Option<Node>,
}

/// A leaf after a mark pass: marked exactly when it carries the handle.
pub open spec fn spec_marked(l: LeafData, h: ColliderHandle) -> LeafData {
    if l.handle == h {
        LeafData { handle: l.handle, aabb: l.aabb, dirty: true }
    } else {
        l
    }
}

/// A leaf after a refresh pass: a marked leaf takes the dilation of its new
/// box from the update list and is unmarked; others are untouched.
pub open spec fn spec_refreshed(
    l: LeafData,
    ups: Seq<(ColliderHandle, Aabb)>,
    dilation: int,
) -> LeafData {
    if l.dirty {
        LeafData {
            handle: l.handle,
            aabb: entries_map(ups)[l.handle].spec_dilate(dilation),
            dirty: false,
        }
    } else {
        l
    }
}

fn mark_node(node: &mut Node, h: ColliderHandle)
    ensures
        final(node).leaves().len() == old(node).leaves().len(),
        forall|i: int| 0 <= i < old(node).leaves().len() ==> final(node).leaves()[i]
            == spec_marked(#[trigger] old(node).leaves()[i], h),
        final(node).root_aabb() == old(node).root_aabb(),
        old(node).wf() ==> final(node).wf(),
    decreases *old(node),
{
    match node {
        Node::Leaf(l) => {
            if l.handle == h {
                l.dirty = true;
            }
        },
        Node::Branch(b) => {
            let ghost olds0 = b.c0.leaves();
            let ghost olds1 = opt_leaves(b.c1);
            let ghost olds2 = opt_leaves(b.c2);
            let ghost olds3 = opt_leaves(b.c3);
            mark_node(&mut b.c0, h);
            mark_opt(&mut b.c1, h);
            mark_opt(&mut b.c2, h);
            mark_opt(&mut b.c3, h);
            proof {
                let news = b.c0.leaves() + opt_leaves(b.c1) + opt_leaves(b.c2) + opt_leaves(b.c3);
                let oldall = olds0 + olds1 + olds2 + olds3;
                assert forall|i: int| 0 <= i < oldall.len() implies news[i] == spec_marked(
                    #[trigger] oldall[i],
                    h,
                ) by {
                    if i < olds0.len() {
                        assert(oldall[i] == olds0[i]);
                        assert(news[i] == b.c0.leaves()[i]);
                    } else if i < olds0.len() + olds1.len() {
                        assert(oldall[i] == olds1[i - olds0.len()]);
                        assert(news[i] == opt_leaves(b.c1)[i - olds0.len()]);
                    } else if i < olds0.len() + olds1.len() + olds2.len() {
                        assert(oldall[i] == olds2[i - olds0.len() - olds1.len()]);
                        assert(news[i] == opt_leaves(b.c2)[i - olds0.len() - olds1.len()]);
                    } else {
                        assert(oldall[i] == olds3[i - olds0.len() - olds1.len() - olds2.len()]);
                        assert(news[i] == opt_leaves(b.c3)[i - olds0.len() - olds1.len()
                            - olds2.len()]);
                    }
                }
            }
        },
    }
}

fn mark_opt(node: &mut Option<Node>, h: ColliderHandle)
    ensures
        (*final(node)) is Some <==> (*old(node)) is Some,
        opt_leaves(*final(node)).len() == opt_leaves(*old(node)).len(),
        forall|i: int| 0 <= i < opt_leaves(*old(node)).len() ==> opt_leaves(*final(node))[i]
            == spec_marked(#[trigger] opt_leaves(*old(node))[i], h),
        (*old(node)) is Some ==> (*final(node))->Some_0.root_aabb() == (*old(
            node,
        ))->Some_0.root_aabb(),
        opt_wf(*old(node)) ==> opt_wf(*final(node)),
    decreases *old(node),
{
    match node.take() {
        None => {},
        Some(mut n) => {
            mark_node(&mut n, h);
            *node = Some(n);
        },
    }
}

fn find_update(ups: &Vec<(ColliderHandle, Aabb)>, h: ColliderHandle) -> (r: Option<Aabb>)
    requires
        keys_unique(ups@),
    ensures
        r matches Some(bb) ==> entries_map(ups@).contains_key(h) && entries_map(ups@)[h] == bb,
        r is None ==> !entries_map(ups@).contains_key(h),
{
    proof {
        lemma_entries_map(ups@);
    }
    let n = ups.len();
    for i in 0..n
        invariant
            keys_unique(ups@),
            n == ups@.len(),
            forall|j: int| 0 <= j < i ==> (#[trigger] ups@[j]).0 != h,
    {
        if ups[i].0 == h {
            proof {
                lemma_entries_map(ups@);
            }
            return Some(ups[i].1);
        }
    }
    proof {
        lemma_entries_map(ups@);
    }
    None
}

/// Every marked leaf of the subtree has an entry in the update list.
pub open spec fn dirty_covered(s: Seq<LeafData>, ups: Seq<(ColliderHandle, Aabb)>) -> bool {
    forall|i: int| 0 <= i < s.len() && (#[trigger] s[i]).dirty ==> entries_map(ups).contains_key(
        s[i].handle,
    )
}

/// Every box in the update list is a well-formed exact collider box.
pub open spec fn updates_wf(ups: Seq<(ColliderHandle, Aabb)>) -> bool {
    forall|i: int| 0 <= i < ups.len() ==> (#[trigger] ups[i]).1.wf() && ups[i].1.spec_in_range(
        8 * COORD_LIMIT as int,
    )
}

fn refresh_node(node: &mut Node, ups: &Vec<(ColliderHandle, Aabb)>, dilation: i64)
    requires
        old(node).wf(),
        keys_unique(ups@),
        updates_wf(ups@),
        0 <= dilation <= DILATION_LIMIT,
        dirty_covered(old(node).leaves(), ups@),
    ensures
        final(node).wf(),
        final(node).leaves().len() == old(node).leaves().len(),
        forall|i: int| 0 <= i < old(node).leaves().len() ==> final(node).leaves()[i]
            == spec_refreshed(#[trigger] old(node).leaves()[i], ups@, dilation as int),
    decreases *old(node),
{
    match node {
        Node::Leaf(l) => {
            if l.dirty {
                proof {
                    assert(old(node).leaves()[0] == *l);
                    lemma_entries_map(ups@);
                }
                let bb = find_update(ups, l.handle);
                proof {
                    let k = choose|k: int|
                        0 <= k < ups@.len() && (#[trigger] ups@[k]).0 == l.handle;
                    assert(ups@[k].1.wf() && ups@[k].1.spec_in_range(8 * COORD_LIMIT as int));
                    assert(entries_map(ups@)[l.handle] == ups@[k].1);
                }
                let bb = bb.unwrap();
                l.aabb = bb.dilate(dilation);
                l.dirty = false;
            }
        },
        Node::Branch(b) => {
            let ghost olds0 = b.c0.leaves();
            let ghost olds1 = opt_leaves(b.c1);
            let ghost olds2 = opt_leaves(b.c2);
            let ghost olds3 = opt_leaves(b.c3);
            proof {
                let oldall = olds0 + olds1 + olds2 + olds3;
                assert forall|i: int| 0 <= i < olds0.len() && (#[trigger] olds0[i]).dirty implies
                    entries_map(ups@).contains_key(olds0[i].handle) by {
                    assert(oldall[i] == olds0[i]);
                }
                assert forall|i: int| 0 <= i < olds1.len() && (#[trigger] olds1[i]).dirty implies
                    entries_map(ups@).contains_key(olds1[i].handle) by {
                    assert(oldall[olds0.len() + i] == olds1[i]);
                }
                assert forall|i: int| 0 <= i < olds2.len() && (#[trigger] olds2[i]).dirty implies
                    entries_map(ups@).contains_key(olds2[i].handle) by {
                    assert(oldall[olds0.len() + olds1.len() + i] == olds2[i]);
                }
                assert forall|i: int| 0 <= i < olds3.len() && (#[trigger] olds3[i]).dirty implies
                    entries_map(ups@).contains_key(olds3[i].handle) by {
                    assert(oldall[olds0.len() + olds1.len() + olds2.len() + i] == olds3[i]);
                }
            }
            refresh_node(&mut b.c0, ups, dilation);
            refresh_opt(&mut b.c1, ups, dilation);
            refresh_opt(&mut b.c2, ups, dilation);
            refresh_opt(&mut b.c3, ups, dilation);
            let bb = branch_box(&b.c0, &b.c1, &b.c2, &b.c3);
            b.aabb = bb;
            proof {
                let news = b.c0.leaves() + opt_leaves(b.c1) + opt_leaves(b.c2) + opt_leaves(b.c3);
                let oldall = olds0 + olds1 + olds2 + olds3;
                assert forall|i: int| 0 <= i < oldall.len() implies news[i] == spec_refreshed(
                    #[trigger] oldall[i],
                    ups@,
                    dilation as int,
                ) by {
                    if i < olds0.len() {
                        assert(oldall[i] == olds0[i]);
                        assert(news[i] == b.c0.leaves()[i]);
                    } else if i < olds0.len() + olds1.len() {
                        assert(oldall[i] == olds1[i - olds0.len()]);
                        assert(news[i] == opt_leaves(b.c1)[i - olds0.len()]);
                    } else if i < olds0.len() + olds1.len() + olds2.len() {
                        assert(oldall[i] == olds2[i - olds0.len() - olds1.len()]);
                        assert(news[i] == opt_leaves(b.c2)[i - olds0.len() - olds1.len()]);
                    } else {
                        assert(oldall[i] == olds3[i - olds0.len() - olds1.len() - olds2.len()]);
                        assert(news[i] == opt_leaves(b.c3)[i - olds0.len() - olds1.len()
                            - olds2.len()]);
                    }
                }
            }
        },
    }
}

fn refresh_opt(node: &mut Option<Node>, ups: &Vec<(ColliderHandle, Aabb)>, dilation: i64)
    requires
        opt_wf(*old(node)),
        keys_unique(ups@),
        updates_wf(ups@),
        0 <= dilation <= DILATION_LIMIT,
        dirty_covered(opt_leaves(*old(node)), ups@),
    ensures
        (*final(node)) is Some <==> (*old(node)) is Some,
        opt_wf(*final(node)),
        opt_leaves(*final(node)).len() == opt_leaves(*old(node)).len(),
        forall|i: int| 0 <= i < opt_leaves(*old(node)).len() ==> opt_leaves(*final(node))[i]
            == spec_refreshed(#[trigger] opt_leaves(*old(node))[i], ups@, dilation as int),
    decreases *old(node),
{
    match node.take() {
        None => {},
        Some(mut n) => {
            refresh_node(&mut n, ups, dilation);
            *node = Some(n);
        },
    }
}

impl Qbvh {
    /// The index modeled as its sequence of leaves.
    pub open spec fn leaves(self) -> Seq<LeafData> {
        opt_leaves(self.root)
    }

    pub open spec fn wf(self) -> bool {
        opt_wf(self.root)
    }

    /// An empty index.
    pub fn new() -> (r: Qbvh)
        ensures
            r.leaves().len() == 0,
            r.wf(),
    {
        Qbvh { root: None }
    }

    /// Discards any prior structure and builds a fresh tree over the given
    /// (handle, exact box) pairs, dilating every leaf box.
    pub fn clear_and_rebuild(&mut self, data: &Vec<(ColliderHandle, Aabb)>, dilation: i64)
        requires
            0 <= dilation <= DILATION_LIMIT,
            forall|i: int| 0 <= i < data@.len() ==> (#[trigger] data@[i]).1.wf()
                && data@[i].1.spec_in_range(8 * COORD_LIMIT as int),
        ensures
            final(self).wf(),
            final(self).leaves().len() == data@.len(),
            forall|k: int| 0 <= k < data@.len() ==> final(self).leaves()[k] == (LeafData {
                handle: (#[trigger] data@[k]).0,
                aabb: data@[k].1.spec_dilate(dilation as int),
                dirty: false,
            }),
    {
        if data.len() == 0 {
            self.root = None;
        } else {
            let n = build_range(data, 0, data.len(), dilation);
            let ghost nleaves = n.leaves();
            self.root = Some(n);
            proof {
                assert(self.leaves() == nleaves);
                assert forall|k: int| 0 <= k < data@.len() implies self.leaves()[k] == (LeafData {
                    handle: (#[trigger] data@[k]).0,
                    aabb: data@[k].1.spec_dilate(dilation as int),
                    dirty: false,
                }) by {
                    assert(data@[0 + k] == data@[k]);
                    assert(nleaves[k] == (LeafData {
                        handle: data@[0 + k].0,
                        aabb: data@[0 + k].1.spec_dilate(dilation as int),
                        dirty: false,
                    }));
                }
            }
        }
    }

    /// Flags the leaf carrying `h` as needing its bound recomputed on the
    /// next refresh pass.
    pub fn pre_update(&mut self, h: ColliderHandle)
        ensures
            final(self).leaves().len() == old(self).leaves().len(),
            forall|i: int| 0 <= i < old(self).leaves().len() ==> final(self).leaves()[i]
                == spec_marked(#[trigger] old(self).leaves()[i], h),
            old(self).wf() ==> final(self).wf(),
    {
        mark_opt(&mut self.root, h);
    }

    /// Recomputes the boxes of all marked leaves from the update list,
    /// dilating them, then repairs branch bounds bottom-up without discarding
    /// the topology.
    pub fn refresh(&mut self, ups: &Vec<(ColliderHandle, Aabb)>, dilation: i64)
        requires
            old(self).wf(),
            keys_unique(ups@),
            updates_wf(ups@),
            0 <= dilation <= DILATION_LIMIT,
            dirty_covered(old(self).leaves(), ups@),
        ensures
            final(self).wf(),
            final(self).leaves().len() == old(self).leaves().len(),
            forall|i: int| 0 <= i < old(self).leaves().len() ==> final(self).leaves()[i]
                == spec_refreshed(#[trigger] old(self).leaves()[i], ups@, dilation as int),
    {
        refresh_opt(&mut self.root, ups, dilation);
    }
}

#[verifier::rlimit(50)]
fn build_range(data: &Vec<(ColliderHandle, Aabb)>, lo: usize, hi: usize, dilation: i64) -> (n:
    Node)
    requires
        lo < hi <= data@.len(),
        0 <= dilation <= DILATION_LIMIT,
        forall|i: int| 0 <= i < data@.len() ==> (#[trigger] data@[i]).1.wf()
            && data@[i].1.spec_in_range(8 * COORD_LIMIT as int),
    ensures
        n.wf(),
        n.leaves().len() == hi - lo,
        forall|k: int| 0 <= k < hi - lo ==> n.leaves()[k] == (LeafData {
            handle: (#[trigger] data@[lo + k]).0,
            aabb: data@[lo + k].1.spec_dilate(dilation as int),
            dirty: false,
        }),
    decreases hi - lo,
{
    let count = hi - lo;
    if count == 1 {
        let bb = data[lo].1.dilate(dilation);
        Node::Leaf(LeafData { handle: data[lo].0, aabb: bb, dirty: false })
    } else {
        let q = count / 4 + if count % 4 == 0 { 0 } else { 1 };
        let m1 = lo + q;
        let m2 = if hi - m1 > q { m1 + q } else { hi };
        let m3 = if hi - m2 > q { m2 + q } else { hi };
        let c0 = build_range(data, lo, m1, dilation);
        let ghost s0 = c0.leaves();
        let c1 = build_range(data, m1, m2, dilation);
        let ghost s1 = c1.leaves();
        let (c2, c3): (Option<Node>, Option<Node>) = if m2 < hi {
            let c2 = build_range(data, m2, m3, dilation);
            if m3 < hi {
                let c3 = build_range(data, m3, hi, dilation);
                (Some(c2), Some(c3))
            } else {
                (Some(c2), None)
            }
        } else {
            (None, None)
        };
        let ghost s2 = opt_leaves(c2);
        let ghost s3 = opt_leaves(c3);
        let c1 = Some(c1);
        let bb = branch_box(&c0, &c1, &c2, &c3);
        let node = Node::Branch(Box::new(BranchNode { aabb: bb, c0, c1, c2, c3 }));
        proof {
            assert(node.leaves() == ((s0 + s1) + s2) + s3);
            assert forall|k: int| 0 <= k < hi - lo implies node.leaves()[k] == (LeafData {
                handle: (#[trigger] data@[lo + k]).0,
                aabb: data@[lo + k].1.spec_dilate(dilation as int),
                dirty: false,
            }) by {
                if k < s0.len() {
                    assert(((s0 + s1) + s2)[k] == (s0 + s1)[k]);
                    assert((s0 + s1)[k] == s0[k]);
                    assert(node.leaves()[k] == s0[k]);
                    assert(data@[lo + k] == data@[lo + k]);
                } else if k < s0.len() + s1.len() {
                    assert(((s0 + s1) + s2)[k] == (s0 + s1)[k]);
                    assert((s0 + s1)[k] == s1[k - s0.len()]);
                    assert(node.leaves()[k] == s1[k - s0.len()]);
                    assert(lo + k == m1 + (k - s0.len()));
                } else if k < s0.len() + s1.len() + s2.len() {
                    assert(((s0 + s1) + s2)[k] == s2[k - s0.len() - s1.len()]);
                    assert(node.leaves()[k] == s2[k - s0.len() - s1.len()]);
                    assert(lo + k == m2 + (k - s0.len() - s1.len()));
                } else {
                    assert(node.leaves()[k] == s3[k - s0.len() - s1.len() - s2.len()]);
                    assert(lo + k == m3 + (k - s0.len() - s1.len() - s2.len()));
                }
            }
        }
        node
    }
}

/// The handles of all leaves whose stored box meets `region`, in leaf order.
pub open spec fn spec_region_matches(s: Seq<LeafData>, region: Aabb) -> Seq<ColliderHandle>
    decreases s.len(),
{
    if s.len() == 0 {
        seq![]
    } else {
        (if s[0].aabb.spec_intersects(region) {
            seq![s[0].handle]
        } else {
            seq![]
        }) + spec_region_matches(s.drop_first(), region)
    }
}

/// Region matching distributes over concatenation.
pub proof fn lemma_region_concat(a: Seq<LeafData>, b: Seq<LeafData>, region: Aabb)
    ensures
        spec_region_matches(a + b, region) == spec_region_matches(a, region)
            + spec_region_matches(b, region),
    decreases a.len(),
{
    if a.len() == 0 {
        assert(a + b =~= b);
        assert(spec_region_matches(a, region) + spec_region_matches(b, region)
            =~= spec_region_matches(b, region));
    } else {
        assert((a + b)[0] == a[0]);
        assert((a + b).drop_first() =~= a.drop_first() + b);
        lemma_region_concat(a.drop_first(), b, region);
        assert(spec_region_matches(a + b, region) =~= spec_region_matches(a, region)
            + spec_region_matches(b, region));
    }
}

/// A subtree none of whose leaves meets the region yields no matches.
pub proof fn lemma_region_empty(s: Seq<LeafData>, region: Aabb)
    requires
        forall|i: int| 0 <= i < s.len() ==> !(#[trigger] s[i]).aabb.spec_intersects(region),
    ensures
        spec_region_matches(s, region) == Seq::<ColliderHandle>::empty(),
    decreases s.len(),
{
    if s.len() > 0 {
        assert(!s[0].aabb.spec_intersects(region));
        lemma_region_empty(s.drop_first(), region);
        assert(spec_region_matches(s, region) =~= Seq::<ColliderHandle>::empty());
    } else {
        assert(spec_region_matches(s, region) =~= Seq::<ColliderHandle>::empty());
    }
}

/// Every leaf whose stored box meets the region appears in the match list.
pub proof fn lemma_region_membership(s: Seq<LeafData>, region: Aabb)
    ensures
        forall|i: int| 0 <= i < s.len() && (#[trigger] s[i]).aabb.spec_intersects(region)
            ==> spec_region_matches(s, region).contains(s[i].handle),
    decreases s.len(),
{
    let m = spec_region_matches(s, region);
    if s.len() > 0 {
        lemma_region_membership(s.drop_first(), region);
        let tail = spec_region_matches(s.drop_first(), region);
        let head: Seq<ColliderHandle> = if s[0].aabb.spec_intersects(region) {
            seq![s[0].handle]
        } else {
            seq![]
        };
        assert(m == head + tail);
        assert forall|i: int|
            0 <= i < s.len() && (#[trigger] s[i]).aabb.spec_intersects(region) implies m.contains(
            s[i].handle,
        ) by {
            if i == 0 {
                assert(m[0] == s[0].handle);
            } else {
                assert(s.drop_first()[i - 1] == s[i]);
                assert(tail.contains(s[i].handle));
                let k = choose|k: int| 0 <= k < tail.len() && tail[k] == s[i].handle;
                assert(m[head.len() + k] == s[i].handle);
            }
        }
    }
}

fn collect_node(node: &Node, region: &Aabb) -> (r: Vec<ColliderHandle>)
    requires
        node.wf(),
    ensures
        r@ == spec_region_matches(node.leaves(), *region),
    decreases node,
{
    match node {
        Node::Leaf(l) => {
            proof {
                assert(node.leaves() =~= seq![*l]);
                assert(node.leaves().drop_first() =~= Seq::<LeafData>::empty());
                lemma_region_empty(node.leaves().drop_first(), *region);
            }
            if l.aabb.intersects(region) {
                let mut v: Vec<ColliderHandle> = Vec::new();
                v.push(l.handle);
                proof {
                    assert(v@ =~= spec_region_matches(node.leaves(), *region));
                }
                v
            } else {
                let v: Vec<ColliderHandle> = Vec::new();
                proof {
                    assert(v@ =~= spec_region_matches(node.leaves(), *region));
                }
                v
            }
        },
        Node::Branch(b) => {
            if !b.aabb.intersects(region) {
                proof {
                    lemma_wf_leaves(*node);
                    assert forall|i: int| 0 <= i < node.leaves().len() implies !(
                    #[trigger] node.leaves()[i]).aabb.spec_intersects(*region) by {
                        if node.leaves()[i].aabb.spec_intersects(*region) {
                            crate::math::lemma_intersects_monotone(
                                b.aabb,
                                node.leaves()[i].aabb,
                                *region,
                            );
                        }
                    }
                    lemma_region_empty(node.leaves(), *region);
                }
                let v: Vec<ColliderHandle> = Vec::new();
                proof {
                    assert(v@ =~= spec_region_matches(node.leaves(), *region));
                }
                v
            } else {
                let ghost s0 = b.c0.leaves();
                let ghost s1 = opt_leaves(b.c1);
                let ghost s2 = opt_leaves(b.c2);
                let ghost s3 = opt_leaves(b.c3);
                let mut r = collect_node(&b.c0, region);
                if let Some(n) = &b.c1 {
                    let mut r1 = collect_node(n, region);
                    r.append(&mut r1);
                }
                if let Some(n) = &b.c2 {
                    let mut r2 = collect_node(n, region);
                    r.append(&mut r2);
                }
                if let Some(n) = &b.c3 {
                    let mut r3 = collect_node(n, region);
                    r.append(&mut r3);
                }
                proof {
                    lemma_region_concat(s0, s1, *region);
                    lemma_region_concat(s0 + s1, s2, *region);
                    lemma_region_concat((s0 + s1) + s2, s3, *region);
                    assert(node.leaves() == ((s0 + s1) + s2) + s3);
                    if b.c1 is None {
                        assert(spec_region_matches(s1, *region) =~= Seq::<ColliderHandle>::empty());
                    }
                    if b.c2 is None {
                        assert(spec_region_matches(s2, *region) =~= Seq::<ColliderHandle>::empty());
                    }
                    if b.c3 is None {
                        assert(spec_region_matches(s3, *region) =~= Seq::<ColliderHandle>::empty());
                    }
                    assert(r@ =~= spec_region_matches(node.leaves(), *region));
                }
                r
            }
        },
    }
}

impl Qbvh {
    /// Depth-first traversal: the handles of all leaves whose stored box
    /// meets the region, pruning subtrees whose box misses it.
    pub fn collect_region(&self, region: &Aabb) -> (r: Vec<ColliderHandle>)
        requires
            self.wf(),
        ensures
            r@ == spec_region_matches(self.leaves(), *region),
    {
        match &self.root {
            None => {
                let v: Vec<ColliderHandle> = Vec::new();
                proof {
                    assert(v@ =~= spec_region_matches(self.leaves(), *region));
                }
                v
            },
            Some(n) => collect_node(n, region),
        }
    }
}

} // verus!
