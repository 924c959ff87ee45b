//! Flattening a binary BVH into a flat array of wide (4-ary) GPU nodes,
//! breadth first, patching each parent slot as its children are discovered.
use vstd::prelude::*;
use vstd::seq_lib::*;
use vstd::multiset::Multiset;

use crate::aabb::{Aabb, Point3};
use crate::bvh::BvhNode;

verus! {

/// One wide GPU node: up to four children, their boxes packed as parallel
/// per-axis arrays, and one signed index per child. A positive index is the
/// array offset of another node; a negative index `-(p+1)` names leaf
/// primitive `p`; zero marks an unused slot.
#[derive(Clone, Copy, Debug, PartialEq, Eq)]
pub struct GpuStorageBvhNode {
    pub min_x: [u32; 4],
    pub min_y: [u32; 4],
    pub min_z: [u32; 4],
    pub max_x: [u32; 4],
    pub max_y: [u32; 4],
    pub max_z: [u32; 4],
    pub indices: [i32; 4],
    pub _pad: [u32; 4],
}

/// The four signed child indices of a node, in slot order.
pub open spec fn node_entries(n: GpuStorageBvhNode) -> Seq<i32> {
    seq![n.indices@[0], n.indices@[1], n.indices@[2], n.indices@[3]]
}

/// All signed child indices of the whole array, node by node.
pub open spec fn full_entries(out: Seq<GpuStorageBvhNode>) -> Seq<i32>
    decreases out.len(),
{
    if out.len() == 0 {
        Seq::empty()
    } else {
        full_entries(out.drop_last()) + node_entries(out.last())
    }
}

/// The signed indices already written into the first `m` nodes, counting
/// only the filled slots of each node.
pub open spec fn entries_upto(out: Seq<GpuStorageBvhNode>, cnts: Seq<u8>, m: int) -> Seq<i32>
    decreases m,
{
    if m <= 0 {
        Seq::empty()
    } else {
        entries_upto(out, cnts, m - 1) + node_entries(out[m - 1]).take(cnts[m - 1] as int)
    }
}

pub open spec fn entries_all(out: Seq<GpuStorageBvhNode>, cnts: Seq<u8>) -> Seq<i32> {
    entries_upto(out, cnts, out.len() as int)
}

/// The encoded form of a leaf reference: `-(p+1)`, so that leaf 0 is
/// distinguishable from an unused slot.
pub open spec fn encode_leaf(p: u32) -> i32 {
    (-(p as int) - 1) as i32
}

pub open spec fn encode_prims(s: Seq<u32>) -> Seq<i32> {
    s.map_values(|p: u32| encode_leaf(p))
}

/// The positive node references `1, 2, .., n-1`: one for every node of the
/// array except the root at offset 0.
pub open spec fn ref_ids(n: int) -> Seq<i32> {
    Seq::new((n - 1) as nat, |i: int| (i + 1) as i32)
}

pub open spec fn is_neg(e: i32) -> bool {
    e < 0
}

pub open spec fn is_pos(e: i32) -> bool {
    e > 0
}

/// Filtering a multiset after inserting one element.
proof fn lemma_filter_insert(m: Multiset<i32>, f: spec_fn(i32) -> bool, e: i32)
    ensures
        f(e) ==> m.insert(e).filter(f) == m.filter(f).insert(e),
        !f(e) ==> m.insert(e).filter(f) == m.filter(f),
{
    broadcast use vstd::multiset::group_multiset_axioms;

    if f(e) {
        assert(m.insert(e).filter(f) =~= m.filter(f).insert(e));
    } else {
        assert(m.insert(e).filter(f) =~= m.filter(f));
    }
}

/// The entries of a prefix depend only on the nodes and counts of that
/// prefix.
proof fn lemma_entries_prefix(
    out1: Seq<GpuStorageBvhNode>,
    cnt1: Seq<u8>,
    out2: Seq<GpuStorageBvhNode>,
    cnt2: Seq<u8>,
    m: int,
)
    requires
        m <= out1.len() && m <= cnt1.len(),
        m <= out2.len() && m <= cnt2.len(),
        forall|j: int| 0 <= j < m ==> out1[j] == out2[j] && cnt1[j] == cnt2[j],
    ensures
        entries_upto(out1, cnt1, m) == entries_upto(out2, cnt2, m),
    decreases m,
{
    if m > 0 {
        lemma_entries_prefix(out1, cnt1, out2, cnt2, m - 1);
    }
}

/// Writing one more entry `e` into the open slot of node `j` inserts
/// exactly `e` into the multiset of written entries.
proof fn lemma_entries_update(
    out1: Seq<GpuStorageBvhNode>,
    cnt1: Seq<u8>,
    out2: Seq<GpuStorageBvhNode>,
    cnt2: Seq<u8>,
    j: int,
    e: i32,
    m: int,
)
    requires
        out1.len() == cnt1.len(),
        out2.len() == out1.len(),
        cnt2.len() == cnt1.len(),
        0 <= j < out1.len(),
        forall|n: int| 0 <= n < out1.len() && n != j ==> out1[n] == out2[n] && cnt1[n] == cnt2[n],
        node_entries(out2[j]).take(cnt2[j] as int) == node_entries(out1[j]).take(
            cnt1[j] as int,
        ).push(e),
        0 <= m <= out1.len(),
    ensures
        m <= j ==> entries_upto(out2, cnt2, m).to_multiset() == entries_upto(
            out1,
            cnt1,
            m,
        ).to_multiset(),
        m > j ==> entries_upto(out2, cnt2, m).to_multiset() == entries_upto(
            out1,
            cnt1,
            m,
        ).to_multiset().insert(e),
    decreases m,
{
    broadcast use vstd::multiset::group_multiset_axioms;

    if m <= j {
        lemma_entries_prefix(out1, cnt1, out2, cnt2, m);
    } else {
        lemma_entries_update(out1, cnt1, out2, cnt2, j, e, m - 1);
        let p1 = entries_upto(out1, cnt1, m - 1);
        let p2 = entries_upto(out2, cnt2, m - 1);
        let t1 = node_entries(out1[m - 1]).take(cnt1[m - 1] as int);
        let t2 = node_entries(out2[m - 1]).take(cnt2[m - 1] as int);
        lemma_multiset_commutative(p1, t1);
        lemma_multiset_commutative(p2, t2);
        if m - 1 == j {
            assert(t2 == t1.push(e));
            t1.to_multiset_ensures();
            assert(t2.to_multiset() == t1.to_multiset().insert(e));
            assert(p2.to_multiset().add(t2.to_multiset()) =~= p1.to_multiset().add(
                t1.to_multiset(),
            ).insert(e));
        } else {
            assert(t2 == t1);
            assert(p2.to_multiset().add(t2.to_multiset()) =~= p1.to_multiset().add(
                t1.to_multiset(),
            ).insert(e));
        }
    }
}

/// Appending a blank node (no filled slots) writes no entry.
proof fn lemma_entries_append(
    out: Seq<GpuStorageBvhNode>,
    cnt: Seq<u8>,
    b: GpuStorageBvhNode,
)
    requires
        out.len() == cnt.len(),
    ensures
        entries_all(out.push(b), cnt.push(0)) == entries_all(out, cnt),
{
    let out2 = out.push(b);
    let cnt2 = cnt.push(0);
    lemma_entries_prefix(out2, cnt2, out, cnt, out.len() as int);
    assert(node_entries(out2[out.len() as int]).take(0) =~= Seq::<i32>::empty());
    assert(entries_upto(out2, cnt2, out2.len() as int) == entries_upto(
        out2,
        cnt2,
        out.len() as int,
    ) + Seq::<i32>::empty());
    assert(entries_upto(out2, cnt2, out.len() as int) + Seq::<i32>::empty() =~= entries_upto(
        out2,
        cnt2,
        out.len() as int,
    ));
}

/// For any value other than zero, the unfilled slots (all zero) do not
/// change how often it occurs: the full array and the filled slots hold the
/// same negative and the same positive entries.
proof fn lemma_entries_padding(out: Seq<GpuStorageBvhNode>, cnt: Seq<u8>, e: i32, m: int)
    requires
        out.len() == cnt.len(),
        forall|j: int, k: int|
            0 <= j < out.len() && cnt[j] <= k < 4 ==> (#[trigger] out[j].indices@[k]) == 0,
        forall|j: int| 0 <= j < out.len() ==> (#[trigger] cnt[j]) <= 4,
        e != 0,
        0 <= m <= out.len(),
    ensures
        full_entries(out.take(m)).to_multiset().count(e) == entries_upto(
            out,
            cnt,
            m,
        ).to_multiset().count(e),
    decreases m,
{
    broadcast use vstd::multiset::group_multiset_axioms;

    if m == 0 {
        assert(out.take(0) =~= Seq::<GpuStorageBvhNode>::empty());
    } else {
        lemma_entries_padding(out, cnt, e, m - 1);
        let pre = out.take(m);
        assert(pre.drop_last() =~= out.take(m - 1));
        assert(pre.last() == out[m - 1]);
        let ne = node_entries(out[m - 1]);
        let c = cnt[m - 1] as int;
        let taken = ne.take(c);
        let rest = ne.skip(c);
        assert(ne =~= taken + rest);
        lemma_multiset_commutative(taken, rest);
        lemma_multiset_commutative(full_entries(out.take(m - 1)), ne);
        lemma_multiset_commutative(entries_upto(out, cnt, m - 1), taken);
        // The skipped slots are all zero, so they never hold `e`.
        assert(rest.to_multiset().count(e) == 0) by {
            rest.to_multiset_ensures();
            if rest.to_multiset().count(e) > 0 {
                assert(rest.contains(e));
                let k = choose|k: int| 0 <= k < rest.len() && rest[k] == e;
                assert(ne[c + k] == e);
                assert(out[m - 1].indices@[c + k] == 0);
            }
        }
    }
}

/// The primitives of the queued subtrees, front to back.
pub open spec fn qp(q: Seq<(BvhNode, usize)>) -> Seq<u32>
    decreases q.len(),
{
    if q.len() == 0 {
        Seq::empty()
    } else {
        q[0].0.prims() + qp(q.drop_first())
    }
}

/// How many queued items are tagged with parent slot `p`.
spec fn pending(q: Seq<(BvhNode, usize)>, p: int) -> int
    decreases q.len(),
{
    if q.len() == 0 {
        0
    } else {
        (if q[0].1 == p {
            1int
        } else {
            0
        }) + pending(q.drop_first(), p)
    }
}

/// The number of branch nodes below the queued subtrees (each subtree with
/// L leaves holds L-1 branches).
spec fn qbr(q: Seq<(BvhNode, usize)>) -> int
    decreases q.len(),
{
    if q.len() == 0 {
        0
    } else {
        (q[0].0.prims().len() - 1) + qbr(q.drop_first())
    }
}

/// The total node count of the queued subtrees; the loop's measure.
spec fn qsize(q: Seq<(BvhNode, usize)>) -> int
    decreases q.len(),
{
    if q.len() == 0 {
        0
    } else {
        q[0].0.size() + qsize(q.drop_first())
    }
}

proof fn lemma_queue_push(q: Seq<(BvhNode, usize)>, it: (BvhNode, usize))
    ensures
        qp(q.push(it)) == qp(q) + it.0.prims(),
        qbr(q.push(it)) == qbr(q) + (it.0.prims().len() - 1),
        qsize(q.push(it)) == qsize(q) + it.0.size(),
    decreases q.len(),
{
    if q.len() == 0 {
        assert(q.push(it).drop_first() =~= Seq::<(BvhNode, usize)>::empty());
        assert(q.push(it)[0] == it);
        assert(qp(q.push(it).drop_first()) == Seq::<u32>::empty());
        assert(qp(q.push(it)) == q.push(it)[0].0.prims() + qp(q.push(it).drop_first()));
        assert(qp(q.push(it)) =~= qp(q) + it.0.prims());
        assert(qbr(q.push(it)) == (q.push(it)[0].0.prims().len() - 1) + qbr(
            q.push(it).drop_first(),
        ));
        assert(qsize(q.push(it)) == q.push(it)[0].0.size() + qsize(q.push(it).drop_first()));
    } else {
        assert(q.push(it).drop_first() =~= q.drop_first().push(it));
        assert(q.push(it)[0] == q[0]);
        lemma_queue_push(q.drop_first(), it);
        assert(q[0].0.prims() + (qp(q.drop_first()) + it.0.prims()) =~= (q[0].0.prims() + qp(
            q.drop_first(),
        )) + it.0.prims());
    }
}

proof fn lemma_pending_push(q: Seq<(BvhNode, usize)>, it: (BvhNode, usize), p: int)
    ensures
        pending(q.push(it), p) == pending(q, p) + if it.1 == p {
            1int
        } else {
            0
        },
    decreases q.len(),
{
    if q.len() == 0 {
        assert(q.push(it).drop_first() =~= Seq::<(BvhNode, usize)>::empty());
        assert(q.push(it)[0] == it);
        assert(pending(q.push(it).drop_first(), p) == 0);
        assert(pending(q.push(it), p) == (if q.push(it)[0].1 == p {
            1int
        } else {
            0
        }) + pending(q.push(it).drop_first(), p));
    } else {
        assert(q.push(it).drop_first() =~= q.drop_first().push(it));
        assert(q.push(it)[0] == q[0]);
        lemma_pending_push(q.drop_first(), it, p);
    }
}

proof fn lemma_qbr_nonneg(q: Seq<(BvhNode, usize)>)
    ensures
        qbr(q) >= 0,
        qsize(q) >= 0,
    decreases q.len(),
{
    if q.len() > 0 {
        crate::bvh::lemma_prims_len_pos(q[0].0);
        lemma_qbr_nonneg(q.drop_first());
    }
}

proof fn lemma_pending_nonneg(q: Seq<(BvhNode, usize)>, p: int)
    ensures
        pending(q, p) >= 0,
    decreases q.len(),
{
    if q.len() > 0 {
        lemma_pending_nonneg(q.drop_first(), p);
    }
}

/// The predicate picking out the negative (leaf) entries.
pub open spec fn neg_pred() -> spec_fn(i32) -> bool {
    |e: i32| is_neg(e)
}

/// The predicate picking out the positive (node reference) entries.
pub open spec fn pos_pred() -> spec_fn(i32) -> bool {
    |e: i32| is_pos(e)
}

/// Encoding distributes over concatenation.
proof fn lemma_encode_add(a: Seq<u32>, b: Seq<u32>)
    ensures
        encode_prims(a + b) == encode_prims(a) + encode_prims(b),
{
    assert(encode_prims(a + b) =~= encode_prims(a) + encode_prims(b));
}

/// Inserting on either side of a multiset sum.
proof fn lemma_add_insert(m1: Multiset<i32>, m2: Multiset<i32>, e: i32)
    ensures
        m1.insert(e).add(m2) == m1.add(m2).insert(e),
        m1.add(m2.insert(e)) == m1.add(m2).insert(e),
{
    broadcast use vstd::multiset::group_multiset_axioms;

    assert(m1.insert(e).add(m2) =~= m1.add(m2).insert(e));
    assert(m1.add(m2.insert(e)) =~= m1.add(m2).insert(e));
}


/// The box stored in slot `k` of a wide node, gathered from the packed
/// per-axis arrays.
pub open spec fn slot_box(n: GpuStorageBvhNode, k: int) -> Aabb {
    Aabb {
        min: Point3 { x: n.min_x@[k], y: n.min_y@[k], z: n.min_z@[k] },
        max: Point3 { x: n.max_x@[k], y: n.max_y@[k], z: n.max_z@[k] },
    }
}

/// One side of the wide collapse: a child that is a leaf stands for
/// itself; a child that is a branch contributes its two children.
pub open spec fn side_items(c: BvhNode) -> Seq<BvhNode> {
    match c {
        BvhNode::Leaf(l) => seq![c],
        BvhNode::Branch { left, right, aabb } => seq![*left, *right],
    }
}

/// The up-to-four wide children a popped subtree contributes: both sides
/// collapsed one level for a branch, the node itself for a leaf.
pub open spec fn collapse_items(b: BvhNode) -> Seq<BvhNode> {
    match b {
        BvhNode::Leaf(l) => seq![b],
        BvhNode::Branch { left, right, aabb } => side_items(*left) + side_items(*right),
    }
}

/// How many wide nodes a subtree contributes once popped from the queue:
/// none for a leaf (it is written in place into its parent's slot), one
/// for a branch plus whatever its wide children contribute.
pub open spec fn wide_count(b: BvhNode) -> nat
    decreases b,
{
    match b {
        BvhNode::Leaf(l) => 0,
        BvhNode::Branch { left, right, aabb } => 1 + side_wide(*left) + side_wide(*right),
    }
}

pub open spec fn side_wide(c: BvhNode) -> nat
    decreases c,
{
    match c {
        BvhNode::Leaf(l) => 0,
        BvhNode::Branch { left, right, aabb } => wide_count(*left) + wide_count(*right),
    }
}

/// The exact length of the flattened array for a given tree.
pub open spec fn flat_len(tree: BvhNode) -> nat {
    match tree {
        BvhNode::Leaf(l) => 1,
        BvhNode::Branch { left, right, aabb } => 1 + wide_count(tree),
    }
}

/// The subtrees node `j`'s slots stand for: node 0 is the entry node whose
/// only child is the whole tree; every later node was appended for one
/// branch and carries that branch's wide children.
pub open spec fn node_children(j: int, meaning: Seq<BvhNode>, tree: BvhNode) -> Seq<BvhNode> {
    if j == 0 {
        seq![tree]
    } else {
        collapse_items(meaning[j])
    }
}

/// Slot `k` of node `n` denotes subtree `c`: a leaf is encoded in place,
/// `-(p+1)` beside the leaf's own box; a branch is referenced by the
/// positive offset of the node that carries it, beside the branch's box.
pub open spec fn slot_denotes(
    n: GpuStorageBvhNode,
    k: int,
    c: BvhNode,
    out: Seq<GpuStorageBvhNode>,
    meaning: Seq<BvhNode>,
) -> bool {
    match c {
        BvhNode::Leaf(l) => n.indices@[k] == encode_leaf(l.idx) && slot_box(n, k) == l.aabb,
        BvhNode::Branch { left, right, aabb } => exists|i: int|
            {
                &&& 0 < i < out.len()
                &&& n.indices@[k] == i
                &&& #[trigger] meaning[i] == c
                &&& slot_box(n, k) == aabb
            },
    }
}

/// The flat array denotes the tree: under some assignment of subtrees to
/// nodes, node 0 references the whole tree, every node's leading slots
/// denote exactly its wide children in order, and the remaining slots are
/// unused. Together with the tree's own well-formedness this carries the
/// hierarchy and every box into the flattened output.
pub open spec fn flat_represents(
    out: Seq<GpuStorageBvhNode>,
    meaning: Seq<BvhNode>,
    tree: BvhNode,
) -> bool {
    &&& out.len() == meaning.len()
    &&& out.len() >= 1
    &&& forall|j: int|
        0 <= j < out.len() ==> #[trigger] node_children(j, meaning, tree).len() <= 4
    &&& forall|j: int, k: int|
        0 <= j < out.len() && 0 <= k < node_children(j, meaning, tree).len()
            ==> #[trigger] slot_denotes(
            out[j],
            k,
            node_children(j, meaning, tree)[k],
            out,
            meaning,
        )
    &&& forall|j: int, k: int|
        0 <= j < out.len() && node_children(j, meaning, tree).len() <= k < 4 ==> (
        #[trigger] out[j].indices@[k]) == 0
}

/// A slot keeps denoting its subtree while the array and the assignment
/// only grow and the slot's own entry and box are untouched.
proof fn lemma_slot_denotes_frame(
    n1: GpuStorageBvhNode,
    n2: GpuStorageBvhNode,
    k: int,
    c: BvhNode,
    out1: Seq<GpuStorageBvhNode>,
    out2: Seq<GpuStorageBvhNode>,
    m1: Seq<BvhNode>,
    m2: Seq<BvhNode>,
)
    requires
        slot_denotes(n1, k, c, out1, m1),
        n2.indices@[k] == n1.indices@[k],
        slot_box(n2, k) == slot_box(n1, k),
        out2.len() >= out1.len(),
        m2.len() >= m1.len(),
        forall|i: int| 0 <= i < m1.len() ==> #[trigger] m2[i] == m1[i],
        m1.len() == out1.len(),
    ensures
        slot_denotes(n2, k, c, out2, m2),
{
    match c {
        BvhNode::Leaf(l) => {},
        BvhNode::Branch { left, right, aabb } => {
            let i = choose|i: int|
                {
                    &&& 0 < i < out1.len()
                    &&& n1.indices@[k] == i
                    &&& #[trigger] m1[i] == c
                    &&& slot_box(n1, k) == aabb
                };
            assert(m2[i] == c);
            assert(0 < i < out2.len() && n2.indices@[k] == i && m2[i] == c && slot_box(n2, k)
                == aabb);
        },
    }
}

/// The queued subtrees tagged with parent `p`, front to back.
spec fn qf(q: Seq<(BvhNode, usize)>, p: int) -> Seq<BvhNode>
    decreases q.len(),
{
    if q.len() == 0 {
        Seq::empty()
    } else {
        (if q[0].1 == p {
            seq![q[0].0]
        } else {
            Seq::empty()
        }) + qf(q.drop_first(), p)
    }
}

/// The number of wide nodes the queue will still append.
spec fn qwn(q: Seq<(BvhNode, usize)>) -> int
    decreases q.len(),
{
    if q.len() == 0 {
        0
    } else {
        wide_count(q[0].0) + qwn(q.drop_first())
    }
}

proof fn lemma_qf_push(q: Seq<(BvhNode, usize)>, it: (BvhNode, usize), p: int)
    ensures
        qf(q.push(it), p) == qf(q, p) + if it.1 == p {
            seq![it.0]
        } else {
            Seq::<BvhNode>::empty()
        },
        qwn(q.push(it)) == qwn(q) + wide_count(it.0),
    decreases q.len(),
{
    if q.len() == 0 {
        assert(q.push(it).drop_first() =~= Seq::<(BvhNode, usize)>::empty());
        assert(q.push(it)[0] == it);
        assert(qf(q.push(it).drop_first(), p) == Seq::<BvhNode>::empty());
        assert(qwn(q.push(it).drop_first()) == 0);
        if it.1 == p {
            assert(qf(q.push(it), p) =~= qf(q, p) + seq![it.0]);
        } else {
            assert(qf(q.push(it), p) =~= qf(q, p) + Seq::<BvhNode>::empty());
        }
    } else {
        assert(q.push(it).drop_first() =~= q.drop_first().push(it));
        assert(q.push(it)[0] == q[0]);
        lemma_qf_push(q.drop_first(), it, p);
        if q[0].1 == p {
            if it.1 == p {
                assert(seq![q[0].0] + (qf(q.drop_first(), p) + seq![it.0]) =~= (seq![q[0].0] + qf(
                    q.drop_first(),
                    p,
                )) + seq![it.0]);
            } else {
                assert(seq![q[0].0] + (qf(q.drop_first(), p) + Seq::<BvhNode>::empty()) =~= (seq![
                    q[0].0,
                ] + qf(q.drop_first(), p)) + Seq::<BvhNode>::empty());
            }
        } else {
            if it.1 == p {
                assert(Seq::<BvhNode>::empty() + (qf(q.drop_first(), p) + seq![it.0]) =~= (Seq::<
                    BvhNode,
                >::empty() + qf(q.drop_first(), p)) + seq![it.0]);
            } else {
                assert(Seq::<BvhNode>::empty() + (qf(q.drop_first(), p) + Seq::<BvhNode>::empty())
                    =~= (Seq::<BvhNode>::empty() + qf(q.drop_first(), p)) + Seq::<
                    BvhNode,
                >::empty());
            }
        }
    }
}

proof fn lemma_qf_push_all(q: Seq<(BvhNode, usize)>, it: (BvhNode, usize))
    ensures
        forall|p: int|
            #[trigger] qf(q.push(it), p) == qf(q, p) + if it.1 == p {
                seq![it.0]
            } else {
                Seq::<BvhNode>::empty()
            },
        qwn(q.push(it)) == qwn(q) + wide_count(it.0),
{
    assert forall|p: int|
        #[trigger] qf(q.push(it), p) == qf(q, p) + if it.1 == p {
            seq![it.0]
        } else {
            Seq::<BvhNode>::empty()
        } by {
        lemma_qf_push(q, it, p);
    }
    lemma_qf_push(q, it, 0);
}

/// A parent no queued item names has nothing pending.
proof fn lemma_qf_absent(q: Seq<(BvhNode, usize)>, p: int)
    requires
        forall|i: int| 0 <= i < q.len() ==> (#[trigger] q[i]).1 != p,
    ensures
        qf(q, p) == Seq::<BvhNode>::empty(),
    decreases q.len(),
{
    if q.len() > 0 {
        assert forall|i: int| 0 <= i < q.drop_first().len() implies (
        #[trigger] q.drop_first()[i]).1 != p by {
            assert(q.drop_first()[i] == q[i + 1]);
        }
        lemma_qf_absent(q.drop_first(), p);
        assert(qf(q, p) =~= Seq::<BvhNode>::empty());
    }
}

proof fn lemma_qwn_nonneg(q: Seq<(BvhNode, usize)>)
    ensures
        qwn(q) >= 0,
    decreases q.len(),
{
    if q.len() > 0 {
        lemma_qwn_nonneg(q.drop_first());
    }
}

fn blank_node() -> (r: GpuStorageBvhNode)
    ensures
        r.indices@ =~= seq![0i32, 0i32, 0i32, 0i32],
        node_entries(r) =~= seq![0i32, 0i32, 0i32, 0i32],
{
    let r = GpuStorageBvhNode {
        min_x: [0, 0, 0, 0],
        min_y: [0, 0, 0, 0],
        min_z: [0, 0, 0, 0],
        max_x: [0, 0, 0, 0],
        max_y: [0, 0, 0, 0],
        max_z: [0, 0, 0, 0],
        indices: [0, 0, 0, 0],
        _pad: [0, 0, 0, 0],
    };
    proof {
        assert(r.indices@ =~= seq![0i32, 0i32, 0i32, 0i32]);
    }
    r
}

/// Writes one child reference into the next free slot of node `p`: the
/// child's box into the packed per-axis arrays, and the signed index `e`.
fn write_child_slot(
    out: &mut Vec<GpuStorageBvhNode>,
    counts: &mut Vec<u8>,
    p: usize,
    e: i32,
    bb: &Aabb,
)
    requires
        old(out)@.len() == old(counts)@.len(),
        p < old(out)@.len(),
        old(counts)@[p as int] < 4,
    ensures
        final(out)@.len() == old(out)@.len(),
        final(counts)@.len() == old(counts)@.len(),
        forall|n: int|
            0 <= n < old(out)@.len() && n != p ==> final(out)@[n] == old(out)@[n]
                && final(counts)@[n] == old(counts)@[n],
        final(counts)@[p as int] == old(counts)@[p as int] + 1,
        final(out)@[p as int].indices@ == old(out)@[p as int].indices@.update(
            old(counts)@[p as int] as int,
            e,
        ),
        final(out)@[p as int].min_x@ == old(out)@[p as int].min_x@.update(
            old(counts)@[p as int] as int,
            bb.min.x,
        ),
        final(out)@[p as int].min_y@ == old(out)@[p as int].min_y@.update(
            old(counts)@[p as int] as int,
            bb.min.y,
        ),
        final(out)@[p as int].min_z@ == old(out)@[p as int].min_z@.update(
            old(counts)@[p as int] as int,
            bb.min.z,
        ),
        final(out)@[p as int].max_x@ == old(out)@[p as int].max_x@.update(
            old(counts)@[p as int] as int,
            bb.max.x,
        ),
        final(out)@[p as int].max_y@ == old(out)@[p as int].max_y@.update(
            old(counts)@[p as int] as int,
            bb.max.y,
        ),
        final(out)@[p as int].max_z@ == old(out)@[p as int].max_z@.update(
            old(counts)@[p as int] as int,
            bb.max.z,
        ),
        slot_box(final(out)@[p as int], old(counts)@[p as int] as int) == *bb,
        node_entries(final(out)@[p as int]).take(final(counts)@[p as int] as int) == node_entries(
            old(out)@[p as int],
        ).take(old(counts)@[p as int] as int).push(e),
{
    let slot = counts[p] as usize;
    let mut node = out[p];
    let mut ix = node.indices;
    ix[slot] = e;
    node.indices = ix;
    let mut a = node.min_x;
    a[slot] = bb.min.x;
    node.min_x = a;
    let mut a = node.min_y;
    a[slot] = bb.min.y;
    node.min_y = a;
    let mut a = node.min_z;
    a[slot] = bb.min.z;
    node.min_z = a;
    let mut a = node.max_x;
    a[slot] = bb.max.x;
    node.max_x = a;
    let mut a = node.max_y;
    a[slot] = bb.max.y;
    node.max_y = a;
    let mut a = node.max_z;
    a[slot] = bb.max.z;
    node.max_z = a;
    out[p] = node;
    counts[p] = counts[p] + 1;
    proof {
        assert(node_entries(out@[p as int]).take(slot + 1 as int) =~= node_entries(
            old(out)@[p as int],
        ).take(slot as int).push(e));
    }
}


/// The breadth-first flattening loop for a branch root: element 0 is a
/// blank node whose first child becomes the root branch; each popped
/// branch is assigned the next append position before being appended, so
/// the array stays append-only and index-stable.
#[verifier::rlimit(100)]
fn flatten_branch(root: BvhNode) -> (out: Vec<GpuStorageBvhNode>)
    requires
        root.prims_bounded(),
        2 <= root.prims().len() <= 0x5555_5555,
    ensures
        out@.len() >= 1,
        full_entries(out@).to_multiset().filter(neg_pred()) == encode_prims(
            root.prims(),
        ).to_multiset(),
        full_entries(out@).to_multiset().filter(pos_pred()) == ref_ids(
            out@.len() as int,
        ).to_multiset(),
        out@.len() == 1 + wide_count(root),
        exists|meaning: Seq<BvhNode>| flat_represents(out@, meaning, root),
{
    broadcast use vstd::multiset::group_multiset_axioms;

    let ghost root_g = root;
    let ghost m_total = root.prims().len() as int;
    let mut out: Vec<GpuStorageBvhNode> = Vec::new();
    let mut counts: Vec<u8> = Vec::new();
    out.push(blank_node());
    counts.push(0);
    let mut queue: Vec<(BvhNode, usize)> = Vec::new();
    queue.push((root, 0));
    let ghost mut meaning: Seq<BvhNode> = seq![root_g];
    proof {
        assert(queue@[0] == (root_g, 0usize));
        assert(queue@.drop_first() =~= Seq::<(BvhNode, usize)>::empty());
        assert(qp(queue@.drop_first()) == Seq::<u32>::empty());
        assert(qbr(queue@.drop_first()) == 0);
        assert(qsize(queue@.drop_first()) == 0);
        assert(qp(queue@) == queue@[0].0.prims() + qp(queue@.drop_first()));
        assert(qp(queue@) =~= root_g.prims());
        assert(qbr(queue@) == (queue@[0].0.prims().len() - 1) + qbr(queue@.drop_first()));
        assert(qsize(queue@) == queue@[0].0.size() + qsize(queue@.drop_first()));
        assert forall|p: int| 0 <= p < out@.len() implies counts@[p] + pending(queue@, p)
            <= 4 by {
            assert(pending(queue@, p) == (if queue@[0].1 == p {
                1int
            } else {
                0
            }) + pending(queue@.drop_first(), p));
        }
        assert(node_entries(out@[0]).take(0) =~= Seq::<i32>::empty());
        assert(entries_upto(out@, counts@, 0) == Seq::<i32>::empty());
        assert(entries_all(out@, counts@) =~= Seq::<i32>::empty());
        Seq::<i32>::empty().to_multiset_ensures();
        assert(Seq::<i32>::empty().to_multiset() =~= Multiset::<i32>::empty());
        assert(Seq::<i32>::empty().to_multiset().filter(neg_pred()) =~= Multiset::<i32>::empty());
        assert(Seq::<i32>::empty().to_multiset().filter(pos_pred()) =~= Multiset::<i32>::empty());
        assert(Multiset::<i32>::empty().add(encode_prims(qp(queue@)).to_multiset())
            =~= encode_prims(root_g.prims()).to_multiset());
        assert(ref_ids(1) =~= Seq::<i32>::empty());
        // Representation bookkeeping: node 0 stands for the whole tree,
        // whose single pending wide child is the tree itself.
        assert(meaning.len() == out@.len());
        assert(meaning[0] == root_g);
        assert(qf(queue@.drop_first(), 0int) == Seq::<BvhNode>::empty());
        assert(qwn(queue@.drop_first()) == 0);
        assert(qwn(queue@) == wide_count(queue@[0].0) + qwn(queue@.drop_first()));
        assert forall|j: int| 0 <= j < out@.len() implies #[trigger] qf(queue@, j)
            == node_children(j, meaning, root_g).skip(counts@[j] as int) by {
            assert(j == 0);
            assert(qf(queue@.drop_first(), 0int) == Seq::<BvhNode>::empty());
            assert(qf(queue@, 0int) == seq![queue@[0].0] + qf(queue@.drop_first(), 0int));
            assert(qf(queue@, 0int) =~= node_children(0, meaning, root_g).skip(0));
        }
        assert(node_children(0, meaning, root_g).len() == 1);
    }
    while queue.len() > 0
        invariant
            out@.len() == counts@.len(),
            1 <= out@.len(),
            out@.len() + qbr(queue@) <= m_total,
            m_total == root_g.prims().len() <= 0x5555_5555,
            forall|j: int| 0 <= j < counts@.len() ==> (#[trigger] counts@[j]) <= 4,
            forall|j: int, k: int|
                0 <= j < out@.len() && counts@[j] <= k < 4 ==> (#[trigger] out@[j].indices@[k])
                    == 0,
            forall|i: int| 0 <= i < queue@.len() ==> (#[trigger] queue@[i]).1 < out@.len(),
            forall|i: int| 0 <= i < queue@.len() ==> (#[trigger] queue@[i]).0.prims_bounded(),
            forall|p: int| 0 <= p < out@.len() ==> counts@[p] + pending(queue@, p) <= 4,
            entries_all(out@, counts@).to_multiset().filter(neg_pred()).add(
                encode_prims(qp(queue@)).to_multiset(),
            ) == encode_prims(root_g.prims()).to_multiset(),
            entries_all(out@, counts@).to_multiset().filter(pos_pred()) == ref_ids(
                out@.len() as int,
            ).to_multiset(),
            meaning.len() == out@.len(),
            meaning[0] == root_g,
            forall|j: int|
                0 <= j < out@.len() ==> #[trigger] node_children(j, meaning, root_g).len() <= 4
                    && counts@[j] <= node_children(j, meaning, root_g).len(),
            forall|j: int, k: int|
                0 <= j < out@.len() && 0 <= k < counts@[j] ==> #[trigger] slot_denotes(
                    out@[j],
                    k,
                    node_children(j, meaning, root_g)[k],
                    out@,
                    meaning,
                ),
            forall|j: int|
                0 <= j < out@.len() ==> #[trigger] qf(queue@, j) == node_children(
                    j,
                    meaning,
                    root_g,
                ).skip(counts@[j] as int),
            out@.len() + qwn(queue@) == 1 + wide_count(root_g),
        decreases qsize(queue@),
    {
        let ghost q0 = queue@;
        let ghost out_at_entry = out@;
        let (node, p) = queue.remove(0);
        let ghost node_g = node;
        let ghost m0 = meaning;
        let ghost chp = node_children(p as int, meaning, root_g);
        let ghost cp = counts@[p as int] as int;
        proof {
            assert(q0.remove(0) =~= q0.drop_first());
            assert(queue@ == q0.drop_first());
            assert(q0[0] == (node_g, p));
            lemma_qbr_nonneg(queue@);
            lemma_pending_nonneg(queue@, p as int);
            assert(pending(q0, p as int) == 1 + pending(queue@, p as int));
            assert(counts@[p as int] < 4);
            assert(qp(q0) == node_g.prims() + qp(queue@));
            assert(qbr(q0) == (node_g.prims().len() - 1) + qbr(queue@));
            assert(qsize(q0) == node_g.size() + qsize(queue@));
            lemma_encode_add(node_g.prims(), qp(queue@));
            lemma_multiset_commutative(encode_prims(node_g.prims()), encode_prims(qp(queue@)));
            // The popped item is the next wide child of its parent, and the
            // queue keeps the rest of that parent's children in order.
            assert(qwn(q0) == wide_count(node_g) + qwn(queue@));
            assert(qf(q0, p as int) == seq![node_g] + qf(queue@, p as int));
            assert forall|j: int| j != p implies #[trigger] qf(q0, j) == qf(queue@, j) by {
                assert(qf(q0, j) == Seq::<BvhNode>::empty() + qf(queue@, j));
                assert(Seq::<BvhNode>::empty() + qf(queue@, j) =~= qf(queue@, j));
            }
            assert(qf(q0, p as int) == chp.skip(cp));
            assert(chp.skip(cp).len() == chp.len() - cp);
            assert(cp < chp.len());
            assert(chp.skip(cp)[0] == chp[cp]);
            assert(chp[cp] == node_g);
            assert(qf(queue@, p as int) =~= chp.skip(cp + 1)) by {
                assert(qf(queue@, p as int).len() == chp.skip(cp + 1).len());
                assert forall|i: int| 0 <= i < qf(queue@, p as int).len() implies qf(
                    queue@,
                    p as int,
                )[i] == chp.skip(cp + 1)[i] by {
                    assert((seq![node_g] + qf(queue@, p as int))[i + 1] == qf(queue@, p as int)[i]);
                    assert(chp.skip(cp)[i + 1] == chp[cp + 1 + i]);
                    assert(chp.skip(cp + 1)[i] == chp[cp + 1 + i]);
                }
            }
        }
        match node {
            BvhNode::Leaf(l) => {
                proof {
                    assert(node_g.prims() =~= seq![l.idx]);
                    assert(node_g.prims()[0] == l.idx);
                    assert(l.idx < 0x7FFF_FFFF);
                }
                let e: i32 = -((l.idx + 1) as i32);
                let ghost out0 = out@;
                let ghost cnt0 = counts@;
                write_child_slot(&mut out, &mut counts, p, e, &l.aabb);
                proof {
                    let ent0 = entries_all(out0, cnt0);
                    lemma_entries_update(
                        out0,
                        cnt0,
                        out@,
                        counts@,
                        p as int,
                        e,
                        out0.len() as int,
                    );
                    assert(entries_all(out@, counts@).to_multiset() == ent0.to_multiset().insert(
                        e,
                    ));
                    lemma_filter_insert(ent0.to_multiset(), neg_pred(), e);
                    lemma_filter_insert(ent0.to_multiset(), pos_pred(), e);
                    assert(e == encode_leaf(l.idx));
                    assert(encode_prims(node_g.prims()) =~= Seq::<i32>::empty().push(e));
                    Seq::<i32>::empty().to_multiset_ensures();
                    Seq::<i32>::empty().push(e).to_multiset_ensures();
                    assert(Seq::<i32>::empty().push(e).to_multiset() =~= Multiset::<
                        i32,
                    >::empty().insert(e));
                    lemma_add_insert(
                        entries_all(out@, counts@).to_multiset().filter(neg_pred()),
                        encode_prims(qp(queue@)).to_multiset(),
                        e,
                    );
                    lemma_add_insert(
                        ent0.to_multiset().filter(neg_pred()),
                        encode_prims(qp(queue@)).to_multiset(),
                        e,
                    );
                    assert(entries_all(out@, counts@).to_multiset().filter(neg_pred()).add(
                        encode_prims(qp(queue@)).to_multiset(),
                    ) =~= encode_prims(root_g.prims()).to_multiset());
                    // Slot bookkeeping for the other invariants.
                    assert forall|x: int| 0 <= x < out@.len() implies counts@[x] + pending(
                        queue@,
                        x,
                    ) <= 4 by {
                        lemma_pending_nonneg(queue@, x);
                        assert(pending(q0, x) == (if q0[0].1 == x {
                            1int
                        } else {
                            0
                        }) + pending(queue@, x));
                    }
                    assert forall|j: int, k: int|
                        0 <= j < out@.len() && counts@[j] <= k < 4 implies (
                    #[trigger] out@[j].indices@[k]) == 0 by {
                        if j == p {
                            assert(out@[j].indices@ == out0[j].indices@.update(
                                cnt0[j as int] as int,
                                e,
                            ));
                        }
                    }
                    // Representation: the filled slot now denotes the
                    // popped leaf; every other slot is untouched.
                    assert(slot_box(out@[p as int], cp) == l.aabb);
                    assert(out@[p as int].indices@[cp] == e);
                    assert(slot_denotes(out@[p as int], cp, node_g, out@, meaning));
                    assert forall|j: int, k: int|
                        0 <= j < out@.len() && 0 <= k < counts@[j] implies #[trigger] slot_denotes(
                        out@[j],
                        k,
                        node_children(j, meaning, root_g)[k],
                        out@,
                        meaning,
                    ) by {
                        if j == p && k == cp {
                            assert(node_children(j, meaning, root_g)[k] == node_g);
                        } else {
                            assert(slot_denotes(
                                out0[j],
                                k,
                                node_children(j, meaning, root_g)[k],
                                out0,
                                meaning,
                            ));
                            if j == p {
                                assert(out@[j].indices@[k] == out0[j].indices@[k]);
                                assert(out@[j].min_x@[k] == out0[j].min_x@[k]);
                                assert(out@[j].min_y@[k] == out0[j].min_y@[k]);
                                assert(out@[j].min_z@[k] == out0[j].min_z@[k]);
                                assert(out@[j].max_x@[k] == out0[j].max_x@[k]);
                                assert(out@[j].max_y@[k] == out0[j].max_y@[k]);
                                assert(out@[j].max_z@[k] == out0[j].max_z@[k]);
                            }
                            assert(slot_box(out@[j], k) == slot_box(out0[j], k));
                            lemma_slot_denotes_frame(
                                out0[j],
                                out@[j],
                                k,
                                node_children(j, meaning, root_g)[k],
                                out0,
                                out@,
                                meaning,
                                meaning,
                            );
                        }
                    }
                    assert forall|j: int| 0 <= j < out@.len() implies #[trigger] qf(queue@, j)
                        == node_children(j, meaning, root_g).skip(counts@[j] as int) by {
                        if j != p {
                            assert(qf(q0, j) == qf(queue@, j));
                        }
                    }
                }
            },
            BvhNode::Branch { left, right, aabb } => {
                let ghost lg = *left;
                let ghost rg = *right;
                proof {
                    crate::bvh::lemma_prims_len_pos(lg);
                    crate::bvh::lemma_prims_len_pos(rg);
                    assert(node_g.prims() == lg.prims() + rg.prims());
                    assert(node_g.prims().len() >= 2);
                    assert(out@.len() <= m_total - 1);
                    crate::bvh::lemma_prims_bounded_parts(lg, rg, node_g);
                }
                let e: i32 = out.len() as i32;
                let ghost out0 = out@;
                let ghost cnt0 = counts@;
                write_child_slot(&mut out, &mut counts, p, e, &aabb);
                let ghost out1 = out@;
                let ghost cnt1 = counts@;
                out.push(blank_node());
                counts.push(0);
                proof {
                    meaning = meaning.push(node_g);
                }
                let child_idx = out.len() - 1;
                let ghost q1 = queue@;
                let lnode = *left;
                match lnode {
                    BvhNode::Leaf(l2) => {
                        queue.push((BvhNode::Leaf(l2), child_idx));
                        proof {
                            lemma_queue_push(q1, (lg, child_idx));
                            lemma_pending_push_all(q1, (lg, child_idx));
                            lemma_qf_push_all(q1, (lg, child_idx));
                            assert(side_items(lg) =~= seq![lg]);
                            assert(qf(queue@, child_idx as int) =~= qf(q1, child_idx as int)
                                + side_items(lg));
                            assert forall|j: int| j != child_idx implies #[trigger] qf(queue@, j)
                                == qf(q1, j) by {
                                assert(qf(q1, j) + Seq::<BvhNode>::empty() =~= qf(q1, j));
                            }
                            assert(qwn(queue@) == qwn(q1) + side_wide(lg));
                        }
                    },
                    BvhNode::Branch { left: ll, right: lr, aabb: la } => {
                        let ghost llg = *ll;
                        let ghost lrg = *lr;
                        queue.push((*ll, child_idx));
                        let ghost qm = queue@;
                        queue.push((*lr, child_idx));
                        proof {
                            lemma_queue_push(q1, qm[qm.len() - 1]);
                            lemma_queue_push(qm, queue@[queue@.len() - 1]);
                            lemma_pending_push_all(q1, qm[qm.len() - 1]);
                            lemma_pending_push_all(qm, queue@[queue@.len() - 1]);
                            crate::bvh::lemma_prims_bounded_parts(llg, lrg, lg);
                            assert(qp(queue@) =~= qp(q1) + lg.prims());
                            lemma_qf_push_all(q1, (llg, child_idx));
                            lemma_qf_push_all(qm, (lrg, child_idx));
                            assert(side_items(lg) =~= seq![llg, lrg]);
                            assert(qf(qm, child_idx as int) == qf(q1, child_idx as int) + seq![
                                llg,
                            ]);
                            assert(qf(queue@, child_idx as int) =~= qf(q1, child_idx as int)
                                + side_items(lg));
                            assert forall|j: int| j != child_idx implies #[trigger] qf(queue@, j)
                                == qf(q1, j) by {
                                assert(qf(qm, j) == qf(q1, j) + Seq::<BvhNode>::empty());
                                assert(qf(q1, j) + Seq::<BvhNode>::empty() =~= qf(q1, j));
                                assert(qf(queue@, j) == qf(qm, j) + Seq::<BvhNode>::empty());
                                assert(qf(qm, j) + Seq::<BvhNode>::empty() =~= qf(qm, j));
                            }
                            assert(qwn(queue@) == qwn(q1) + side_wide(lg));
                        }
                    },
                }
                let ghost q2 = queue@;
                proof {
                    assert(qp(q2) == qp(q1) + lg.prims());
                    assert(qbr(q2) <= qbr(q1) + (lg.prims().len() - 1));
                    assert(qsize(q2) <= qsize(q1) + lg.size());
                    assert(qf(q2, child_idx as int) == qf(q1, child_idx as int) + side_items(lg));
                    assert(qwn(q2) == qwn(q1) + side_wide(lg));
                }
                let rnode = *right;
                match rnode {
                    BvhNode::Leaf(r2) => {
                        queue.push((BvhNode::Leaf(r2), child_idx));
                        proof {
                            lemma_queue_push(q2, (rg, child_idx));
                            lemma_pending_push_all(q2, (rg, child_idx));
                            lemma_qf_push_all(q2, (rg, child_idx));
                            assert(side_items(rg) =~= seq![rg]);
                            assert(qf(queue@, child_idx as int) =~= qf(q2, child_idx as int)
                                + side_items(rg));
                            assert forall|j: int| j != child_idx implies #[trigger] qf(queue@, j)
                                == qf(q2, j) by {
                                assert(qf(q2, j) + Seq::<BvhNode>::empty() =~= qf(q2, j));
                            }
                            assert(qwn(queue@) == qwn(q2) + side_wide(rg));
                        }
                    },
                    BvhNode::Branch { left: rl, right: rr, aabb: ra } => {
                        let ghost rlg = *rl;
                        let ghost rrg = *rr;
                        queue.push((*rl, child_idx));
                        let ghost qm = queue@;
                        queue.push((*rr, child_idx));
                        proof {
                            lemma_queue_push(q2, qm[qm.len() - 1]);
                            lemma_queue_push(qm, queue@[queue@.len() - 1]);
                            lemma_pending_push_all(q2, qm[qm.len() - 1]);
                            lemma_pending_push_all(qm, queue@[queue@.len() - 1]);
                            crate::bvh::lemma_prims_bounded_parts(rlg, rrg, rg);
                            assert(qp(queue@) =~= qp(q2) + rg.prims());
                            lemma_qf_push_all(q2, (rlg, child_idx));
                            lemma_qf_push_all(qm, (rrg, child_idx));
                            assert(side_items(rg) =~= seq![rlg, rrg]);
                            assert(qf(qm, child_idx as int) == qf(q2, child_idx as int) + seq![
                                rlg,
                            ]);
                            assert(qf(queue@, child_idx as int) =~= qf(q2, child_idx as int)
                                + side_items(rg));
                            assert forall|j: int| j != child_idx implies #[trigger] qf(queue@, j)
                                == qf(q2, j) by {
                                assert(qf(qm, j) == qf(q2, j) + Seq::<BvhNode>::empty());
                                assert(qf(q2, j) + Seq::<BvhNode>::empty() =~= qf(q2, j));
                                assert(qf(queue@, j) == qf(qm, j) + Seq::<BvhNode>::empty());
                                assert(qf(qm, j) + Seq::<BvhNode>::empty() =~= qf(qm, j));
                            }
                            assert(qwn(queue@) == qwn(q2) + side_wide(rg));
                        }
                    },
                }
                proof {
                    let q3 = queue@;
                    assert(qp(q3) == qp(q2) + rg.prims());
                    assert(qp(q3) =~= qp(q1) + node_g.prims());
                    assert(qbr(q3) <= qbr(q1) + (node_g.prims().len() - 2));
                    assert(qsize(q3) <= qsize(q1) + lg.size() + rg.size());
                    assert(qsize(q3) < qsize(q0));
                    // Entry accounting: one positive reference written, no
                    // change to the pending leaf encodings.
                    let ent0 = entries_all(out0, cnt0);
                    lemma_entries_update(
                        out0,
                        cnt0,
                        out1,
                        cnt1,
                        p as int,
                        e,
                        out0.len() as int,
                    );
                    assert(out@ =~= out1.push(out@[out@.len() - 1]));
                    assert(counts@ =~= cnt1.push(0u8));
                    lemma_entries_append(out1, cnt1, out@[out@.len() - 1]);
                    assert(entries_all(out@, counts@) == entries_all(out1, cnt1));
                    assert(entries_all(out@, counts@).to_multiset() == ent0.to_multiset().insert(
                        e,
                    ));
                    lemma_filter_insert(ent0.to_multiset(), neg_pred(), e);
                    lemma_filter_insert(ent0.to_multiset(), pos_pred(), e);
                    assert(e > 0);
                    lemma_encode_add(qp(q1), node_g.prims());
                    lemma_multiset_commutative(encode_prims(qp(q1)), encode_prims(node_g.prims()));
                    assert(encode_prims(qp(q3)).to_multiset() =~= encode_prims(
                        qp(q0),
                    ).to_multiset());
                    assert(entries_all(out@, counts@).to_multiset().filter(neg_pred()).add(
                        encode_prims(qp(q3)).to_multiset(),
                    ) =~= encode_prims(root_g.prims()).to_multiset());
                    // The positive references grow with the array.
                    assert(ref_ids(out@.len() as int) =~= ref_ids(out0.len() as int).push(e));
                    ref_ids(out0.len() as int).to_multiset_ensures();
                    assert(entries_all(out@, counts@).to_multiset().filter(pos_pred())
                        =~= ref_ids(out@.len() as int).to_multiset());
                    // Slot bookkeeping.
                    assert forall|x: int| 0 <= x < out@.len() implies counts@[x] + pending(q3, x)
                        <= 4 by {
                        lemma_pending_nonneg(q1, x);
                        assert(pending(q0, x) == (if q0[0].1 == x {
                            1int
                        } else {
                            0
                        }) + pending(q1, x));
                        if x == child_idx {
                            assert(pending(q1, x) == 0) by {
                                lemma_pending_in_range(q1, x);
                            }
                        }
                    }
                    assert forall|j: int, k: int|
                        0 <= j < out@.len() && counts@[j] <= k < 4 implies (
                    #[trigger] out@[j].indices@[k]) == 0 by {
                        if j == p {
                            assert(out@[j] == out1[j]);
                            assert(out1[j].indices@ == out0[j].indices@.update(
                                cnt0[j as int] as int,
                                e,
                            ));
                        } else if j == out@.len() - 1 {
                            assert(out@[j].indices@ =~= seq![0i32, 0i32, 0i32, 0i32]);
                        }
                    }
                    // Representation: the appended node now stands for the
                    // popped branch, the filled slot references it, and the
                    // branch's wide children are pending on it in order.
                    assert(meaning == m0.push(node_g));
                    assert(meaning.len() == out@.len());
                    assert(meaning[child_idx as int] == node_g);
                    assert forall|j: int| 0 <= j < m0.len() implies #[trigger] meaning[j]
                        == m0[j] by {}
                    assert forall|j: int| 0 <= j < out0.len() implies node_children(
                        j,
                        meaning,
                        root_g,
                    ) == node_children(j, m0, root_g) by {}
                    assert(node_g == (BvhNode::Branch { left, right, aabb }));
                    assert(collapse_items(node_g) == side_items(lg) + side_items(rg));
                    assert(side_items(lg).len() <= 2 && side_items(rg).len() <= 2);
                    assert(node_children(child_idx as int, meaning, root_g) == collapse_items(
                        node_g,
                    ));
                    // No earlier queue item could name the brand-new node.
                    assert forall|i: int| 0 <= i < q1.len() implies (#[trigger] q1[i]).1
                        != child_idx by {
                        assert(q1[i] == q0[i + 1]);
                        assert(q0[i + 1].1 < out_at_entry.len());
                    }
                    lemma_qf_absent(q1, child_idx as int);
                    assert(qf(q3, child_idx as int) == qf(q2, child_idx as int) + side_items(rg));
                    assert(qf(q3, child_idx as int) =~= collapse_items(node_g));
                    assert(qf(q3, child_idx as int) =~= node_children(
                        child_idx as int,
                        meaning,
                        root_g,
                    ).skip(0));
                    assert forall|j: int| 0 <= j < out@.len() implies #[trigger] qf(q3, j)
                        == node_children(j, meaning, root_g).skip(counts@[j] as int) by {
                        if j == child_idx {
                        } else {
                            assert(qf(q3, j) == qf(q2, j));
                            assert(qf(q2, j) == qf(q1, j));
                            if j == p {
                                assert(qf(q1, j) =~= chp.skip(cp + 1));
                                assert(node_children(j, meaning, root_g) == chp);
                            } else {
                                assert(qf(q1, j) == qf(q0, j));
                                assert(qf(q0, j) == node_children(j, m0, root_g).skip(
                                    counts@[j] as int,
                                ));
                            }
                        }
                    }
                    // The filled slot references the new node with the
                    // branch's own box.
                    assert(out@[p as int] == out1[p as int]);
                    assert(slot_box(out@[p as int], cp) == aabb);
                    assert(out@[p as int].indices@[cp] == e);
                    assert(e == child_idx as i32);
                    assert(slot_denotes(out@[p as int], cp, node_g, out@, meaning)) by {
                        assert(0 < child_idx < out@.len());
                        assert(meaning[child_idx as int] == node_g);
                        assert(out@[p as int].indices@[cp] == child_idx);
                    }
                    assert forall|j: int, k: int|
                        0 <= j < out@.len() && 0 <= k < counts@[j] implies #[trigger] slot_denotes(
                        out@[j],
                        k,
                        node_children(j, meaning, root_g)[k],
                        out@,
                        meaning,
                    ) by {
                        if j == p && k == cp {
                            assert(node_children(j, meaning, root_g)[k] == node_g);
                        } else if j == child_idx {
                            assert(counts@[j] == 0);
                        } else {
                            assert(j < out0.len());
                            assert(slot_denotes(
                                out0[j],
                                k,
                                node_children(j, m0, root_g)[k],
                                out0,
                                m0,
                            ));
                            if j == p {
                                assert(out@[j] == out1[j]);
                                assert(out@[j].indices@[k] == out0[j].indices@[k]);
                                assert(out@[j].min_x@[k] == out0[j].min_x@[k]);
                                assert(out@[j].min_y@[k] == out0[j].min_y@[k]);
                                assert(out@[j].min_z@[k] == out0[j].min_z@[k]);
                                assert(out@[j].max_x@[k] == out0[j].max_x@[k]);
                                assert(out@[j].max_y@[k] == out0[j].max_y@[k]);
                                assert(out@[j].max_z@[k] == out0[j].max_z@[k]);
                            } else {
                                assert(out@[j] == out0[j]);
                            }
                            assert(slot_box(out@[j], k) == slot_box(out0[j], k));
                            lemma_slot_denotes_frame(
                                out0[j],
                                out@[j],
                                k,
                                node_children(j, m0, root_g)[k],
                                out0,
                                out@,
                                m0,
                                meaning,
                            );
                            assert(node_children(j, meaning, root_g)[k] == node_children(
                                j,
                                m0,
                                root_g,
                            )[k]);
                        }
                    }
                    // One wide node moved from pending to appended.
                    assert(qwn(q3) == qwn(q1) + side_wide(lg) + side_wide(rg));
                    assert(wide_count(node_g) == 1 + side_wide(lg) + side_wide(rg));
                    assert(out@.len() + qwn(q3) == 1 + wide_count(root_g));
                    assert forall|j: int|
                        0 <= j < out@.len() implies #[trigger] node_children(j, meaning, root_g).len()
                            <= 4 && counts@[j] <= node_children(j, meaning, root_g).len() by {
                        if j == child_idx {
                        } else if j == p {
                            assert(node_children(j, meaning, root_g) == chp);
                        } else {
                            assert(node_children(j, meaning, root_g) == node_children(
                                j,
                                m0,
                                root_g,
                            ));
                        }
                    }
                }
            },
        }
    }
    proof {
        assert(qp(queue@) =~= Seq::<u32>::empty());
        assert(encode_prims(qp(queue@)) =~= Seq::<i32>::empty());
        Seq::<i32>::empty().to_multiset_ensures();
        assert(Seq::<i32>::empty().to_multiset() =~= Multiset::<i32>::empty());
        let ent = entries_all(out@, counts@);
        assert(ent.to_multiset().filter(neg_pred()).add(Multiset::<i32>::empty())
            =~= ent.to_multiset().filter(neg_pred()));
        // Unused slots are all zero, so they change neither filter.
        assert(out@.take(out@.len() as int) =~= out@);
        assert forall|e: i32|
            full_entries(out@).to_multiset().filter(neg_pred()).count(e) == ent.to_multiset().filter(
                neg_pred(),
            ).count(e) by {
            if e != 0 {
                lemma_entries_padding(out@, counts@, e, out@.len() as int);
            }
        }
        assert(full_entries(out@).to_multiset().filter(neg_pred()) =~= ent.to_multiset().filter(
            neg_pred(),
        ));
        assert forall|e: i32|
            full_entries(out@).to_multiset().filter(pos_pred()).count(e) == ent.to_multiset().filter(
                pos_pred(),
            ).count(e) by {
            if e != 0 {
                lemma_entries_padding(out@, counts@, e, out@.len() as int);
            }
        }
        assert(full_entries(out@).to_multiset().filter(pos_pred()) =~= ent.to_multiset().filter(
            pos_pred(),
        ));
        // The queue drained, so every node's slots are fully written and
        // the array denotes the tree under the recorded assignment.
        assert forall|j: int| 0 <= j < out@.len() implies counts@[j] as int == node_children(
            j,
            meaning,
            root_g,
        ).len() by {
            assert(qf(queue@, j) == node_children(j, meaning, root_g).skip(counts@[j] as int));
            assert(qf(queue@, j) == Seq::<BvhNode>::empty());
            assert(node_children(j, meaning, root_g).skip(counts@[j] as int).len()
                == node_children(j, meaning, root_g).len() - counts@[j]);
        }
        assert(flat_represents(out@, meaning, root_g));
        assert(exists|m: Seq<BvhNode>| flat_represents(out@, m, root_g)) by {
            assert(flat_represents(out@, meaning, root_g));
        }
        assert(qwn(queue@) == 0);
    }
    out
}

proof fn lemma_pending_push_all(q: Seq<(BvhNode, usize)>, it: (BvhNode, usize))
    ensures
        pending_after_push(q, it),
{
    assert forall|p: int|
        pending(q.push(it), p) == pending(q, p) + (if it.1 == p {
            1int
        } else {
            0
        }) by {
        lemma_pending_push(q, it, p);
    }
}

/// A pending-count ledger for one push, stated for every parent at once.
spec fn pending_after_push(q: Seq<(BvhNode, usize)>, it: (BvhNode, usize)) -> bool {
    forall|p: int|
        pending(q.push(it), p) == pending(q, p) + if it.1 == p {
            1int
        } else {
            0
        }
}

/// No queued item can point at a node that does not exist yet.
proof fn lemma_pending_in_range(q: Seq<(BvhNode, usize)>, p: int)
    requires
        forall|i: int| 0 <= i < q.len() ==> (#[trigger] q[i]).1 != p,
    ensures
        pending(q, p) == 0,
    decreases q.len(),
{
    if q.len() > 0 {
        assert forall|i: int| 0 <= i < q.drop_first().len() implies (
        #[trigger] q.drop_first()[i]).1 != p by {
            assert(q.drop_first()[i] == q[i + 1]);
        }
        lemma_pending_in_range(q.drop_first(), p);
    }
}


impl BvhNode {
    /// Flattening completeness: the negative entries of the flattened
    /// array are exactly the encoded leaf primitives of the tree, one per
    /// leaf, none lost or duplicated; and every node of the array except
    /// the one at offset 0 is referenced by exactly one positive parent
    /// slot. A tree that is a single leaf becomes a one-element array
    /// whose sole filled slot encodes that leaf.
    pub fn flatten_to_blas(self) -> (out: Vec<GpuStorageBvhNode>)
        requires
            self.prims_bounded(),
            self.prims().len() <= 0x5555_5555,
        ensures
            out@.len() >= 1,
            full_entries(out@).to_multiset().filter(neg_pred()) == encode_prims(
                self.prims(),
            ).to_multiset(),
            full_entries(out@).to_multiset().filter(neg_pred()).len() == self.leaf_count(),
            full_entries(out@).to_multiset().filter(pos_pred()) == ref_ids(
                out@.len() as int,
            ).to_multiset(),
            out@.len() == flat_len(self),
            exists|meaning: Seq<BvhNode>| flat_represents(out@, meaning, self),
            self matches BvhNode::Leaf(l) ==> out@.len() == 1 && out@[0].indices@ == seq![
                encode_leaf(l.idx),
                0i32,
                0i32,
                0i32,
            ] && out@[0].min_x@ == seq![l.aabb.min.x, 0u32, 0u32, 0u32] && out@[0].min_y@ == seq![
                l.aabb.min.y,
                0u32,
                0u32,
                0u32,
            ] && out@[0].min_z@ == seq![l.aabb.min.z, 0u32, 0u32, 0u32] && out@[0].max_x@ == seq![
                l.aabb.max.x,
                0u32,
                0u32,
                0u32,
            ] && out@[0].max_y@ == seq![l.aabb.max.y, 0u32, 0u32, 0u32] && out@[0].max_z@ == seq![
                l.aabb.max.z,
                0u32,
                0u32,
                0u32,
            ],
    {
        broadcast use vstd::multiset::group_multiset_axioms;

        let ghost tree = self;
        match self {
            BvhNode::Leaf(l) => {
                proof {
                    assert(tree.prims() =~= seq![l.idx]);
                    assert(tree.prims()[0] == l.idx);
                    assert(l.idx < 0x7FFF_FFFF);
                }
                let e: i32 = -((l.idx + 1) as i32);
                let node = GpuStorageBvhNode {
                    min_x: [l.aabb.min.x, 0, 0, 0],
                    min_y: [l.aabb.min.y, 0, 0, 0],
                    min_z: [l.aabb.min.z, 0, 0, 0],
                    max_x: [l.aabb.max.x, 0, 0, 0],
                    max_y: [l.aabb.max.y, 0, 0, 0],
                    max_z: [l.aabb.max.z, 0, 0, 0],
                    indices: [e, 0, 0, 0],
                    _pad: [0, 0, 0, 0],
                };
                let mut out: Vec<GpuStorageBvhNode> = Vec::new();
                out.push(node);
                proof {
                    assert(out@.drop_last() =~= Seq::<GpuStorageBvhNode>::empty());
                    assert(full_entries(out@.drop_last()) == Seq::<i32>::empty());
                    assert(full_entries(out@) =~= node_entries(node));
                    assert(node.indices@ =~= seq![e, 0i32, 0i32, 0i32]);
                    assert(node_entries(node) =~= Seq::<i32>::empty().push(e).push(0).push(
                        0,
                    ).push(0));
                    let s0 = Seq::<i32>::empty();
                    s0.to_multiset_ensures();
                    s0.push(e).to_multiset_ensures();
                    s0.push(e).push(0).to_multiset_ensures();
                    s0.push(e).push(0).push(0).to_multiset_ensures();
                    assert(s0.to_multiset() =~= Multiset::<i32>::empty());
                    let m = Multiset::<i32>::empty().insert(e).insert(0).insert(0).insert(0);
                    assert(full_entries(out@).to_multiset() =~= m);
                    lemma_filter_insert(Multiset::<i32>::empty(), neg_pred(), e);
                    lemma_filter_insert(Multiset::<i32>::empty().insert(e), neg_pred(), 0);
                    lemma_filter_insert(Multiset::<i32>::empty().insert(e).insert(0), neg_pred(), 0);
                    lemma_filter_insert(
                        Multiset::<i32>::empty().insert(e).insert(0).insert(0),
                        neg_pred(),
                        0,
                    );
                    lemma_filter_insert(Multiset::<i32>::empty(), pos_pred(), e);
                    lemma_filter_insert(Multiset::<i32>::empty().insert(e), pos_pred(), 0);
                    lemma_filter_insert(Multiset::<i32>::empty().insert(e).insert(0), pos_pred(), 0);
                    lemma_filter_insert(
                        Multiset::<i32>::empty().insert(e).insert(0).insert(0),
                        pos_pred(),
                        0,
                    );
                    assert(Multiset::<i32>::empty().filter(neg_pred()) =~= Multiset::<i32>::empty());
                    assert(Multiset::<i32>::empty().filter(pos_pred()) =~= Multiset::<i32>::empty());
                    assert(e == encode_leaf(l.idx));
                    assert(encode_prims(tree.prims()) =~= s0.push(e));
                    s0.push(e).to_multiset_ensures();
                    assert(encode_prims(tree.prims()).to_multiset() =~= Multiset::<
                        i32,
                    >::empty().insert(e));
                    assert(full_entries(out@).to_multiset().filter(neg_pred()) =~= encode_prims(
                        tree.prims(),
                    ).to_multiset());
                    assert(ref_ids(1) =~= Seq::<i32>::empty());
                    assert(full_entries(out@).to_multiset().filter(pos_pred()) =~= ref_ids(
                        1,
                    ).to_multiset());
                    assert(out@[0].min_x@ =~= seq![l.aabb.min.x, 0u32, 0u32, 0u32]);
                    assert(out@[0].min_y@ =~= seq![l.aabb.min.y, 0u32, 0u32, 0u32]);
                    assert(out@[0].min_z@ =~= seq![l.aabb.min.z, 0u32, 0u32, 0u32]);
                    assert(out@[0].max_x@ =~= seq![l.aabb.max.x, 0u32, 0u32, 0u32]);
                    assert(out@[0].max_y@ =~= seq![l.aabb.max.y, 0u32, 0u32, 0u32]);
                    assert(out@[0].max_z@ =~= seq![l.aabb.max.z, 0u32, 0u32, 0u32]);
                    encode_prims(tree.prims()).to_multiset_ensures();
                    assert(encode_prims(tree.prims()).len() == tree.prims().len());
                    // The one-element array denotes the one-leaf tree.
                    let m = seq![tree];
                    assert(node_children(0, m, tree) =~= seq![tree]);
                    assert(slot_box(out@[0], 0) == l.aabb);
                    assert(out@[0].indices@[0] == encode_leaf(l.idx));
                    assert(slot_denotes(out@[0], 0, tree, out@, m));
                    assert(flat_represents(out@, m, tree)) by {
                        assert forall|j: int, k: int|
                            0 <= j < out@.len() && 0 <= k < node_children(j, m, tree).len() implies
                            #[trigger] slot_denotes(
                            out@[j],
                            k,
                            node_children(j, m, tree)[k],
                            out@,
                            m,
                        ) by {
                            assert(j == 0 && k == 0);
                        }
                        assert forall|j: int, k: int|
                            0 <= j < out@.len() && node_children(j, m, tree).len() <= k
                                < 4 implies (#[trigger] out@[j].indices@[k]) == 0 by {
                            assert(j == 0);
                            assert(out@[0].indices@ =~= seq![encode_leaf(l.idx), 0i32, 0i32, 0i32]);
                        }
                    }
                    assert(exists|m2: Seq<BvhNode>| flat_represents(out@, m2, tree)) by {
                        assert(flat_represents(out@, m, tree));
                    }
                }
                out
            },
            BvhNode::Branch { left, right, aabb } => {
                let root = BvhNode::Branch { left, right, aabb };
                proof {
                    assert(root == tree);
                    crate::bvh::lemma_prims_len_pos(*root->Branch_left);
                    crate::bvh::lemma_prims_len_pos(*root->Branch_right);
                }
                let out = flatten_branch(root);
                proof {
                    encode_prims(tree.prims()).to_multiset_ensures();
                    assert(encode_prims(tree.prims()).len() == tree.prims().len());
                }
                out
            },
        }
    }
}

} // verus!
