//! Vertex deduplication: a raw triangle soup becomes an indexed vertex list
//! plus triangles of vertex indices, by sort and sweep.
use vstd::prelude::*;
use vstd::seq_lib::*;
use vstd::multiset::Multiset;
use rayon::slice::ParallelSliceMut;

use crate::aabb::{Aabb, Point3};

verus! {

/// Bound on triangles per mesh, so that every vertex-group index fits in
/// `u32` (a mesh of N triangles has at most 3*N distinct vertices) and the
/// expanded record list has 3*N entries.
pub const MAX_MESH_TRIS: usize = 0x5555_5555;

/// Default color payload written on every indexed triangle (the renderer's
/// standard pale blue, one word per channel).
pub const DEFAULT_TRI_R: u32 = 0x3F00_0000;

pub const DEFAULT_TRI_G: u32 = 0x3F00_0000;

pub const DEFAULT_TRI_B: u32 = 0x3F80_0000;

pub const DEFAULT_TRI_A: u32 = 0x3F80_0000;

/// One raw triangle of the input soup: three corner positions, no identity
/// beyond source order.
#[derive(Clone, Copy, Debug, PartialEq, Eq, Structural)]
pub struct RawTriangle {
    pub a: Point3,
    pub b: Point3,
    pub c: Point3,
}

impl RawTriangle {
    /// The three corners, in source order.
    pub open spec fn spec_corners(self) -> Seq<Point3> {
        seq![self.a, self.b, self.c]
    }

    /// Builds a triangle from nine scalars, three per corner.
    pub fn from_coords(c: &[u32; 9]) -> (r: RawTriangle)
        ensures
            r.a == (Point3 { x: c@[0], y: c@[1], z: c@[2] }),
            r.b == (Point3 { x: c@[3], y: c@[4], z: c@[5] }),
            r.c == (Point3 { x: c@[6], y: c@[7], z: c@[8] }),
    {
        RawTriangle {
            a: Point3 { x: c[0], y: c[1], z: c[2] },
            b: Point3 { x: c[3], y: c[4], z: c[5] },
            c: Point3 { x: c[6], y: c[7], z: c[8] },
        }
    }

    /// The least box holding all three corners.
    pub open spec fn spec_aabb(self) -> Aabb {
        Aabb::spec_max_inv().spec_grown(self.a).spec_grown(self.b).spec_grown(self.c)
    }

    pub fn get_aabb(&self) -> (r: Aabb)
        ensures
            r == self.spec_aabb(),
            r.spec_valid(),
            r.spec_contains_point(self.a) && r.spec_contains_point(self.b)
                && r.spec_contains_point(self.c),
    {
        let mut aabb = Aabb::new_max_inv();
        aabb.grow_from_point(self.a);
        aabb.grow_from_point(self.b);
        aabb.grow_from_point(self.c);
        aabb
    }

    /// The average of the three corners, per axis.
    pub open spec fn spec_centroid(self) -> Point3 {
        Point3 {
            x: (((self.a.x + self.b.x + self.c.x) as int) / 3) as u32,
            y: (((self.a.y + self.b.y + self.c.y) as int) / 3) as u32,
            z: (((self.a.z + self.b.z + self.c.z) as int) / 3) as u32,
        }
    }

    pub fn get_centroid(&self) -> (r: Point3)
        ensures
            r == self.spec_centroid(),
    {
        let x: u64 = self.a.x as u64 + self.b.x as u64 + self.c.x as u64;
        let y: u64 = self.a.y as u64 + self.b.y as u64 + self.c.y as u64;
        let z: u64 = self.a.z as u64 + self.b.z as u64 + self.c.z as u64;
        Point3 { x: (x / 3) as u32, y: (y / 3) as u32, z: (z / 3) as u32 }
    }
}

/// One indexed triangle: three indices into the deduplicated vertex list,
/// plus the color payload carried to the renderer.
#[derive(Clone, Copy, Debug, PartialEq, Eq)]
pub struct TriangleData {
    pub vertices: [u32; 3],
    pub _pad: u32,
    pub color: [u32; 4],
}

impl Default for TriangleData {
    /// All indices zero, default color.
    fn default() -> (r: TriangleData)
        ensures
            r.vertices@ == seq![0u32, 0u32, 0u32],
            r._pad == 0,
            r.color@ == seq![DEFAULT_TRI_R, DEFAULT_TRI_G, DEFAULT_TRI_B, DEFAULT_TRI_A],
    {
        let r = TriangleData {
            vertices: [0, 0, 0],
            _pad: 0,
            color: [DEFAULT_TRI_R, DEFAULT_TRI_G, DEFAULT_TRI_B, DEFAULT_TRI_A],
        };
        proof {
            assert(r.vertices@ =~= seq![0u32, 0u32, 0u32]);
            assert(r.color@ =~= seq![DEFAULT_TRI_R, DEFAULT_TRI_G, DEFAULT_TRI_B, DEFAULT_TRI_A]);
        }
        r
    }
}

/// A sweep record: one corner position (three keys) tagged with the index
/// of the triangle it came from.
pub type SortRec = (u32, u32, u32, u32);

/// The position part of a record.
pub open spec fn rec_pos(r: SortRec) -> Point3 {
    Point3 { x: r.0, y: r.1, z: r.2 }
}

/// Nondecreasing lexicographic order on records, the order std derives for
/// tuples of unsigned integers.
pub open spec fn rec_le(a: SortRec, b: SortRec) -> bool {
    if a.0 != b.0 {
        a.0 < b.0
    } else if a.1 != b.1 {
        a.1 < b.1
    } else if a.2 != b.2 {
        a.2 < b.2
    } else {
        a.3 <= b.3
    }
}

/// Strict lexicographic order on positions.
pub open spec fn pos_lt(a: Point3, b: Point3) -> bool {
    if a.x != b.x {
        a.x < b.x
    } else if a.y != b.y {
        a.y < b.y
    } else {
        a.z < b.z
    }
}

/// Relies on rayon's `ParallelSliceMut::par_sort_unstable`: it sorts the
/// slice into nondecreasing order under std's derived `Ord` (lexicographic
/// on tuples of unsigned integers), reordering the elements but keeping
/// exactly the same elements.
#[verifier::external_body]
fn par_sort_records(v: &mut Vec<SortRec>)
    ensures
        final(v)@.to_multiset() == old(v)@.to_multiset(),
        forall|i: int, j: int|
            0 <= i < j < final(v)@.len() ==> rec_le(final(v)@[i], final(v)@[j]),
{
    v.par_sort_unstable();
}

/// The positions, in order, of the records that belong to triangle `t`.
pub open spec fn occ(s: Seq<SortRec>, t: int) -> Seq<Point3>
    decreases s.len(),
{
    if s.len() == 0 {
        Seq::empty()
    } else {
        occ(s.drop_last(), t) + if s.last().3 == t {
            seq![rec_pos(s.last())]
        } else {
            Seq::empty()
        }
    }
}

proof fn lemma_occ_push(s: Seq<SortRec>, r: SortRec, t: int)
    ensures
        r.3 == t ==> occ(s.push(r), t) == occ(s, t).push(rec_pos(r)),
        r.3 != t ==> occ(s.push(r), t) == occ(s, t),
{
    assert(s.push(r).drop_last() =~= s);
    assert(s.push(r).last() == r);
    if r.3 == t {
        assert(occ(s, t) + seq![rec_pos(r)] =~= occ(s, t).push(rec_pos(r)));
    } else {
        assert(occ(s, t) + Seq::<Point3>::empty() =~= occ(s, t));
    }
}

/// In any record sequence, the number of records of triangle `t` at
/// position `p` is the number of occurrences of `p` among `occ(s, t)`.
proof fn lemma_occ_count(s: Seq<SortRec>, t: int, p: Point3)
    requires
        0 <= t < 0x1_0000_0000,
    ensures
        occ(s, t).to_multiset().count(p) == s.to_multiset().count(
            (p.x, p.y, p.z, t as u32),
        ),
    decreases s.len(),
{
    broadcast use vstd::multiset::group_multiset_axioms;

    if s.len() == 0 {
        assert(occ(s, t) =~= Seq::<Point3>::empty());
        occ(s, t).to_multiset_ensures();
        s.to_multiset_ensures();
    } else {
        let s0 = s.drop_last();
        let r = s.last();
        lemma_occ_count(s0, t, p);
        lemma_occ_push(s0, r, t);
        assert(s =~= s0.push(r));
        s0.to_multiset_ensures();
        occ(s0, t).to_multiset_ensures();
        let key = (p.x, p.y, p.z, t as u32);
        assert(s.to_multiset() == s0.to_multiset().insert(r));
        if r.3 == t {
            assert(occ(s, t).to_multiset() == occ(s0, t).to_multiset().insert(rec_pos(r)));
            if rec_pos(r) == p {
                assert(r == key);
            } else {
                assert(r != key);
            }
        } else {
            assert(r != key);
            assert(occ(s, t) == occ(s0, t));
        }
    }
}

proof fn lemma_occ_push_all(s: Seq<SortRec>, r: SortRec)
    ensures
        forall|t: int| r.3 == t ==> occ(s.push(r), t) == occ(s, t).push(rec_pos(r)),
        forall|t: int| r.3 != t ==> occ(s.push(r), t) == occ(s, t),
{
    assert forall|t: int| r.3 == t implies occ(s.push(r), t) == occ(s, t).push(rec_pos(r)) by {
        lemma_occ_push(s, r, t);
    }
    assert forall|t: int| r.3 != t implies occ(s.push(r), t) == occ(s, t) by {
        lemma_occ_push(s, r, t);
    }
}

/// Two record sequences with the same elements have, triangle by triangle,
/// the same positions (up to order).
proof fn lemma_occ_multiset_eq(s1: Seq<SortRec>, s2: Seq<SortRec>, t: int)
    requires
        s1.to_multiset() == s2.to_multiset(),
        0 <= t < 0x1_0000_0000,
    ensures
        occ(s1, t).to_multiset() == occ(s2, t).to_multiset(),
        occ(s1, t).len() == occ(s2, t).len(),
{
    assert forall|p: Point3|
        occ(s1, t).to_multiset().count(p) == occ(s2, t).to_multiset().count(p) by {
        lemma_occ_count(s1, t, p);
        lemma_occ_count(s2, t, p);
    }
    assert(occ(s1, t).to_multiset() =~= occ(s2, t).to_multiset());
    occ(s1, t).to_multiset_ensures();
    occ(s2, t).to_multiset_ensures();
}

/// A prefix of a record sequence has no more records of triangle `t` than
/// the whole.
proof fn lemma_occ_take_len(s: Seq<SortRec>, t: int, i: int)
    requires
        0 <= i <= s.len(),
    ensures
        occ(s.take(i), t).len() <= occ(s, t).len(),
    decreases s.len() - i,
{
    if i == s.len() {
        assert(s.take(i) =~= s);
    } else {
        lemma_occ_take_len(s, t, i + 1);
        lemma_occ_push(s.take(i), s[i], t);
        assert(s.take(i + 1) =~= s.take(i).push(s[i]));
    }
}

/// The record order refines the position order.
proof fn lemma_rec_le_pos_le(x: SortRec, y: SortRec)
    requires
        rec_le(x, y),
    ensures
        pos_le(rec_pos(x), rec_pos(y)),
{
}

/// Every entry of `occ(s, t)` is the position of a record of `s` that
/// belongs to triangle `t`.
proof fn lemma_occ_element(s: Seq<SortRec>, t: int, a: int)
    requires
        0 <= a < occ(s, t).len(),
    ensures
        exists|k: int|
            0 <= k < s.len() && (#[trigger] s[k]).3 == t && rec_pos(s[k]) == occ(s, t)[a],
    decreases s.len(),
{
    let s0 = s.drop_last();
    if a < occ(s0, t).len() {
        lemma_occ_element(s0, t, a);
        let k = choose|k: int|
            0 <= k < s0.len() && (#[trigger] s0[k]).3 == t && rec_pos(s0[k]) == occ(s0, t)[a];
        assert(occ(s, t)[a] == occ(s0, t)[a]);
        assert(s[k] == s0[k]);
    } else {
        assert(s.last().3 == t);
        assert(occ(s, t)[a] == rec_pos(s.last()));
        assert(s[s.len() - 1] == s.last());
    }
}

/// The per-triangle positions of a sorted record run are themselves
/// nondecreasing: the sweep visits them, and so fills the slots, in order.
proof fn lemma_occ_sorted(s: Seq<SortRec>, t: int)
    requires
        forall|i: int, j: int| 0 <= i < j < s.len() ==> rec_le(s[i], s[j]),
    ensures
        forall|a: int, b: int|
            0 <= a < b < occ(s, t).len() ==> pos_le(occ(s, t)[a], occ(s, t)[b]),
    decreases s.len(),
{
    if s.len() > 0 {
        let s0 = s.drop_last();
        assert forall|i: int, j: int| 0 <= i < j < s0.len() implies rec_le(s0[i], s0[j]) by {
            assert(s0[i] == s[i] && s0[j] == s[j]);
        }
        lemma_occ_sorted(s0, t);
        assert forall|a: int, b: int|
            0 <= a < b < occ(s, t).len() implies pos_le(occ(s, t)[a], occ(s, t)[b]) by {
            if b < occ(s0, t).len() {
                assert(occ(s, t)[a] == occ(s0, t)[a] && occ(s, t)[b] == occ(s0, t)[b]);
            } else {
                assert(s.last().3 == t);
                assert(occ(s, t)[b] == rec_pos(s.last()));
                assert(occ(s, t)[a] == occ(s0, t)[a]);
                lemma_occ_element(s0, t, a);
                let k = choose|k: int|
                    0 <= k < s0.len() && (#[trigger] s0[k]).3 == t && rec_pos(s0[k]) == occ(
                        s0,
                        t,
                    )[a];
                assert(s[k] == s0[k]);
                assert(rec_le(s[k], s[s.len() - 1]));
                lemma_rec_le_pos_le(s[k], s.last());
            }
        }
    }
}

proof fn lemma_pos_lt_trans(a: Point3, b: Point3, c: Point3)
    requires
        pos_lt(a, b),
        pos_lt(b, c),
    ensures
        pos_lt(a, c),
{
}

/// The three positions a triangle's index slots point at, in slot order.
pub open spec fn resolved(verts: Seq<Point3>, tri: TriangleData) -> Seq<Point3> {
    Seq::new(3, |k: int| verts[tri.vertices@[k] as int])
}

/// Strictly increasing under the lexicographic position order, so no
/// position occurs twice.
pub open spec fn strictly_sorted(verts: Seq<Point3>) -> bool {
    forall|i: int, j: int| 0 <= i < j < verts.len() ==> pos_lt(verts[i], verts[j])
}

/// Nonstrict lexicographic order on positions.
pub open spec fn pos_le(a: Point3, b: Point3) -> bool {
    pos_lt(a, b) || a == b
}

/// The position occurs as a corner somewhere in the soup.
pub open spec fn soup_contains_pos(raw: Seq<RawTriangle>, p: Point3) -> bool {
    exists|t: int, k: int|
        0 <= t < raw.len() && 0 <= k < 3 && #[trigger] raw[t].spec_corners()[k] == p
}

/// What vertex indexing guarantees: as many index triangles as input
/// triangles; every slot a valid index; each triangle's three resolved
/// positions are exactly its three input corners (up to order), and the
/// slots are filled in sorted-visit order, so the resolved positions are
/// nondecreasing across the three slots; the vertex list is strictly
/// sorted, so free of duplicates; and the vertex list holds exactly the
/// positions that occur in the soup.
pub open spec fn indexing_valid(
    raw: Seq<RawTriangle>,
    verts: Seq<Point3>,
    tris: Seq<TriangleData>,
) -> bool {
    &&& tris.len() == raw.len()
    &&& forall|t: int, k: int|
        0 <= t < tris.len() && 0 <= k < 3 ==> #[trigger] tris[t].vertices@[k] < verts.len()
    &&& forall|t: int|
        0 <= t < tris.len() ==> #[trigger] resolved(verts, tris[t]).to_multiset()
            == raw[t].spec_corners().to_multiset()
    &&& forall|t: int, k: int|
        0 <= t < tris.len() && 0 <= k < 2 ==> pos_le(
            #[trigger] resolved(verts, tris[t])[k],
            resolved(verts, tris[t])[k + 1],
        )
    &&& strictly_sorted(verts)
    &&& forall|j: int| 0 <= j < verts.len() ==> soup_contains_pos(raw, #[trigger] verts[j])
    &&& forall|t: int, k: int|
        0 <= t < raw.len() && 0 <= k < 3 ==> verts.contains(#[trigger] raw[t].spec_corners()[k])
    &&& forall|t: int|
        0 <= t < tris.len() ==> (#[trigger] tris[t])._pad == 0 && tris[t].color@ == seq![
            DEFAULT_TRI_R,
            DEFAULT_TRI_G,
            DEFAULT_TRI_B,
            DEFAULT_TRI_A,
        ]
}

/// A sequence that holds the same value at two positions holds it at
/// least twice.
proof fn lemma_dup_count(s: Seq<Point3>, j: int, k: int)
    requires
        0 <= j < k < s.len(),
        s[j] == s[k],
    ensures
        s.to_multiset().count(s[j]) >= 2,
{
    broadcast use vstd::multiset::group_multiset_axioms;

    s.to_multiset_ensures();
    assert(s.remove(j)[k - 1] == s[k]);
    s.remove(j).to_multiset_ensures();
    assert(s.remove(j).contains(s[k]));
    assert(s.remove(j).to_multiset().count(s[j]) >= 1);
    assert(s.remove(j).to_multiset() == s.to_multiset().remove(s[j]));
    assert(s.contains(s[j]));
    assert(s.to_multiset().count(s[j]) >= 1);
    broadcast use vstd::multiset::lemma_update_same;

    assert(s.to_multiset().remove(s[j]).count(s[j]) == (s.to_multiset().count(s[j])
        - 1) as nat);
}

/// Three pairwise distinct corners hold any one position at most once.
proof fn lemma_corners_count_le_one(tr: RawTriangle, x: Point3)
    requires
        tr.a != tr.b,
        tr.a != tr.c,
        tr.b != tr.c,
    ensures
        tr.spec_corners().to_multiset().count(x) <= 1,
{
    broadcast use vstd::multiset::group_multiset_axioms;
    broadcast use vstd::seq_lib::group_to_multiset_ensures;

    let s = tr.spec_corners();
    let s0 = Seq::<Point3>::empty();
    assert(s =~= s0.push(tr.a).push(tr.b).push(tr.c));
    s0.to_multiset_ensures();
    assert(s0.to_multiset() =~= Multiset::<Point3>::empty());
    assert(s.to_multiset() =~= Multiset::<Point3>::empty().insert(tr.a).insert(tr.b).insert(
        tr.c,
    ));
}

/// Indexing correctness, distinctness half: a triangle whose three corners
/// are pairwise distinct is given three pairwise distinct vertex indices.
pub proof fn lemma_distinct_corners_distinct_indices(
    raw: Seq<RawTriangle>,
    verts: Seq<Point3>,
    tris: Seq<TriangleData>,
    t: int,
)
    requires
        indexing_valid(raw, verts, tris),
        0 <= t < raw.len(),
        raw[t].a != raw[t].b,
        raw[t].a != raw[t].c,
        raw[t].b != raw[t].c,
    ensures
        tris[t].vertices@[0] != tris[t].vertices@[1],
        tris[t].vertices@[0] != tris[t].vertices@[2],
        tris[t].vertices@[1] != tris[t].vertices@[2],
{
    let res = resolved(verts, tris[t]);
    assert forall|j: int, k: int| 0 <= j < k < 3 implies tris[t].vertices@[j]
        != tris[t].vertices@[k] by {
        if tris[t].vertices@[j] == tris[t].vertices@[k] {
            assert(res[j] == res[k]);
            lemma_dup_count(res, j, k);
            lemma_corners_count_le_one(raw[t], res[j]);
        }
    }
    assert(tris[t].vertices@[0] != tris[t].vertices@[1]);
    assert(tris[t].vertices@[0] != tris[t].vertices@[2]);
    assert(tris[t].vertices@[1] != tris[t].vertices@[2]);
}

/// Two strictly sorted vertex lists holding the same set of positions are
/// the same list.
proof fn lemma_strictly_sorted_set_eq(s1: Seq<Point3>, s2: Seq<Point3>)
    requires
        strictly_sorted(s1),
        strictly_sorted(s2),
        s1.to_set() =~= s2.to_set(),
    ensures
        s1 =~= s2,
    decreases s1.len(),
{
    if s1.len() == 0 {
        if s2.len() > 0 {
            assert(s2.contains(s2[0]));
            assert(s1.to_set().contains(s2[0]));
        }
    } else if s2.len() == 0 {
        assert(s1.contains(s1[0]));
        assert(s2.to_set().contains(s1[0]));
    } else {
        // The heads agree: each list's head is its strict minimum, and each
        // head is a member of the other list.
        assert(s1.contains(s1[0]));
        assert(s2.to_set().contains(s1[0]));
        assert(s1.to_set().contains(s2[0]));
        let j = choose|j: int| 0 <= j < s2.len() && s2[j] == s1[0];
        let k = choose|k: int| 0 <= k < s1.len() && s1[k] == s2[0];
        if j > 0 && k > 0 {
            assert(pos_lt(s2[0], s2[j]));
            assert(pos_lt(s1[0], s1[k]));
            assert(false);
        }
        assert(s1[0] == s2[0]);
        let d1 = s1.drop_first();
        let d2 = s2.drop_first();
        assert(strictly_sorted(d1)) by {
            assert forall|a: int, b: int| 0 <= a < b < d1.len() implies pos_lt(
                d1[a],
                d1[b],
            ) by {
                assert(d1[a] == s1[a + 1] && d1[b] == s1[b + 1]);
            }
        }
        assert(strictly_sorted(d2)) by {
            assert forall|a: int, b: int| 0 <= a < b < d2.len() implies pos_lt(
                d2[a],
                d2[b],
            ) by {
                assert(d2[a] == s2[a + 1] && d2[b] == s2[b + 1]);
            }
        }
        assert(d1.to_set() =~= d2.to_set()) by {
            assert forall|x: Point3| d1.to_set().contains(x) == d2.to_set().contains(x) by {
                lemma_tail_membership(s1, s2, x);
                lemma_tail_membership(s2, s1, x);
            }
        }
        lemma_strictly_sorted_set_eq(d1, d2);
        assert forall|a: int| 0 <= a < s1.len() implies s1[a] == s2[a] by {
            if a > 0 {
                assert(d1[a - 1] == d2[a - 1]);
            }
        }
    }
}

/// If two strictly sorted nonempty lists share their head and their
/// element sets, membership in one tail implies membership in the other.
proof fn lemma_tail_membership(s1: Seq<Point3>, s2: Seq<Point3>, x: Point3)
    requires
        strictly_sorted(s1),
        strictly_sorted(s2),
        s1.len() > 0,
        s2.len() > 0,
        s1[0] == s2[0],
        s1.to_set() =~= s2.to_set(),
    ensures
        s1.drop_first().to_set().contains(x) ==> s2.drop_first().to_set().contains(x),
{
    let d1 = s1.drop_first();
    let d2 = s2.drop_first();
    if d1.to_set().contains(x) {
        let a = choose|a: int| 0 <= a < d1.len() && d1[a] == x;
        assert(s1[a + 1] == x);
        assert(pos_lt(s1[0], x));
        assert(s1.contains(x));
        assert(s2.to_set().contains(x));
        let b = choose|b: int| 0 <= b < s2.len() && s2[b] == x;
        assert(b != 0);
        assert(d2[b - 1] == x);
        assert(d2.contains(x));
    }
}

/// The soup obtained by resolving every indexed triangle back to three
/// corner positions, in slot order.
pub open spec fn resolved_soup(verts: Seq<Point3>, tris: Seq<TriangleData>) -> Seq<RawTriangle> {
    Seq::new(
        tris.len(),
        |t: int|
            RawTriangle {
                a: resolved(verts, tris[t])[0],
                b: resolved(verts, tris[t])[1],
                c: resolved(verts, tris[t])[2],
            },
    )
}

/// Dedup idempotence: indexing the resolved output of an indexing run
/// collapses nothing further — it reproduces the very same vertex list,
/// and in particular the same vertex count.
pub proof fn lemma_dedup_idempotent(
    raw: Seq<RawTriangle>,
    verts1: Seq<Point3>,
    tris1: Seq<TriangleData>,
    verts2: Seq<Point3>,
    tris2: Seq<TriangleData>,
)
    requires
        indexing_valid(raw, verts1, tris1),
        indexing_valid(resolved_soup(verts1, tris1), verts2, tris2),
    ensures
        verts2 == verts1,
        verts2.len() == verts1.len(),
{
    let soup2 = resolved_soup(verts1, tris1);
    assert forall|t: int| 0 <= t < soup2.len() implies #[trigger] soup2[t].spec_corners()
        =~= resolved(verts1, tris1[t]) by {}
    assert(verts2.to_set() =~= verts1.to_set()) by {
        assert forall|x: Point3| verts2.to_set().contains(x) implies verts1.to_set().contains(
            x,
        ) by {
            let v = choose|v: int| 0 <= v < verts2.len() && verts2[v] == x;
            assert(soup_contains_pos(soup2, x));
            let (t, k) = choose|t: int, k: int|
                0 <= t < soup2.len() && 0 <= k < 3 && #[trigger] soup2[t].spec_corners()[k] == x;
            assert(resolved(verts1, tris1[t])[k] == x);
            assert(verts1[tris1[t].vertices@[k] as int] == x);
            assert(verts1.contains(x));
        }
        assert forall|x: Point3| verts1.to_set().contains(x) implies verts2.to_set().contains(
            x,
        ) by {
            let v = choose|v: int| 0 <= v < verts1.len() && verts1[v] == x;
            assert(soup_contains_pos(raw, x));
            let (t, k) = choose|t: int, k: int|
                0 <= t < raw.len() && 0 <= k < 3 && #[trigger] raw[t].spec_corners()[k] == x;
            assert(raw[t].spec_corners().contains(x));
            raw[t].spec_corners().to_multiset_ensures();
            resolved(verts1, tris1[t]).to_multiset_ensures();
            assert(raw[t].spec_corners().to_multiset().count(x) > 0);
            assert(resolved(verts1, tris1[t]).to_multiset().count(x) > 0);
            assert(resolved(verts1, tris1[t]).contains(x));
            let k2 = choose|k2: int|
                0 <= k2 < resolved(verts1, tris1[t]).len() && resolved(verts1, tris1[t])[k2] == x;
            assert(soup2[t].spec_corners()[k2] == x);
            assert(verts2.contains(soup2[t].spec_corners()[k2]));
        }
    }
    lemma_strictly_sorted_set_eq(verts1, verts2);
}

/// Deduplicates a triangle soup into an indexed mesh: expand each triangle
/// into three position records, sort them, then sweep the sorted run,
/// opening a new vertex group whenever the position changes from the
/// immediately preceding record and writing the group index into the owning
/// triangle's next free slot.
pub fn sort_sweep_vertices(raw_triangles: Vec<RawTriangle>) -> (r: (Vec<Point3>, Vec<
    TriangleData,
>))
    requires
        raw_triangles@.len() <= MAX_MESH_TRIS,
    ensures
        indexing_valid(raw_triangles@, r.0@, r.1@),
{
    let tri_count = raw_triangles.len();

    // Expand the soup into (position, owning triangle) records.
    let mut recs: Vec<SortRec> = Vec::new();
    let mut i: usize = 0;
    while i < tri_count
        invariant
            i <= tri_count,
            tri_count == raw_triangles@.len() <= MAX_MESH_TRIS,
            recs@.len() == 3 * i,
            forall|t: int| 0 <= t < i ==> occ(recs@, t) == raw_triangles@[t].spec_corners(),
            forall|t: int| t >= i || t < 0 ==> occ(recs@, t) == Seq::<Point3>::empty(),
            forall|k: int| 0 <= k < recs@.len() ==> (#[trigger] recs@[k]).3 < i,
        decreases tri_count - i,
    {
        let tri = raw_triangles[i];
        let ti: u32 = i as u32;
        let ghost recs0 = recs@;
        let ghost ar = (tri.a.x, tri.a.y, tri.a.z, ti);
        let ghost br = (tri.b.x, tri.b.y, tri.b.z, ti);
        let ghost cr = (tri.c.x, tri.c.y, tri.c.z, ti);
        recs.push((tri.a.x, tri.a.y, tri.a.z, ti));
        let ghost recs1 = recs@;
        recs.push((tri.b.x, tri.b.y, tri.b.z, ti));
        let ghost recs2 = recs@;
        recs.push((tri.c.x, tri.c.y, tri.c.z, ti));
        proof {
            assert forall|t: int| 0 <= t <= i implies occ(recs@, t) == if t < i {
                raw_triangles@[t].spec_corners()
            } else {
                raw_triangles@[i as int].spec_corners()
            } by {
                lemma_occ_push(recs0, ar, t);
                lemma_occ_push(recs1, br, t);
                lemma_occ_push(recs2, cr, t);
                if t == i {
                    assert(rec_pos(ar) == tri.a && rec_pos(br) == tri.b && rec_pos(cr) == tri.c);
                    assert(occ(recs@, t) =~= raw_triangles@[i as int].spec_corners());
                }
            }
            assert forall|t: int| t > i || t < 0 implies occ(recs@, t) == Seq::<
                Point3,
            >::empty() by {
                lemma_occ_push(recs0, ar, t);
                lemma_occ_push(recs1, br, t);
                lemma_occ_push(recs2, cr, t);
            }
        }
        i = i + 1;
    }
    let ghost orig = recs@;

    // Sort the records; grouping below needs only that equal positions are
    // now adjacent, and the sweep's slot-fill order follows this order.
    par_sort_records(&mut recs);
    let ghost s = recs@;

    proof {
        // Sorting kept the elements, so per triangle it kept the positions.
        orig.to_multiset_ensures();
        s.to_multiset_ensures();
        assert forall|t: int| 0 <= t < tri_count implies occ(s, t).to_multiset()
            == raw_triangles@[t].spec_corners().to_multiset() && occ(s, t).len() == 3 by {
            lemma_occ_multiset_eq(s, orig, t);
            occ(orig, t).to_multiset_ensures();
            occ(s, t).to_multiset_ensures();
        }
        // Every record still names a triangle of the soup.
        assert forall|k: int| 0 <= k < s.len() implies (#[trigger] s[k]).3 < tri_count by {
            assert(s.contains(s[k]));
            assert(s.to_multiset().count(s[k]) > 0);
            assert(orig.contains(s[k]));
        }
    }

    // Sweep: group equal adjacent positions, filling triangle slots.
    let mut indexed_vertices: Vec<Point3> = Vec::new();
    let mut indexed_triangles: Vec<TriangleData> = Vec::new();
    let mut tally: Vec<u8> = Vec::new();
    let mut j: usize = 0;
    while j < tri_count
        invariant
            j <= tri_count,
            indexed_triangles@.len() == j,
            tally@.len() == j,
            forall|t: int|
                0 <= t < j ==> (#[trigger] indexed_triangles@[t]) == (TriangleData {
                    vertices: [0u32, 0u32, 0u32],
                    _pad: 0u32,
                    color: [DEFAULT_TRI_R, DEFAULT_TRI_G, DEFAULT_TRI_B, DEFAULT_TRI_A],
                }),
            forall|t: int| 0 <= t < j ==> (#[trigger] tally@[t]) == 0u8,
        decreases tri_count - j,
    {
        indexed_triangles.push(
            TriangleData {
                vertices: [0, 0, 0],
                _pad: 0,
                color: [DEFAULT_TRI_R, DEFAULT_TRI_G, DEFAULT_TRI_B, DEFAULT_TRI_A],
            },
        );
        tally.push(0);
        j = j + 1;
    }

    let rec_count = recs.len();
    let mut vi: usize = 0;
    while vi < rec_count
        invariant
            vi <= rec_count,
            rec_count == s.len() == 3 * tri_count,
            tri_count == raw_triangles@.len() <= MAX_MESH_TRIS,
            recs@ == s,
            forall|a: int, b: int| 0 <= a < b < s.len() ==> rec_le(s[a], s[b]),
            forall|k: int| 0 <= k < s.len() ==> (#[trigger] s[k]).3 < tri_count,
            forall|t: int|
                0 <= t < tri_count ==> #[trigger] occ(s, t).to_multiset() == raw_triangles@[t].spec_corners().to_multiset(),
            forall|t: int| 0 <= t < tri_count ==> #[trigger] occ(s, t).len() == 3,
            indexed_triangles@.len() == tri_count,
            tally@.len() == tri_count,
            strictly_sorted(indexed_vertices@),
            indexed_vertices@.len() <= vi,
            vi == 0 ==> indexed_vertices@.len() == 0,
            vi > 0 ==> indexed_vertices@.len() >= 1 && indexed_vertices@.last() == rec_pos(
                s[vi - 1],
            ),
            forall|v: int|
                0 <= v < indexed_vertices@.len() ==> exists|k: int|
                    0 <= k < vi && rec_pos(s[k]) == #[trigger] indexed_vertices@[v],
            forall|k: int|
                0 <= k < vi ==> indexed_vertices@.contains(rec_pos(#[trigger] s[k])),
            forall|t: int|
                0 <= t < tri_count ==> (#[trigger] tally@[t]) as int == occ(s.take(vi as int),
                t).len() && tally@[t] <= 3,
            forall|t: int, k: int|
                0 <= t < tri_count && 0 <= k < tally@[t] ==> (#[trigger] indexed_triangles@[t].vertices@[k]) < indexed_vertices@.len()
                    && indexed_vertices@[indexed_triangles@[t].vertices@[k] as int]
                    == occ(s.take(vi as int), t)[k],
            forall|t: int|
                0 <= t < tri_count ==> (#[trigger] indexed_triangles@[t])._pad == 0
                    && indexed_triangles@[t].color@ == seq![
                    DEFAULT_TRI_R,
                    DEFAULT_TRI_G,
                    DEFAULT_TRI_B,
                    DEFAULT_TRI_A,
                ],
        decreases rec_count - vi,
    {
        let r = recs[vi];
        let rp = Point3 { x: r.0, y: r.1, z: r.2 };
        let is_new = if vi == 0 {
            true
        } else {
            let q = recs[vi - 1];
            !(r.0 == q.0 && r.1 == q.1 && r.2 == q.2)
        };
        let ghost old_verts = indexed_vertices@;
        if is_new {
            proof {
                if vi > 0 {
                    // The new position is strictly above the previous one,
                    // hence above every vertex so far.
                    assert(rec_le(s[vi as int - 1], s[vi as int]));
                    assert(pos_lt(old_verts.last(), rp));
                    assert forall|v: int| 0 <= v < old_verts.len() implies pos_lt(
                        #[trigger] old_verts[v],
                        rp,
                    ) by {
                        if v < old_verts.len() - 1 {
                            lemma_pos_lt_trans(old_verts[v], old_verts.last(), rp);
                        }
                    }
                }
            }
            indexed_vertices.push(rp);
        } else {
            proof {
                assert(rec_pos(s[vi as int - 1]) == rp);
            }
        }
        let group: u32 = (indexed_vertices.len() - 1) as u32;
        let t = r.3 as usize;
        proof {
            assert(s[vi as int].3 < tri_count);
            // The slot about to be filled is still free: the prefix holds at
            // most the three records this triangle has in the whole run.
            lemma_occ_take_len(s, t as int, vi as int + 1);
            lemma_occ_push_all(s.take(vi as int), s[vi as int]);
            assert(s.take(vi as int + 1) =~= s.take(vi as int).push(s[vi as int]));
            assert(occ(s.take(vi as int + 1), t as int) == occ(s.take(vi as int), t as int).push(
                rp,
            ));
        }
        let ghost tris0 = indexed_triangles@;
        let ghost tally0 = tally@;
        let cnt = tally[t];
        let mut td = indexed_triangles[t];
        let mut vs = td.vertices;
        vs[cnt as usize] = group;
        td.vertices = vs;
        indexed_triangles[t] = td;
        tally[t] = cnt + 1;
        proof {
            assert(indexed_vertices@[group as int] == rp);
            assert forall|k: int| 0 <= k < vi + 1 implies indexed_vertices@.contains(
                rec_pos(#[trigger] s[k]),
            ) by {
                if k < vi {
                    let v = choose|v: int|
                        0 <= v < old_verts.len() && old_verts[v] == rec_pos(s[k]);
                    assert(indexed_vertices@[v] == rec_pos(s[k]));
                } else {
                    assert(indexed_vertices@[group as int] == rec_pos(s[k]));
                }
            }
            assert(old_verts.len() <= indexed_vertices@.len());
            assert forall|t2: int, k: int|
                0 <= t2 < tri_count && 0 <= k < tally@[t2] implies (
            #[trigger] indexed_triangles@[t2].vertices@[k]) < indexed_vertices@.len()
                && indexed_vertices@[indexed_triangles@[t2].vertices@[k] as int] == occ(
                s.take(vi as int + 1),
                t2,
            )[k] by {
                if t2 == t as int {
                    assert(indexed_triangles@[t2] == td);
                    if k < cnt {
                        assert(td.vertices@[k] == tris0[t2].vertices@[k]);
                        assert(tris0[t2].vertices@[k] < old_verts.len());
                        assert(old_verts[tris0[t2].vertices@[k] as int] == occ(
                            s.take(vi as int),
                            t2,
                        )[k]);
                        assert(indexed_vertices@[tris0[t2].vertices@[k] as int] == old_verts[
                            tris0[t2].vertices@[k] as int
                        ]);
                        assert(occ(s.take(vi as int + 1), t2)[k] == occ(s.take(vi as int), t2)[k]);
                    } else {
                        assert(k == cnt);
                        assert(td.vertices@[k] == group);
                        assert(occ(s.take(vi as int + 1), t2)[k] == rp);
                    }
                } else {
                    assert(indexed_triangles@[t2] == tris0[t2]);
                    assert(tally@[t2] == tally0[t2]);
                    assert(tris0[t2].vertices@[k] < old_verts.len());
                    assert(indexed_vertices@[tris0[t2].vertices@[k] as int] == old_verts[
                        tris0[t2].vertices@[k] as int
                    ]);
                    assert(occ(s.take(vi as int + 1), t2) == occ(s.take(vi as int), t2));
                }
            }
        }
        vi = vi + 1;
    }

    proof {
        assert(s.take(vi as int) =~= s);
        // Each triangle's slots resolve, in order, to its own records'
        // positions, hence to its corners up to order.
        assert forall|t: int| 0 <= t < tri_count implies #[trigger] resolved(
            indexed_vertices@,
            indexed_triangles@[t],
        ).to_multiset() == raw_triangles@[t].spec_corners().to_multiset() by {
            assert(tally@[t] == 3);
            assert(resolved(indexed_vertices@, indexed_triangles@[t]) =~= occ(s, t));
        }
        assert forall|t: int, k: int| 0 <= t < tri_count && 0 <= k < 3 implies (
        #[trigger] indexed_triangles@[t].vertices@[k]) < indexed_vertices@.len() by {
            assert(tally@[t] == 3);
        }
        // Slots were filled in sorted-visit order, so the resolved
        // positions are nondecreasing across the three slots.
        assert forall|t: int, k: int| 0 <= t < tri_count && 0 <= k < 2 implies pos_le(
            #[trigger] resolved(indexed_vertices@, indexed_triangles@[t])[k],
            resolved(indexed_vertices@, indexed_triangles@[t])[k + 1],
        ) by {
            assert(tally@[t] == 3);
            assert(resolved(indexed_vertices@, indexed_triangles@[t]) =~= occ(s, t));
            lemma_occ_sorted(s, t);
        }
        // The vertex list holds exactly the soup's positions.
        orig.to_multiset_ensures();
        s.to_multiset_ensures();
        assert forall|v: int| 0 <= v < indexed_vertices@.len() implies soup_contains_pos(
            raw_triangles@,
            #[trigger] indexed_vertices@[v],
        ) by {
            let k = choose|k: int| 0 <= k < s.len() && rec_pos(s[k]) == indexed_vertices@[v];
            let t = s[k].3 as int;
            assert(s.contains(s[k]));
            lemma_occ_count(orig, t, rec_pos(s[k]));
            assert((rec_pos(s[k]).x, rec_pos(s[k]).y, rec_pos(s[k]).z, t as u32) == s[k]);
            assert(orig.to_multiset().count(s[k]) > 0);
            assert(occ(orig, t).to_multiset().count(rec_pos(s[k])) > 0);
            occ(orig, t).to_multiset_ensures();
            assert(occ(orig, t).contains(rec_pos(s[k])));
            assert(occ(orig, t) == raw_triangles@[t].spec_corners());
            let c = choose|c: int|
                0 <= c < 3 && raw_triangles@[t].spec_corners()[c] == rec_pos(s[k]);
            assert(raw_triangles@[t].spec_corners()[c] == indexed_vertices@[v]);
        }
        assert forall|t: int, k: int| 0 <= t < tri_count && 0 <= k < 3 implies
            indexed_vertices@.contains(#[trigger] raw_triangles@[t].spec_corners()[k]) by {
            let p = raw_triangles@[t].spec_corners()[k];
            assert(occ(orig, t) == raw_triangles@[t].spec_corners());
            assert(occ(orig, t).contains(p));
            occ(orig, t).to_multiset_ensures();
            lemma_occ_count(orig, t, p);
            assert(orig.to_multiset().count((p.x, p.y, p.z, t as u32)) > 0);
            assert(s.to_multiset().count((p.x, p.y, p.z, t as u32)) > 0);
            assert(s.contains((p.x, p.y, p.z, t as u32)));
            let k2 = choose|k2: int| 0 <= k2 < s.len() && s[k2] == (p.x, p.y, p.z, t as u32);
            assert(rec_pos(s[k2]) == p);
            assert(indexed_vertices@.contains(rec_pos(s[k2])));
        }
    }
    (indexed_vertices, indexed_triangles)
}

} // verus!
