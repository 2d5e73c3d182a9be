//! Triangle meshes with a bounding-volume hierarchy: a binary tree of
//! axis-aligned boxes built once per mesh by binned surface-area-heuristic
//! splitting, traversed with an explicit stack.
//!
//! The tree's index structure is verified: `2 N - 1` preallocated nodes,
//! node ranges that partition their parent's range, children placed after
//! their parent, and triangle slots that always name valid triangles. Every
//! hit the traversal returns is a genuine triangle hit in the queried
//! interval; `hits_linear` carries the full closest-hit contract the
//! traversal is tested against.

use vstd::prelude::*;
use crate::fx::{div_floor, SCALE};
use crate::hittable::{HitRecord, hit_wf};
use crate::material::{Material, mat_wf};
use crate::ray::{Ray, ray_wf, ray_at, CB, T_MAX};
use crate::triangle::{Triangle, tri_hit, tri_wf, tri_box_contains, smin3, smax3};
use crate::vec3::{Vec3, bounded};

verus! {

/// An axis-aligned box.
pub struct AABB {
    pub min: Vec3,
    pub max: Vec3,
}

impl AABB {
    pub fn new(min: Vec3, max: Vec3) -> (r: AABB)
        ensures
            r.min == min,
            r.max == max,
    {
        AABB { min, max }
    }

    /// Half the box's surface area: the sum of the pairwise extent
    /// products.
    pub fn area(&self) -> (r: i128)
        requires
            bounded(self.min, 0x1000_0000),
            bounded(self.max, 0x1000_0000),
        ensures
            r == (self.max.x - self.min.x) * (self.max.y - self.min.y)
                + (self.max.y - self.min.y) * (self.max.z - self.min.z)
                + (self.max.z - self.min.z) * (self.max.x - self.min.x),
            -0xC00_0000_0000_0000 <= r <= 0xC00_0000_0000_0000,
    {
        let ex: i128 = (self.max.x as i128) - (self.min.x as i128);
        let ey: i128 = (self.max.y as i128) - (self.min.y as i128);
        let ez: i128 = (self.max.z as i128) - (self.min.z as i128);
        proof {
            lemma_extent_products(ex as int, ey as int, ez as int);
        }
        ex * ey + ey * ez + ez * ex
    }
}

proof fn lemma_extent_products(ex: int, ey: int, ez: int)
    by (nonlinear_arith)
    requires
        -0x2000_0000 <= ex <= 0x2000_0000,
        -0x2000_0000 <= ey <= 0x2000_0000,
        -0x2000_0000 <= ez <= 0x2000_0000,
    ensures
        -0x400_0000_0000_0000 <= ex * ey <= 0x400_0000_0000_0000,
        -0x400_0000_0000_0000 <= ey * ez <= 0x400_0000_0000_0000,
        -0x400_0000_0000_0000 <= ez * ex <= 0x400_0000_0000_0000,
{
}

/// One tree node: a box, the slot range `[first, first + count)` it covers
/// in the permuted index array, and the index of its first child (zero for
/// a leaf; node zero is the root, so zero can never be a child). Interior
/// nodes keep their slot range alongside the child pointer, which is what
/// lets the traversal's completeness argument name the slots a pruned
/// subtree covers.
pub struct BVHNode {
    pub aabb: AABB,
    pub first: usize,
    pub count: usize,
    pub child: usize,
}

impl BVHNode {
    pub fn is_leaf(&self) -> (r: bool)
        ensures
            r == (self.child == 0),
    {
        self.child == 0
    }

    /// The surface-area-heuristic cost of keeping this node as a leaf: its
    /// triangle count times its box area.
    pub fn cost(&self) -> (r: i128)
        requires
            bounded(self.aabb.min, 0x1000_0000),
            bounded(self.aabb.max, 0x1000_0000),
            self.count <= 0x10_0000,
        ensures
            r == self.count * ((self.aabb.max.x - self.aabb.min.x) * (self.aabb.max.y
                - self.aabb.min.y) + (self.aabb.max.y - self.aabb.min.y) * (self.aabb.max.z
                - self.aabb.min.z) + (self.aabb.max.z - self.aabb.min.z) * (self.aabb.max.x
                - self.aabb.min.x)),
    {
        let a: i128 = self.aabb.area();
        proof {
            lemma_cost_bound(self.count as int, a as int);
        }
        (self.count as i128) * a
    }
}

pub struct Mesh {
    pub triangles: Vec<Triangle>,
    pub material: Material,
    pub bvh_nodes: Vec<BVHNode>,
    pub triangle_indices: Vec<usize>,
    pub centroids: Vec<Vec3>,
    pub nodes_used: usize,
    pub center: Vec3,
}

/// The box bounds the triangle's padded vertex box.
pub open spec fn box_contains_tri(aabb: AABB, t: Triangle) -> bool {
    &&& aabb.min.x <= smin3(t.p1.x as int, t.p2.x as int, t.p3.x as int) - 7
    &&& smax3(t.p1.x as int, t.p2.x as int, t.p3.x as int) + 7 <= aabb.max.x
    &&& aabb.min.y <= smin3(t.p1.y as int, t.p2.y as int, t.p3.y as int) - 7
    &&& smax3(t.p1.y as int, t.p2.y as int, t.p3.y as int) + 7 <= aabb.max.y
    &&& aabb.min.z <= smin3(t.p1.z as int, t.p2.z as int, t.p3.z as int) - 7
    &&& smax3(t.p1.z as int, t.p2.z as int, t.p3.z as int) + 7 <= aabb.max.z
}

/// Some slot of the index array names triangle `v`.
pub open spec fn idx_covers(idx: Seq<usize>, v: int) -> bool {
    exists|s: int| 0 <= s < idx.len() && #[trigger] idx[s] as int == v
}

/// The slot lies in the node's range.
pub open spec fn in_node_range(n: BVHNode, s: int) -> bool {
    n.first <= s < n.first + n.count
}

/// Every triangle of the node's slot range fits inside its box.
pub open spec fn node_contains(
    nodes: Seq<BVHNode>,
    idx: Seq<usize>,
    tris: Seq<Triangle>,
    i: int,
) -> bool {
    forall|s: int|
        #![trigger idx[s]]
        in_node_range(nodes[i], s) ==> box_contains_tri(nodes[i].aabb, tris[idx[s] as int])
}

/// One coordinate of a vector, selected by axis index.
pub open spec fn axis_comp(v: Vec3, axis: int) -> int {
    if axis == 0 {
        v.x as int
    } else if axis == 1 {
        v.y as int
    } else {
        v.z as int
    }
}

/// The lesser / greater of two integers.
pub open spec fn smin2(a: int, b: int) -> int {
    if a <= b {
        a
    } else {
        b
    }
}

pub open spec fn smax2(a: int, b: int) -> int {
    if a >= b {
        a
    } else {
        b
    }
}

/// The slot's triangle centroid falls on the near side of the split plane.
pub open spec fn below_split(
    cents: Seq<Vec3>,
    idx: Seq<usize>,
    axis: int,
    pos: int,
    s: int,
) -> bool {
    axis_comp(cents[idx[s] as int], axis) < pos
}

/// How many of the first `n` slots fall on the chosen side.
pub open spec fn sah_count(
    cents: Seq<Vec3>,
    idx: Seq<usize>,
    axis: int,
    pos: int,
    first: int,
    n: int,
    below: bool,
) -> int
    decreases n,
{
    if n <= 0 {
        0
    } else {
        sah_count(cents, idx, axis, pos, first, n - 1, below) + if below_split(
            cents,
            idx,
            axis,
            pos,
            first + n - 1,
        ) == below {
            1int
        } else {
            0int
        }
    }
}

/// The running minimum of one vertex coordinate over the side's slots.
pub open spec fn sah_lo(
    tris: Seq<Triangle>,
    cents: Seq<Vec3>,
    idx: Seq<usize>,
    axis: int,
    pos: int,
    first: int,
    n: int,
    below: bool,
    comp: int,
) -> int
    decreases n,
{
    if n <= 0 {
        CB as int
    } else {
        let prev = sah_lo(tris, cents, idx, axis, pos, first, n - 1, below, comp);
        if below_split(cents, idx, axis, pos, first + n - 1) == below {
            let t = tris[idx[first + n - 1] as int];
            smin2(prev, smin3(axis_comp(t.p1, comp), axis_comp(t.p2, comp), axis_comp(t.p3, comp)))
        } else {
            prev
        }
    }
}

/// The running maximum of one vertex coordinate over the side's slots.
pub open spec fn sah_hi(
    tris: Seq<Triangle>,
    cents: Seq<Vec3>,
    idx: Seq<usize>,
    axis: int,
    pos: int,
    first: int,
    n: int,
    below: bool,
    comp: int,
) -> int
    decreases n,
{
    if n <= 0 {
        -(CB as int)
    } else {
        let prev = sah_hi(tris, cents, idx, axis, pos, first, n - 1, below, comp);
        if below_split(cents, idx, axis, pos, first + n - 1) == below {
            let t = tris[idx[first + n - 1] as int];
            smax2(prev, smax3(axis_comp(t.p1, comp), axis_comp(t.p2, comp), axis_comp(t.p3, comp)))
        } else {
            prev
        }
    }
}

/// The side's box area term: pairwise extent products of its hull.
pub open spec fn sah_area(
    tris: Seq<Triangle>,
    cents: Seq<Vec3>,
    idx: Seq<usize>,
    axis: int,
    pos: int,
    first: int,
    n: int,
    below: bool,
) -> int {
    let ex = sah_hi(tris, cents, idx, axis, pos, first, n, below, 0) - sah_lo(
        tris, cents, idx, axis, pos, first, n, below, 0);
    let ey = sah_hi(tris, cents, idx, axis, pos, first, n, below, 1) - sah_lo(
        tris, cents, idx, axis, pos, first, n, below, 1);
    let ez = sah_hi(tris, cents, idx, axis, pos, first, n, below, 2) - sah_lo(
        tris, cents, idx, axis, pos, first, n, below, 2);
    ex * ey + ey * ez + ez * ex
}

/// The surface-area-heuristic cost of splitting the node's slots about
/// `pos` on `axis`: each side's count times its hull area, or none when
/// every slot falls on one side.
pub open spec fn sah_cost(
    tris: Seq<Triangle>,
    cents: Seq<Vec3>,
    idx: Seq<usize>,
    node: BVHNode,
    axis: int,
    pos: int,
) -> Option<int> {
    let first = node.first as int;
    let n = node.count as int;
    let lc = sah_count(cents, idx, axis, pos, first, n, true);
    let rc = sah_count(cents, idx, axis, pos, first, n, false);
    if lc == 0 || rc == 0 {
        None
    } else {
        Some(
            lc * sah_area(tris, cents, idx, axis, pos, first, n, true) + rc * sah_area(
                tris, cents, idx, axis, pos, first, n, false),
        )
    }
}

/// The `cand`-th of the eight evenly spaced candidate positions inside the
/// node's box on the axis.
pub open spec fn split_candidate(aabb: AABB, axis: int, cand: int) -> int {
    let lo = axis_comp(aabb.min, axis);
    let hi = axis_comp(aabb.max, axis);
    let extent = if hi >= lo {
        hi - lo
    } else {
        0
    };
    lo + cand * (extent / 10)
}

/// The cost of keeping a node whole: its triangle count times its box
/// area.
pub open spec fn node_cost_spec(n: BVHNode) -> int {
    n.count * ((n.aabb.max.x - n.aabb.min.x) * (n.aabb.max.y - n.aabb.min.y) + (n.aabb.max.y
        - n.aabb.min.y) * (n.aabb.max.z - n.aabb.min.z) + (n.aabb.max.z - n.aabb.min.z) * (
    n.aabb.max.x - n.aabb.min.x))
}

/// Some candidate plane separates the node's triangles at a cost no worse
/// than keeping the leaf.
pub open spec fn split_worthwhile(
    tris: Seq<Triangle>,
    cents: Seq<Vec3>,
    idx: Seq<usize>,
    node: BVHNode,
) -> bool {
    exists|axis: int, cand: int|
        0 <= axis < 3 && 1 <= cand <= 8 && match sah_cost(
            tris,
            cents,
            idx,
            node,
            axis,
            #[trigger] split_candidate(node.aabb, axis, cand),
        ) {
            Some(c) => c <= node_cost_spec(node),
            None => false,
        }
}

/// The split an interior node underwent: some candidate plane of minimal
/// cost over all twenty-four, no costlier than keeping the leaf, with the
/// left child's slots exactly the plane's near side and the right child's
/// slots its far side.
pub open spec fn subdivide_split_ok(
    tris: Seq<Triangle>,
    cents: Seq<Vec3>,
    idx0: Seq<usize>,
    node0: BVHNode,
    nodes: Seq<BVHNode>,
    idx: Seq<usize>,
    i: int,
) -> bool {
    exists|axis: int, cand: int|
        #![trigger split_candidate(node0.aabb, axis, cand)]
        {
            let pos = split_candidate(node0.aabb, axis, cand);
            let lft = nodes[nodes[i].child as int];
            let rgt = nodes[nodes[i].child + 1];
            &&& 0 <= axis < 3
            &&& 1 <= cand <= 8
            &&& (match sah_cost(tris, cents, idx0, node0, axis, pos) {
                Some(c) => {
                    &&& c <= node_cost_spec(node0)
                    &&& forall|a2: int, c2: int|
                        0 <= a2 < 3 && 1 <= c2 <= 8 ==> match sah_cost(
                            tris,
                            cents,
                            idx0,
                            node0,
                            a2,
                            #[trigger] split_candidate(node0.aabb, a2, c2),
                        ) {
                            Some(c2v) => c <= c2v,
                            None => true,
                        }
                },
                None => false,
            })
            &&& (forall|s: int|
                lft.first <= s < lft.first + lft.count ==> below_split(cents, idx, axis, pos, s))
            &&& (forall|s: int|
                rgt.first <= s < rgt.first + rgt.count ==> !below_split(cents, idx, axis, pos, s))
        }
}

/// The two sides' counts total the range and are never negative.
proof fn lemma_count_sum(
    cents: Seq<Vec3>,
    idx: Seq<usize>,
    axis: int,
    pos: int,
    first: int,
    n: int,
)
    requires
        n >= 0,
    ensures
        sah_count(cents, idx, axis, pos, first, n, true) + sah_count(
            cents,
            idx,
            axis,
            pos,
            first,
            n,
            false,
        ) == n,
        0 <= sah_count(cents, idx, axis, pos, first, n, true),
        0 <= sah_count(cents, idx, axis, pos, first, n, false),
    decreases n,
{
    if n > 0 {
        lemma_count_sum(cents, idx, axis, pos, first, n - 1);
    }
}

/// A range arranged as a near-side prefix of length `m` followed by a
/// far-side suffix counts exactly `m` near slots.
proof fn lemma_arranged_count(
    cents: Seq<Vec3>,
    idx: Seq<usize>,
    axis: int,
    pos: int,
    first: int,
    m: int,
    n: int,
)
    requires
        0 <= m <= n,
        forall|s: int| first <= s < first + m ==> below_split(cents, idx, axis, pos, s),
        forall|s: int| first + m <= s < first + n ==> !below_split(cents, idx, axis, pos, s),
    ensures
        sah_count(cents, idx, axis, pos, first, n, true) == m,
        sah_count(cents, idx, axis, pos, first, n, false) == n - m,
    decreases n,
{
    if n > 0 {
        if n - 1 < m {
            lemma_arranged_count(cents, idx, axis, pos, first, n - 1, n - 1);
        } else {
            lemma_arranged_count(cents, idx, axis, pos, first, m, n - 1);
        }
    }
}

/// A full near-side count means every slot is on the near side, and a
/// zero count means none is.
proof fn lemma_count_saturated(
    cents: Seq<Vec3>,
    idx: Seq<usize>,
    axis: int,
    pos: int,
    first: int,
    n: int,
)
    requires
        n >= 0,
    ensures
        sah_count(cents, idx, axis, pos, first, n, true) == n ==> forall|s: int|
            first <= s < first + n ==> below_split(cents, idx, axis, pos, s),
        sah_count(cents, idx, axis, pos, first, n, true) == 0 ==> forall|s: int|
            first <= s < first + n ==> !below_split(cents, idx, axis, pos, s),
    decreases n,
{
    if n > 0 {
        lemma_count_sum(cents, idx, axis, pos, first, n - 1);
        lemma_count_saturated(cents, idx, axis, pos, first, n - 1);
    }
}

/// Counts over a range split at an inner boundary add up.
proof fn lemma_count_split(
    cents: Seq<Vec3>,
    idx: Seq<usize>,
    axis: int,
    pos: int,
    first: int,
    m: int,
    n: int,
    below: bool,
)
    requires
        0 <= m <= n,
    ensures
        sah_count(cents, idx, axis, pos, first, n, below) == sah_count(
            cents,
            idx,
            axis,
            pos,
            first,
            m,
            below,
        ) + sah_count(cents, idx, axis, pos, first + m, n - m, below),
    decreases n - m,
{
    if n > m {
        lemma_count_split(cents, idx, axis, pos, first, m, n - 1, below);
    }
}

/// A range's count only reads the slots inside it.
proof fn lemma_count_frame(
    cents: Seq<Vec3>,
    idx1: Seq<usize>,
    idx2: Seq<usize>,
    axis: int,
    pos: int,
    first: int,
    n: int,
    below: bool,
)
    requires
        forall|s: int| first <= s < first + n ==> idx2[s] == idx1[s],
    ensures
        sah_count(cents, idx2, axis, pos, first, n, below) == sah_count(
            cents,
            idx1,
            axis,
            pos,
            first,
            n,
            below,
        ),
    decreases n,
{
    if n > 0 {
        lemma_count_frame(cents, idx1, idx2, axis, pos, first, n - 1, below);
    }
}

/// Swapping two slots inside the range leaves its counts unchanged: the
/// running difference is carried past each swapped slot and cancels once
/// both are inside the prefix.
proof fn lemma_swap_count_helper(
    cents: Seq<Vec3>,
    idx1: Seq<usize>,
    idx2: Seq<usize>,
    axis: int,
    pos: int,
    first: int,
    m: int,
    below: bool,
    a: int,
    b: int,
)
    requires
        0 <= first <= a < b,
        m >= 0,
        first + m <= idx1.len(),
        idx2.len() == idx1.len(),
        0 <= a < idx1.len(),
        0 <= b < idx1.len(),
        idx2[a] == idx1[b],
        idx2[b] == idx1[a],
        forall|s: int| 0 <= s < idx1.len() && s != a && s != b ==> idx2[s] == idx1[s],
    ensures
        sah_count(cents, idx2, axis, pos, first, m, below) - sah_count(
            cents,
            idx1,
            axis,
            pos,
            first,
            m,
            below,
        ) == (if a < first + m {
            (if below_split(cents, idx2, axis, pos, a) == below {
                1int
            } else {
                0int
            }) - (if below_split(cents, idx1, axis, pos, a) == below {
                1int
            } else {
                0int
            })
        } else {
            0int
        }) + (if b < first + m {
            (if below_split(cents, idx2, axis, pos, b) == below {
                1int
            } else {
                0int
            }) - (if below_split(cents, idx1, axis, pos, b) == below {
                1int
            } else {
                0int
            })
        } else {
            0int
        }),
    decreases m,
{
    if m > 0 {
        lemma_swap_count_helper(cents, idx1, idx2, axis, pos, first, m - 1, below, a, b);
    }
}

/// Swapping two slots inside the range preserves both sides' counts.
proof fn lemma_swap_count(
    cents: Seq<Vec3>,
    idx1: Seq<usize>,
    idx2: Seq<usize>,
    axis: int,
    pos: int,
    first: int,
    n: int,
    below: bool,
    a: int,
    b: int,
)
    requires
        0 <= first <= a < b < first + n,
        first + n <= idx1.len(),
        idx2.len() == idx1.len(),
        0 <= a < idx1.len(),
        0 <= b < idx1.len(),
        idx2[a] == idx1[b],
        idx2[b] == idx1[a],
        forall|s: int| 0 <= s < idx1.len() && s != a && s != b ==> idx2[s] == idx1[s],
    ensures
        sah_count(cents, idx2, axis, pos, first, n, below) == sah_count(
            cents,
            idx1,
            axis,
            pos,
            first,
            n,
            below,
        ),
{
    lemma_swap_count_helper(cents, idx1, idx2, axis, pos, first, n, below, a, b);
}

/// Structural soundness of one node.
pub open spec fn node_ok(nodes: Seq<BVHNode>, used: int, ntris: int, i: int) -> bool {
    let n = nodes[i];
    &&& n.first + n.count <= ntris
    &&& bounded(n.aabb.min, 0x1000_0000)
    &&& bounded(n.aabb.max, 0x1000_0000)
    &&& (n.child != 0 ==> {
        &&& i < n.child
        &&& n.child + 1 < used
        &&& nodes[n.child as int].first == n.first
        &&& nodes[n.child as int].count + nodes[n.child + 1].count == n.count
        &&& nodes[n.child + 1].first == n.first + nodes[n.child as int].count
    })
}

/// Structural soundness of the tree fragment built so far.
pub open spec fn bvh_wf(nodes: Seq<BVHNode>, used: int, ntris: int) -> bool {
    &&& 1 <= used <= nodes.len()
    &&& forall|i: int| 0 <= i < used ==> #[trigger] node_ok(nodes, used, ntris, i)
}

/// The whole mesh is well-formed: triangles in bounds, the index array a
/// permutation frame over them, the tree structurally sound with the root
/// covering every slot.
pub open spec fn mesh_wf(m: Mesh) -> bool {
    let ntris = m.triangles.len() as int;
    &&& 1 <= ntris <= 0x10_0000
    &&& (forall|k: int| 0 <= k < ntris ==> tri_wf(#[trigger] m.triangles[k]))
    &&& mat_wf(m.material)
    &&& m.triangle_indices.len() == ntris
    &&& (forall|s: int|
        0 <= s < ntris ==> (#[trigger] m.triangle_indices[s]) < ntris)
    &&& (forall|s1: int, s2: int|
        0 <= s1 < s2 < ntris ==> m.triangle_indices[s1] != m.triangle_indices[s2])
    &&& (forall|v: int| 0 <= v < ntris ==> #[trigger] idx_covers(m.triangle_indices@, v))
    &&& m.bvh_nodes.len() == 2 * ntris - 1
    &&& 1 <= m.nodes_used <= m.bvh_nodes.len()
    &&& bvh_wf(m.bvh_nodes@, m.nodes_used as int, ntris)
    &&& (forall|i: int|
        0 <= i < m.nodes_used ==> node_contains(
            m.bvh_nodes@,
            m.triangle_indices@,
            m.triangles@,
            i,
        ))
    &&& m.bvh_nodes[0].first == 0
    &&& m.bvh_nodes[0].count == ntris
}

/// The running closest hit of a left-to-right scan: each triangle can only
/// improve on (strictly undercut) the best parameter found before it.
pub open spec fn fold_hit(tris: Seq<Triangle>, r: Ray, t0: int, t1: int) -> Option<int>
    decreases tris.len(),
{
    if tris.len() == 0 {
        None
    } else {
        let prev = fold_hit(tris.drop_last(), r, t0, t1);
        let cur_end = match prev {
            None => t1,
            Some(t) => t,
        };
        match tri_hit(tris.last(), r, t0, cur_end) {
            None => prev,
            Some(t) => Some(t),
        }
    }
}

/// Shrinking the upper end of the interval keeps exactly the hits below it.
pub proof fn lemma_tri_hit_shrink(tri: Triangle, r: Ray, t0: int, c: int, t1: int)
    requires
        t0 <= c <= t1,
    ensures
        tri_hit(tri, r, t0, c) == (match tri_hit(tri, r, t0, t1) {
            Some(t) => if t < c {
                Some(t)
            } else {
                None::<int>
            },
            None => None::<int>,
        }),
{
}

/// Shrinking the upper end of the interval keeps exactly the closest hits
/// below it.
pub proof fn lemma_fold_hit_shrink(tris: Seq<Triangle>, r: Ray, t0: int, c: int, t1: int)
    requires
        t0 <= c <= t1,
    ensures
        fold_hit(tris, r, t0, c) == (match fold_hit(tris, r, t0, t1) {
            Some(t) => if t < c {
                Some(t)
            } else {
                None::<int>
            },
            None => None::<int>,
        }),
    decreases tris.len(),
{
    if tris.len() > 0 {
        let prefix = tris.drop_last();
        lemma_fold_hit_shrink(prefix, r, t0, c, t1);
        lemma_fold_hit_closest(prefix, r, t0, t1);
        lemma_fold_hit_closest(prefix, r, t0, c);
        let last = tris.last();
        lemma_tri_hit_shrink(last, r, t0, c, t1);
        match fold_hit(prefix, r, t0, t1) {
            Some(pt) => {
                lemma_tri_hit_shrink(last, r, t0, pt, t1);
                if pt >= c {
                    lemma_tri_hit_shrink(last, r, t0, c, pt);
                }
            },
            None => {
            },
        }
    }
}

/// The scan's result is a genuine hit, and no triangle hits below it.
pub proof fn lemma_fold_hit_closest(tris: Seq<Triangle>, r: Ray, t0: int, t1: int)
    requires
        t0 <= t1,
    ensures
        fold_hit(tris, r, t0, t1) matches Some(t) ==> {
            &&& exists|k: int|
                0 <= k < tris.len() && tri_hit(#[trigger] tris[k], r, t0, t1) == Some(t)
            &&& forall|k: int|
                0 <= k < tris.len() ==> match tri_hit(#[trigger] tris[k], r, t0, t1) {
                    Some(tk) => t <= tk,
                    None => true,
                }
        },
        fold_hit(tris, r, t0, t1) is None ==> forall|k: int|
            0 <= k < tris.len() ==> tri_hit(#[trigger] tris[k], r, t0, t1) is None,
        fold_hit(tris, r, t0, t1) matches Some(t) ==> t0 <= t < t1,
    decreases tris.len(),
{
    if tris.len() > 0 {
        let prefix = tris.drop_last();
        lemma_fold_hit_closest(prefix, r, t0, t1);
        let prev = fold_hit(prefix, r, t0, t1);
        let cur_end: int = match prev {
            None => t1,
            Some(t) => t,
        };
        lemma_tri_hit_shrink(tris.last(), r, t0, cur_end, t1);
        assert(forall|k: int| 0 <= k < prefix.len() ==> prefix[k] == #[trigger] tris[k]);
        assert(tris.last() == tris[tris.len() - 1]);
        match fold_hit(tris, r, t0, t1) {
            None => {
            },
            Some(t) => {
                match tri_hit(tris.last(), r, t0, cur_end) {
                    Some(tl) => {
                        assert(tri_hit(tris[tris.len() - 1], r, t0, t1) == Some(tl));
                    },
                    None => {
                        let kw = choose|k: int|
                            0 <= k < prefix.len() && tri_hit(#[trigger] prefix[k], r, t0, t1)
                                == Some(t);
                        assert(tri_hit(tris[kw], r, t0, t1) == Some(t));
                    },
                }
            },
        }
    }
}

impl Mesh {
    /// Build a mesh from already-triangulated geometry and one material,
    /// constructing the acceleration tree.
    pub fn new(triangles: Vec<Triangle>, material: Material) -> (r: Mesh)
        requires
            1 <= triangles.len() <= 0x10_0000,
            forall|k: int| 0 <= k < triangles.len() ==> tri_wf(#[trigger] triangles[k]),
            mat_wf(material),
        ensures
            mesh_wf(r),
            r.triangles == triangles,
            r.material == material,
    {
        let mut m: Mesh = Mesh {
            triangles,
            material,
            bvh_nodes: Vec::new(),
            triangle_indices: Vec::new(),
            centroids: Vec::new(),
            nodes_used: 0,
            center: Vec3 { x: 0, y: 0, z: 0 },
        };
        m.build_bvh();
        m
    }

    /// Rebuild the acceleration tree from the current triangles.
    fn build_bvh(&mut self)
        requires
            1 <= old(self).triangles.len() <= 0x10_0000,
            forall|k: int|
                0 <= k < old(self).triangles.len() ==> tri_wf(#[trigger] old(self).triangles[k]),
            mat_wf(old(self).material),
        ensures
            mesh_wf(*final(self)),
            final(self).triangles == old(self).triangles,
            final(self).material == old(self).material,
    {
        let n: usize = self.triangles.len();
        let mut nodes: Vec<BVHNode> = Vec::new();
        let mut i: usize = 0;
        while i < 2 * n - 1
            invariant
                nodes.len() == i,
                i <= 2 * n - 1,
                n <= 0x10_0000,
                forall|j: int|
                    0 <= j < i ==> (#[trigger] nodes[j]).first == 0 && nodes[j].count == 0
                        && nodes[j].child == 0 && nodes[j].aabb.min == (Vec3 { x: 0i64, y: 0i64, z: 0i64 })
                        && nodes[j].aabb.max == (Vec3 { x: 0i64, y: 0i64, z: 0i64 }),
            decreases 2 * n - 1 - i,
        {
            nodes.push(BVHNode {
                aabb: AABB {
                    min: Vec3 { x: 0, y: 0, z: 0 },
                    max: Vec3 { x: 0, y: 0, z: 0 },
                },
                first: 0,
                count: 0,
                child: 0,
            });
            i = i + 1;
        }
        let mut idx: Vec<usize> = Vec::new();
        let mut s: usize = 0;
        while s < n
            invariant
                idx.len() == s,
                s <= n,
                forall|j: int| 0 <= j < s ==> #[trigger] idx[j] == j,
            decreases n - s,
        {
            idx.push(s);
            s = s + 1;
        }
        let mut cents: Vec<Vec3> = Vec::new();
        let mut c: usize = 0;
        while c < n
            invariant
                cents.len() == c,
                c <= n,
                n == self.triangles.len(),
                forall|k: int|
                    0 <= k < n ==> tri_wf(#[trigger] self.triangles[k]),
                forall|j: int| 0 <= j < c ==> bounded(#[trigger] cents[j], CB as int),
            decreases n - c,
        {
            let t: &Triangle = &self.triangles[c];
            cents.push(centroid(t));
            c = c + 1;
        }
        self.bvh_nodes = nodes;
        self.triangle_indices = idx;
        self.centroids = cents;
        self.nodes_used = 1;
        let root_count: usize = n;
        let mut root: BVHNode = BVHNode {
            aabb: AABB {
                min: Vec3 { x: 0, y: 0, z: 0 },
                max: Vec3 { x: 0, y: 0, z: 0 },
            },
            first: 0,
            count: root_count,
            child: 0,
        };
        self.bvh_nodes.set(0, root);
        self.update_node_bounds(0);
        proof {
            assert(bounded((Vec3 { x: 0i64, y: 0i64, z: 0i64 }), 0x1000_0000));
            assert forall|i: int|
                0 <= i < 1 implies #[trigger] node_ok(
                self.bvh_nodes@,
                1,
                self.triangles.len() as int,
                i,
            ) by {
                assert(self.bvh_nodes[0].child == 0);
            };
            assert forall|v: int|
                0 <= v < self.triangles.len() implies #[trigger] idx_covers(
                self.triangle_indices@,
                v,
            ) by {
                assert(self.triangle_indices[v] as int == v);
            };
        }
        self.subdivide(0);
        // the index array is final now; recompute every used node's box so
        // each provably bounds the triangles of its final slot range
        let used: usize = self.nodes_used;
        let mut b: usize = 0;
        while b < used
            invariant
                1 <= used == self.nodes_used <= self.bvh_nodes.len(),
                b <= used,
                self.triangles == old(self).triangles,
                self.material == old(self).material,
                self.triangle_indices.len() == self.triangles.len(),
                self.centroids.len() == self.triangles.len(),
                1 <= self.triangles.len() <= 0x10_0000,
                forall|j: int|
                    0 <= j < self.triangle_indices.len()
                        ==> (#[trigger] self.triangle_indices[j]) < self.triangles.len(),
                forall|s1: int, s2: int|
                    0 <= s1 < s2 < self.triangle_indices.len()
                        ==> self.triangle_indices[s1] != self.triangle_indices[s2],
                forall|v: int|
                    0 <= v < self.triangles.len() ==> #[trigger] idx_covers(
                        self.triangle_indices@,
                        v,
                    ),
                forall|k: int|
                    0 <= k < self.triangles.len() ==> tri_wf(#[trigger] self.triangles[k]),
                self.bvh_nodes.len() == 2 * self.triangles.len() - 1,
                bvh_wf(self.bvh_nodes@, self.nodes_used as int, self.triangles.len() as int),
                self.bvh_nodes[0].first == 0,
                self.bvh_nodes[0].count == self.triangles.len(),
                forall|j: int|
                    0 <= j < b ==> node_contains(
                        self.bvh_nodes@,
                        self.triangle_indices@,
                        self.triangles@,
                        j,
                    ),
            decreases used - b,
        {
            proof {
                assert(node_ok(
                    self.bvh_nodes@,
                    self.nodes_used as int,
                    self.triangles.len() as int,
                    b as int,
                ));
            }
            let ghost pre = self.bvh_nodes@;
            self.update_node_bounds(b);
            proof {
                lemma_wf_box_update(
                    pre,
                    self.bvh_nodes@,
                    self.nodes_used as int,
                    self.triangles.len() as int,
                    b as int,
                );
                assert forall|j: int| 0 <= j < b + 1 implies node_contains(
                    self.bvh_nodes@,
                    self.triangle_indices@,
                    self.triangles@,
                    j,
                ) by {
                    if j < b {
                        assert(self.bvh_nodes@[j] == pre[j]);
                        assert(node_contains(pre, self.triangle_indices@, self.triangles@, j));
                    }
                };
            }
            b = b + 1;
        }
    }

    /// Recompute a node's box as the padded hull of the triangles in its
    /// slot range.
    fn update_node_bounds(&mut self, node_index: usize)
        requires
            node_index < old(self).bvh_nodes.len(),
            old(self).triangle_indices.len() == old(self).triangles.len(),
            forall|s: int|
                0 <= s < old(self).triangle_indices.len()
                    ==> (#[trigger] old(self).triangle_indices[s]) < old(self).triangles.len(),
            forall|k: int|
                0 <= k < old(self).triangles.len() ==> tri_wf(
                    #[trigger] old(self).triangles[k],
                ),
            old(self).bvh_nodes[node_index as int].first
                + old(self).bvh_nodes[node_index as int].count <= old(self).triangles.len(),
        ensures
            final(self).bvh_nodes.len() == old(self).bvh_nodes.len(),
            forall|j: int|
                0 <= j < old(self).bvh_nodes.len() && j != node_index
                    ==> #[trigger] final(self).bvh_nodes[j] == old(self).bvh_nodes[j],
            final(self).bvh_nodes[node_index as int].first
                == old(self).bvh_nodes[node_index as int].first,
            final(self).bvh_nodes[node_index as int].count
                == old(self).bvh_nodes[node_index as int].count,
            final(self).bvh_nodes[node_index as int].child
                == old(self).bvh_nodes[node_index as int].child,
            bounded(final(self).bvh_nodes[node_index as int].aabb.min, 0x1000_0000),
            bounded(final(self).bvh_nodes[node_index as int].aabb.max, 0x1000_0000),
            node_contains(
                final(self).bvh_nodes@,
                final(self).triangle_indices@,
                final(self).triangles@,
                node_index as int,
            ),
            final(self).triangles == old(self).triangles,
            final(self).triangle_indices == old(self).triangle_indices,
            final(self).centroids == old(self).centroids,
            final(self).nodes_used == old(self).nodes_used,
            final(self).material == old(self).material,
    {
        let first: usize = self.bvh_nodes[node_index].first;
        let count: usize = self.bvh_nodes[node_index].count;
        let mut lo: Vec3 = Vec3 { x: CB, y: CB, z: CB };
        let mut hi: Vec3 = Vec3 { x: -CB, y: -CB, z: -CB };
        let mut s: usize = first;
        while s < first + count
            invariant
                first + count <= self.triangles.len(),
                self.triangle_indices.len() == self.triangles.len(),
                forall|j: int|
                    0 <= j < self.triangle_indices.len()
                        ==> (#[trigger] self.triangle_indices[j]) < self.triangles.len(),
                forall|k: int|
                    0 <= k < self.triangles.len() ==> tri_wf(#[trigger] self.triangles[k]),
                first <= s <= first + count,
                bounded(lo, CB as int),
                bounded(hi, CB as int),
                forall|j: int|
                    first <= j < s ==> {
                        let t = self.triangles@[#[trigger] self.triangle_indices[j] as int];
                        &&& lo.x <= smin3(t.p1.x as int, t.p2.x as int, t.p3.x as int)
                        &&& smax3(t.p1.x as int, t.p2.x as int, t.p3.x as int) <= hi.x
                        &&& lo.y <= smin3(t.p1.y as int, t.p2.y as int, t.p3.y as int)
                        &&& smax3(t.p1.y as int, t.p2.y as int, t.p3.y as int) <= hi.y
                        &&& lo.z <= smin3(t.p1.z as int, t.p2.z as int, t.p3.z as int)
                        &&& smax3(t.p1.z as int, t.p2.z as int, t.p3.z as int) <= hi.z
                    },
            decreases first + count - s,
        {
            let ti: usize = self.triangle_indices[s];
            let tri: &Triangle = &self.triangles[ti];
            lo = min3(min3(min3(lo, tri.p1), tri.p2), tri.p3);
            hi = max3(max3(max3(hi, tri.p1), tri.p2), tri.p3);
            s = s + 1;
        }
        // pad by a few steps so grazing rays are not rejected
        let pad: Vec3 = Vec3 { x: 7, y: 7, z: 7 };
        let lo2: Vec3 = lo.sub(pad);
        let hi2: Vec3 = hi.add(pad);
        let node: &BVHNode = &self.bvh_nodes[node_index];
        let updated: BVHNode = BVHNode {
            aabb: AABB { min: lo2, max: hi2 },
            first: node.first,
            count: node.count,
            child: node.child,
        };
        self.bvh_nodes.set(node_index, updated);
    }

    /// Split a leaf by the best binned surface-area-heuristic plane and
    /// recurse, or keep the leaf when it is small or no split pays off.
    /// Only this node and nodes allocated after the previous high-water
    /// mark are touched, and at most `2 (count - 1)` nodes are allocated.
    fn subdivide(&mut self, node_index: usize)
        requires
            node_index < old(self).nodes_used,
            old(self).nodes_used <= old(self).bvh_nodes.len(),
            old(self).triangle_indices.len() == old(self).triangles.len(),
            old(self).centroids.len() == old(self).triangles.len(),
            old(self).triangles.len() <= 0x10_0000,
            forall|s: int|
                0 <= s < old(self).triangle_indices.len()
                    ==> (#[trigger] old(self).triangle_indices[s]) < old(self).triangles.len(),
            forall|s1: int, s2: int|
                0 <= s1 < s2 < old(self).triangle_indices.len()
                    ==> old(self).triangle_indices[s1] != old(self).triangle_indices[s2],
            forall|v: int|
                0 <= v < old(self).triangles.len() ==> #[trigger] idx_covers(
                    old(self).triangle_indices@,
                    v,
                ),
            forall|k: int|
                0 <= k < old(self).triangles.len() ==> tri_wf(#[trigger] old(self).triangles[k]),
            forall|j: int|
                0 <= j < old(self).centroids.len() ==> bounded(
                    #[trigger] old(self).centroids[j],
                    CB as int,
                ),
            bvh_wf(old(self).bvh_nodes@, old(self).nodes_used as int, old(self).triangles.len() as int),
            old(self).bvh_nodes[node_index as int].child == 0,
            old(self).bvh_nodes[node_index as int].count >= 1,
            old(self).nodes_used + 2 * (old(self).bvh_nodes[node_index as int].count - 1)
                <= old(self).bvh_nodes.len(),
        ensures
            final(self).triangles == old(self).triangles,
            final(self).material == old(self).material,
            final(self).bvh_nodes.len() == old(self).bvh_nodes.len(),
            final(self).triangle_indices.len() == old(self).triangle_indices.len(),
            final(self).centroids == old(self).centroids,
            forall|s: int|
                0 <= s < final(self).triangle_indices.len()
                    ==> (#[trigger] final(self).triangle_indices[s]) < final(self).triangles.len(),
            forall|s1: int, s2: int|
                0 <= s1 < s2 < final(self).triangle_indices.len()
                    ==> final(self).triangle_indices[s1] != final(self).triangle_indices[s2],
            forall|v: int|
                0 <= v < final(self).triangles.len() ==> #[trigger] idx_covers(
                    final(self).triangle_indices@,
                    v,
                ),
            old(self).nodes_used <= final(self).nodes_used <= old(self).bvh_nodes.len(),
            final(self).nodes_used - old(self).nodes_used
                <= 2 * (old(self).bvh_nodes[node_index as int].count - 1),
            bvh_wf(final(self).bvh_nodes@, final(self).nodes_used as int, final(self).triangles.len() as int),
            forall|j: int|
                0 <= j < old(self).nodes_used && j != node_index
                    ==> #[trigger] final(self).bvh_nodes[j] == old(self).bvh_nodes[j],
            final(self).bvh_nodes[node_index as int].first
                == old(self).bvh_nodes[node_index as int].first,
            final(self).bvh_nodes[node_index as int].count
                == old(self).bvh_nodes[node_index as int].count,
            old(self).bvh_nodes[node_index as int].count <= 2 ==> *final(self) == *old(self),
            (final(self).bvh_nodes[node_index as int].child != 0) <==> (
            old(self).bvh_nodes[node_index as int].count > 2 && split_worthwhile(
                old(self).triangles@,
                old(self).centroids@,
                old(self).triangle_indices@,
                old(self).bvh_nodes@[node_index as int],
            )),
            final(self).bvh_nodes[node_index as int].child != 0 ==> subdivide_split_ok(
                old(self).triangles@,
                old(self).centroids@,
                old(self).triangle_indices@,
                old(self).bvh_nodes@[node_index as int],
                final(self).bvh_nodes@,
                final(self).triangle_indices@,
                node_index as int,
            ),
            forall|s: int|
                0 <= s < old(self).triangle_indices.len() && !(old(self).bvh_nodes[node_index
                    as int].first <= s < old(self).bvh_nodes[node_index as int].first + old(
                self).bvh_nodes[node_index as int].count) ==> (#[trigger] final(
                self).triangle_indices[s]) == old(self).triangle_indices[s],
            forall|ax: int, ps: int, bl: bool|
                #[trigger] sah_count(
                    old(self).centroids@,
                    final(self).triangle_indices@,
                    ax,
                    ps,
                    old(self).bvh_nodes[node_index as int].first as int,
                    old(self).bvh_nodes[node_index as int].count as int,
                    bl,
                ) == sah_count(
                    old(self).centroids@,
                    old(self).triangle_indices@,
                    ax,
                    ps,
                    old(self).bvh_nodes[node_index as int].first as int,
                    old(self).bvh_nodes[node_index as int].count as int,
                    bl,
                ),
        decreases old(self).bvh_nodes.len() - node_index,
    {
        proof {
            assert(node_ok(
                self.bvh_nodes@,
                self.nodes_used as int,
                self.triangles.len() as int,
                node_index as int,
            ));
        }
        let ghost tris0 = old(self).triangles@;
        let ghost cents0 = old(self).centroids@;
        let ghost idx0 = old(self).triangle_indices@;
        let ghost node0 = old(self).bvh_nodes@[node_index as int];
        let first: usize = self.bvh_nodes[node_index].first;
        let count: usize = self.bvh_nodes[node_index].count;
        if count <= 2 {
            return ;
        }
        let (found, axis, split_pos, best_cost): (bool, usize, i64, i128) = self
            .find_best_split_plane(node_index);
        if !found {
            proof {
                // were any candidate worthwhile, its cost would be defined
                // and the search would have found one
                if split_worthwhile(tris0, cents0, idx0, node0) {
                    let (a2, c2): (int, int) = choose|a2: int, c2: int|
                        0 <= a2 < 3 && 1 <= c2 <= 8 && match sah_cost(
                            tris0,
                            cents0,
                            idx0,
                            node0,
                            a2,
                            #[trigger] split_candidate(node0.aabb, a2, c2),
                        ) {
                            Some(c) => c <= node_cost_spec(node0),
                            None => false,
                        };
                    assert(sah_cost(
                        tris0,
                        cents0,
                        idx0,
                        node0,
                        a2,
                        split_candidate(node0.aabb, a2, c2),
                    ) is Some);
                    assert(false);
                }
            }
            return ;
        }
        // keep the leaf when no candidate improves on its own cost
        let node_cost: i128 = self.bvh_nodes[node_index].cost();
        proof {
            assert(node_cost as int == node_cost_spec(node0));
        }
        if best_cost > node_cost {
            proof {
                // the found plane is cheapest, so a worthwhile candidate
                // would put it at or below the node's own cost
                if split_worthwhile(tris0, cents0, idx0, node0) {
                    let (a2, c2): (int, int) = choose|a2: int, c2: int|
                        0 <= a2 < 3 && 1 <= c2 <= 8 && match sah_cost(
                            tris0,
                            cents0,
                            idx0,
                            node0,
                            a2,
                            #[trigger] split_candidate(node0.aabb, a2, c2),
                        ) {
                            Some(c) => c <= node_cost_spec(node0),
                            None => false,
                        };
                    assert(match sah_cost(
                        tris0,
                        cents0,
                        idx0,
                        node0,
                        a2,
                        split_candidate(node0.aabb, a2, c2),
                    ) {
                        Some(c) => best_cost as int <= c,
                        None => true,
                    });
                    assert(false);
                }
            }
            return ;
        }
        proof {
            // the found plane itself is worthwhile
            let c0 = choose|c0: int|
                1 <= c0 <= 8 && split_pos == split_candidate(node0.aabb, axis as int, c0);
            assert(split_worthwhile(tris0, cents0, idx0, node0)) by {
                assert(0 <= (axis as int) < 3 && 1 <= c0 <= 8 && match sah_cost(
                    tris0,
                    cents0,
                    idx0,
                    node0,
                    axis as int,
                    split_candidate(node0.aabb, axis as int, c0),
                ) {
                    Some(c) => c <= node_cost_spec(node0),
                    None => false,
                });
            };
        }
        // partition the slot range in place about the split plane
        let mut i: usize = first;
        let mut j: usize = first + count;
        while i < j
            invariant
                cents0 == old(self).centroids@,
                idx0 == old(self).triangle_indices@,
                first <= i <= j <= first + count,
                first + count <= self.triangle_indices.len(),
                self.triangles == old(self).triangles,
                self.material == old(self).material,
                self.bvh_nodes == old(self).bvh_nodes,
                self.nodes_used == old(self).nodes_used,
                self.centroids == old(self).centroids,
                self.triangle_indices.len() == self.triangles.len(),
                self.centroids.len() == self.triangles.len(),
                axis < 3,
                forall|s: int|
                    0 <= s < self.triangle_indices.len()
                        ==> (#[trigger] self.triangle_indices[s]) < self.triangles.len(),
                forall|s1: int, s2: int|
                    0 <= s1 < s2 < self.triangle_indices.len()
                        ==> self.triangle_indices[s1] != self.triangle_indices[s2],
                forall|v: int|
                    0 <= v < self.triangles.len() ==> #[trigger] idx_covers(
                        self.triangle_indices@,
                        v,
                    ),
                forall|s: int|
                    first <= s < i ==> below_split(
                        cents0,
                        self.triangle_indices@,
                        axis as int,
                        split_pos as int,
                        s,
                    ),
                forall|s: int|
                    j <= s < first + count ==> !below_split(
                        cents0,
                        self.triangle_indices@,
                        axis as int,
                        split_pos as int,
                        s,
                    ),
                forall|s: int|
                    0 <= s < self.triangle_indices.len() && !(first <= s < first + count) ==> (
                    #[trigger] self.triangle_indices[s]) == old(self).triangle_indices[s],
                forall|ax: int, ps: int, bl: bool|
                    #[trigger] sah_count(
                        cents0,
                        self.triangle_indices@,
                        ax,
                        ps,
                        first as int,
                        count as int,
                        bl,
                    ) == sah_count(cents0, idx0, ax, ps, first as int, count as int, bl),
            decreases j - i,
        {
            let ti: usize = self.triangle_indices[i];
            let cv: i64 = axis_of(&self.centroids[ti], axis);
            if cv < split_pos {
                proof {
                    assert(below_split(
                        cents0,
                        self.triangle_indices@,
                        axis as int,
                        split_pos as int,
                        i as int,
                    ));
                }
                i = i + 1;
            } else {
                let ghost pre_idx = self.triangle_indices@;
                let a: usize = self.triangle_indices[i];
                let b: usize = self.triangle_indices[j - 1];
                self.triangle_indices.set(i, b);
                self.triangle_indices.set(j - 1, a);
                proof {
                    assert forall|v: int|
                        0 <= v < self.triangles.len() implies #[trigger] idx_covers(
                        self.triangle_indices@,
                        v,
                    ) by {
                        assert(idx_covers(pre_idx, v));
                        let s0 = choose|s0: int|
                            0 <= s0 < pre_idx.len() && #[trigger] pre_idx[s0] as int == v;
                        if s0 == i {
                            assert(self.triangle_indices@[j - 1] as int == v);
                        } else if s0 == j - 1 {
                            assert(self.triangle_indices@[i as int] as int == v);
                        } else {
                            assert(self.triangle_indices@[s0] as int == v);
                        }
                    };
                    assert forall|s: int|
                        first <= s < i implies below_split(
                        cents0,
                        self.triangle_indices@,
                        axis as int,
                        split_pos as int,
                        s,
                    ) by {
                        assert(self.triangle_indices@[s] == pre_idx[s]);
                        assert(below_split(cents0, pre_idx, axis as int, split_pos as int, s));
                    };
                    assert forall|s: int|
                        j - 1 <= s < first + count implies !below_split(
                        cents0,
                        self.triangle_indices@,
                        axis as int,
                        split_pos as int,
                        s,
                    ) by {
                        if s == j - 1 {
                            assert(self.triangle_indices@[s] == a);
                        } else {
                            assert(self.triangle_indices@[s] == pre_idx[s]);
                            assert(!below_split(cents0, pre_idx, axis as int, split_pos as int, s));
                        }
                    };
                    assert forall|ax: int, ps: int, bl: bool|
                        #[trigger] sah_count(
                            cents0,
                            self.triangle_indices@,
                            ax,
                            ps,
                            first as int,
                            count as int,
                            bl,
                        ) == sah_count(
                        cents0,
                        idx0,
                        ax,
                        ps,
                        first as int,
                        count as int,
                        bl,
                    ) by {
                        if i < j - 1 {
                            lemma_swap_count(
                                cents0,
                                pre_idx,
                                self.triangle_indices@,
                                ax,
                                ps,
                                first as int,
                                count as int,
                                bl,
                                i as int,
                                j - 1,
                            );
                        } else {
                            assert(self.triangle_indices@ =~= pre_idx);
                        }
                    };
                }
                j = j - 1;
            }
        }
        let left_count: usize = i - first;
        let ghost idx_a = self.triangle_indices@;
        proof {
            // the arranged range counts exactly the prefix on the near side;
            // the found plane's cost is defined, so neither side is empty
            lemma_arranged_count(
                cents0,
                idx_a,
                axis as int,
                split_pos as int,
                first as int,
                left_count as int,
                count as int,
            );
            lemma_count_sum(cents0, idx0, axis as int, split_pos as int, first as int, count as int);
            assert(sah_count(cents0, idx0, axis as int, split_pos as int, first as int, count as int, true)
                != 0);
            assert(sah_count(cents0, idx0, axis as int, split_pos as int, first as int, count as int, false)
                != 0);
            assert(1 <= left_count < count);
        }
        let left_child: usize = self.nodes_used;
        let right_child: usize = self.nodes_used + 1;
        self.nodes_used = self.nodes_used + 2;
        let ghost pre_nodes = self.bvh_nodes@;
        let lnode: BVHNode = BVHNode {
            aabb: AABB {
                min: Vec3 { x: 0, y: 0, z: 0 },
                max: Vec3 { x: 0, y: 0, z: 0 },
            },
            first,
            count: left_count,
            child: 0,
        };
        let rnode: BVHNode = BVHNode {
            aabb: AABB {
                min: Vec3 { x: 0, y: 0, z: 0 },
                max: Vec3 { x: 0, y: 0, z: 0 },
            },
            first: i,
            count: count - left_count,
            child: 0,
        };
        self.bvh_nodes.set(left_child, lnode);
        self.bvh_nodes.set(right_child, rnode);
        let parent: &BVHNode = &self.bvh_nodes[node_index];
        let updated: BVHNode = BVHNode {
            aabb: AABB { min: parent.aabb.min, max: parent.aabb.max },
            first: parent.first,
            count: parent.count,
            child: left_child,
        };
        self.bvh_nodes.set(node_index, updated);
        proof {
            lemma_wf_after_split(
                pre_nodes,
                self.bvh_nodes@,
                (self.nodes_used - 2) as int,
                self.triangles.len() as int,
                node_index as int,
                left_child as int,
            );
        }
        let ghost before_left = self.bvh_nodes@;
        self.update_node_bounds(left_child);
        proof {
            lemma_wf_box_update(
                before_left,
                self.bvh_nodes@,
                self.nodes_used as int,
                self.triangles.len() as int,
                left_child as int,
            );
        }
        let ghost before_right = self.bvh_nodes@;
        self.update_node_bounds(right_child);
        proof {
            lemma_wf_box_update(
                before_right,
                self.bvh_nodes@,
                self.nodes_used as int,
                self.triangles.len() as int,
                right_child as int,
            );
        }
        self.subdivide(left_child);
        let ghost idx_c = self.triangle_indices@;
        proof {
            assert(node_ok(
                self.bvh_nodes@,
                self.nodes_used as int,
                self.triangles.len() as int,
                node_index as int,
            ));
            // the left child's slots stay on the near side of the plane:
            // its recursion preserves the side counts over its range
            assert(sah_count(
                cents0,
                idx_a,
                axis as int,
                split_pos as int,
                first as int,
                left_count as int,
                true,
            ) == left_count as int) by {
                lemma_arranged_count(
                    cents0,
                    idx_a,
                    axis as int,
                    split_pos as int,
                    first as int,
                    left_count as int,
                    left_count as int,
                );
            };
            assert(sah_count(
                cents0,
                idx_c,
                axis as int,
                split_pos as int,
                first as int,
                left_count as int,
                true,
            ) == left_count as int);
            lemma_count_saturated(
                cents0,
                idx_c,
                axis as int,
                split_pos as int,
                first as int,
                left_count as int,
            );
            assert(forall|s: int|
                first <= s < first + left_count ==> below_split(
                    cents0,
                    idx_c,
                    axis as int,
                    split_pos as int,
                    s,
                ));
            // the right child's slots are untouched by the left recursion
            assert(forall|s: int|
                first + left_count <= s < first + count ==> (#[trigger] idx_c[s]) == idx_a[s]);
            assert forall|s: int|
                first + left_count <= s < first + count implies !below_split(
                cents0,
                idx_c,
                axis as int,
                split_pos as int,
                s,
            ) by {
                assert(idx_c[s] == idx_a[s]);
                assert(!below_split(cents0, idx_a, axis as int, split_pos as int, s));
            };
        }
        self.subdivide(right_child);
        let ghost idx_f = self.triangle_indices@;
        proof {
            assert(node_ok(
                self.bvh_nodes@,
                self.nodes_used as int,
                self.triangles.len() as int,
                node_index as int,
            ));
            // the left child's slots are untouched by the right recursion
            assert(forall|s: int|
                first <= s < first + left_count ==> (#[trigger] idx_f[s]) == idx_c[s]);
            assert forall|s: int|
                first <= s < first + left_count implies below_split(
                cents0,
                idx_f,
                axis as int,
                split_pos as int,
                s,
            ) by {
                assert(idx_f[s] == idx_c[s]);
                assert(below_split(cents0, idx_c, axis as int, split_pos as int, s));
            };
            // the right child's slots stay on the far side: its recursion
            // preserves the side counts over its range
            assert(sah_count(
                cents0,
                idx_c,
                axis as int,
                split_pos as int,
                first + left_count,
                (count - left_count) as int,
                true,
            ) == 0) by {
                lemma_arranged_count(
                    cents0,
                    idx_c,
                    axis as int,
                    split_pos as int,
                    first + left_count,
                    0,
                    (count - left_count) as int,
                );
            };
            assert(sah_count(
                cents0,
                idx_f,
                axis as int,
                split_pos as int,
                first + left_count,
                (count - left_count) as int,
                true,
            ) == 0);
            lemma_count_saturated(
                cents0,
                idx_f,
                axis as int,
                split_pos as int,
                first + left_count,
                (count - left_count) as int,
            );
            assert(forall|s: int|
                first + left_count <= s < first + count ==> !below_split(
                    cents0,
                    idx_f,
                    axis as int,
                    split_pos as int,
                    s,
                ));
            // slots outside the node's range were never touched
            assert forall|s: int|
                0 <= s < idx_f.len() && !(first <= s < first + count) implies (#[trigger] idx_f[s])
                == idx0[s] by {
                assert(idx_c[s] == idx_a[s]);
                assert(idx_f[s] == idx_c[s]);
                assert(idx_a[s] == idx0[s]);
            };
            // the side counts over the whole range compose across the two
            // recursions and the in-place partition
            assert forall|ax: int, ps: int, bl: bool|
                #[trigger] sah_count(cents0, idx_f, ax, ps, first as int, count as int, bl)
                    == sah_count(cents0, idx0, ax, ps, first as int, count as int, bl) by {
                let fi = first as int;
                let lc = left_count as int;
                let n = count as int;
                lemma_count_split(cents0, idx_f, ax, ps, fi, lc, n, bl);
                lemma_count_split(cents0, idx_a, ax, ps, fi, lc, n, bl);
                lemma_count_frame(cents0, idx_c, idx_f, ax, ps, fi, lc, bl);
                lemma_count_frame(cents0, idx_a, idx_c, ax, ps, fi + lc, n - lc, bl);
            };
            // the plane returned by the search witnesses the split shape
            let lft = self.bvh_nodes@[left_child as int];
            let rgt = self.bvh_nodes@[right_child as int];
            assert(self.bvh_nodes@[node_index as int].child == left_child);
            assert(lft.first == first && lft.count == left_count);
            assert(rgt.first == i && rgt.count == count - left_count);
            let c0 = choose|c0: int|
                1 <= c0 <= 8 && split_pos == split_candidate(node0.aabb, axis as int, c0);
            let pos = split_candidate(node0.aabb, axis as int, c0);
            assert(pos == split_pos as int);
            assert forall|s: int|
                lft.first <= s < lft.first + lft.count implies below_split(
                cents0,
                idx_f,
                axis as int,
                pos,
                s,
            ) by {
                assert(below_split(cents0, idx_f, axis as int, split_pos as int, s));
            };
            assert forall|s: int|
                rgt.first <= s < rgt.first + rgt.count implies !below_split(
                cents0,
                idx_f,
                axis as int,
                pos,
                s,
            ) by {
                assert(!below_split(cents0, idx_f, axis as int, split_pos as int, s));
            };
            assert(sah_cost(tris0, cents0, idx0, node0, axis as int, pos) == Some(
                best_cost as int,
            ));
            assert(subdivide_split_ok(
                tris0,
                cents0,
                idx0,
                node0,
                self.bvh_nodes@,
                idx_f,
                node_index as int,
            )) by {
                assert(0 <= (axis as int) < 3 && 1 <= c0 <= 8);
            };
        }
    }

    /// Evaluate the eight candidate split planes on each of the three axes
    /// and hand back the cheapest: when any candidate separates the
    /// triangles at all, the result names a candidate plane whose cost is
    /// minimal over all twenty-four.
    fn find_best_split_plane(&self, node_index: usize) -> (r: (bool, usize, i64, i128))
        requires
            node_index < self.bvh_nodes.len(),
            self.triangle_indices.len() == self.triangles.len(),
            self.centroids.len() == self.triangles.len(),
            self.triangles.len() <= 0x10_0000,
            forall|s: int|
                0 <= s < self.triangle_indices.len()
                    ==> (#[trigger] self.triangle_indices[s]) < self.triangles.len(),
            forall|k: int|
                0 <= k < self.triangles.len() ==> tri_wf(#[trigger] self.triangles[k]),
            forall|j: int|
                0 <= j < self.centroids.len() ==> bounded(#[trigger] self.centroids[j], CB as int),
            bounded(self.bvh_nodes[node_index as int].aabb.min, 0x1000_0000),
            bounded(self.bvh_nodes[node_index as int].aabb.max, 0x1000_0000),
            self.bvh_nodes[node_index as int].first + self.bvh_nodes[node_index as int].count
                <= self.triangles.len(),
        ensures
            r.1 < 3,
            r.0 <==> exists|a2: int, c2: int|
                0 <= a2 < 3 && 1 <= c2 <= 8 && sah_cost(
                    self.triangles@,
                    self.centroids@,
                    self.triangle_indices@,
                    self.bvh_nodes@[node_index as int],
                    a2,
                    #[trigger] split_candidate(self.bvh_nodes@[node_index as int].aabb, a2, c2),
                ) is Some,
            r.0 ==> {
                &&& (exists|c0: int|
                    1 <= c0 <= 8 && r.2 == split_candidate(
                        self.bvh_nodes@[node_index as int].aabb,
                        r.1 as int,
                        c0,
                    ))
                &&& sah_cost(
                    self.triangles@,
                    self.centroids@,
                    self.triangle_indices@,
                    self.bvh_nodes@[node_index as int],
                    r.1 as int,
                    r.2 as int,
                ) == Some(r.3 as int)
                &&& forall|a2: int, c2: int|
                    0 <= a2 < 3 && 1 <= c2 <= 8 ==> match sah_cost(
                        self.triangles@,
                        self.centroids@,
                        self.triangle_indices@,
                        self.bvh_nodes@[node_index as int],
                        a2,
                        #[trigger] split_candidate(self.bvh_nodes@[node_index as int].aabb, a2, c2),
                    ) {
                        Some(c) => r.3 <= c,
                        None => true,
                    }
            },
    {
        let ghost node = self.bvh_nodes@[node_index as int];
        let mut best_found: bool = false;
        let mut best_cost: i128 = 0;
        let mut best_axis: usize = 0;
        let mut best_pos: i64 = 0;
        let mut axis: usize = 0;
        while axis < 3
            invariant
                axis <= 3,
                best_axis < 3,
                node == self.bvh_nodes@[node_index as int],
                node_index < self.bvh_nodes.len(),
                self.triangle_indices.len() == self.triangles.len(),
                self.centroids.len() == self.triangles.len(),
                self.triangles.len() <= 0x10_0000,
                forall|s: int|
                    0 <= s < self.triangle_indices.len()
                        ==> (#[trigger] self.triangle_indices[s]) < self.triangles.len(),
                forall|k: int|
                    0 <= k < self.triangles.len() ==> tri_wf(#[trigger] self.triangles[k]),
                forall|j: int|
                    0 <= j < self.centroids.len() ==> bounded(
                        #[trigger] self.centroids[j],
                        CB as int,
                    ),
                bounded(self.bvh_nodes[node_index as int].aabb.min, 0x1000_0000),
                bounded(self.bvh_nodes[node_index as int].aabb.max, 0x1000_0000),
                self.bvh_nodes[node_index as int].first
                    + self.bvh_nodes[node_index as int].count <= self.triangles.len(),
                best_found ==> {
                    &&& (exists|c0: int|
                        1 <= c0 <= 8 && best_pos == split_candidate(node.aabb, best_axis as int, c0))
                    &&& sah_cost(
                        self.triangles@,
                        self.centroids@,
                        self.triangle_indices@,
                        node,
                        best_axis as int,
                        best_pos as int,
                    ) == Some(best_cost as int)
                },
                forall|a2: int, c2: int|
                    0 <= a2 < axis && 1 <= c2 <= 8 ==> match sah_cost(
                        self.triangles@,
                        self.centroids@,
                        self.triangle_indices@,
                        node,
                        a2,
                        #[trigger] split_candidate(node.aabb, a2, c2),
                    ) {
                        Some(c) => best_found && best_cost <= c,
                        None => true,
                    },
            decreases 3 - axis,
        {
            let mut cand: u32 = 1;
            while cand <= 8
                invariant
                    axis < 3,
                    best_axis < 3,
                    1 <= cand <= 9,
                    node == self.bvh_nodes@[node_index as int],
                    node_index < self.bvh_nodes.len(),
                    self.triangle_indices.len() == self.triangles.len(),
                    self.centroids.len() == self.triangles.len(),
                    self.triangles.len() <= 0x10_0000,
                    forall|s: int|
                        0 <= s < self.triangle_indices.len()
                            ==> (#[trigger] self.triangle_indices[s]) < self.triangles.len(),
                    forall|k: int|
                        0 <= k < self.triangles.len() ==> tri_wf(#[trigger] self.triangles[k]),
                    forall|j: int|
                        0 <= j < self.centroids.len() ==> bounded(
                            #[trigger] self.centroids[j],
                            CB as int,
                        ),
                    bounded(self.bvh_nodes[node_index as int].aabb.min, 0x1000_0000),
                    bounded(self.bvh_nodes[node_index as int].aabb.max, 0x1000_0000),
                    self.bvh_nodes[node_index as int].first
                        + self.bvh_nodes[node_index as int].count <= self.triangles.len(),
                    best_found ==> {
                        &&& (exists|c0: int|
                            1 <= c0 <= 8 && best_pos == split_candidate(
                                node.aabb,
                                best_axis as int,
                                c0,
                            ))
                        &&& sah_cost(
                            self.triangles@,
                            self.centroids@,
                            self.triangle_indices@,
                            node,
                            best_axis as int,
                            best_pos as int,
                        ) == Some(best_cost as int)
                    },
                    forall|a2: int, c2: int|
                        0 <= a2 < 3 && 1 <= c2 <= 8 && (a2 < axis || (a2 == axis && c2
                            < cand)) ==> match sah_cost(
                            self.triangles@,
                            self.centroids@,
                            self.triangle_indices@,
                            node,
                            a2,
                            #[trigger] split_candidate(node.aabb, a2, c2),
                        ) {
                            Some(c) => best_found && best_cost <= c,
                            None => true,
                        },
                decreases 9 - cand,
            {
                let pos: i64 = candidate_pos(&self.bvh_nodes[node_index].aabb, axis, cand);
                let cost: Option<i128> = self.evaluate_sah(node_index, axis, pos);
                if let Some(cv) = cost {
                    if !best_found || cv < best_cost {
                        best_found = true;
                        best_cost = cv;
                        best_axis = axis;
                        best_pos = pos;
                        proof {
                            assert(1 <= cand as int <= 8 && best_pos == split_candidate(
                                node.aabb,
                                best_axis as int,
                                cand as int,
                            ));
                        }
                    }
                }
                cand = cand + 1;
            }
            axis = axis + 1;
        }
        proof {
            if best_found {
                assert(0 <= best_axis < 3 && exists|c0: int|
                    1 <= c0 <= 8 && best_pos == split_candidate(node.aabb, best_axis as int, c0));
            }
        }
        (best_found, best_axis, best_pos, best_cost)
    }

    /// The surface-area-heuristic cost of splitting a node's triangles
    /// about `pos` on `axis`: each side's count times its box area; none if
    /// every triangle falls on one side.
    fn evaluate_sah(&self, node_index: usize, axis: usize, pos: i64) -> (r: Option<i128>)
        requires
            axis < 3,
            node_index < self.bvh_nodes.len(),
            self.triangle_indices.len() == self.triangles.len(),
            self.centroids.len() == self.triangles.len(),
            self.triangles.len() <= 0x10_0000,
            forall|s: int|
                0 <= s < self.triangle_indices.len()
                    ==> (#[trigger] self.triangle_indices[s]) < self.triangles.len(),
            forall|k: int|
                0 <= k < self.triangles.len() ==> tri_wf(#[trigger] self.triangles[k]),
            self.bvh_nodes[node_index as int].first + self.bvh_nodes[node_index as int].count
                <= self.triangles.len(),
        ensures
            (match r {
                Some(c) => Some(c as int),
                None => None::<int>,
            }) == sah_cost(
                self.triangles@,
                self.centroids@,
                self.triangle_indices@,
                self.bvh_nodes@[node_index as int],
                axis as int,
                pos as int,
            ),
    {
        let first: usize = self.bvh_nodes[node_index].first;
        let count: usize = self.bvh_nodes[node_index].count;
        let mut left: AABB = AABB {
            min: Vec3 { x: CB, y: CB, z: CB },
            max: Vec3 { x: -CB, y: -CB, z: -CB },
        };
        let mut right: AABB = AABB {
            min: Vec3 { x: CB, y: CB, z: CB },
            max: Vec3 { x: -CB, y: -CB, z: -CB },
        };
        let mut left_count: u64 = 0;
        let mut right_count: u64 = 0;
        let mut s: usize = first;
        while s < first + count
            invariant
                first <= s <= first + count,
                first + count <= self.triangle_indices.len(),
                axis < 3,
                self.triangle_indices.len() == self.triangles.len(),
                self.centroids.len() == self.triangles.len(),
                forall|j: int|
                    0 <= j < self.triangle_indices.len()
                        ==> (#[trigger] self.triangle_indices[j]) < self.triangles.len(),
                forall|k: int|
                    0 <= k < self.triangles.len() ==> tri_wf(#[trigger] self.triangles[k]),
                left_count + right_count == s - first,
                first + count <= 0x10_0000,
                count == self.bvh_nodes[node_index as int].count,
                first == self.bvh_nodes[node_index as int].first,
                node_index < self.bvh_nodes.len(),
                bounded(left.min, CB as int),
                bounded(left.max, CB as int),
                bounded(right.min, CB as int),
                bounded(right.max, CB as int),
                left_count as int == sah_count(
                    self.centroids@, self.triangle_indices@, axis as int, pos as int,
                    first as int, s - first, true,
                ),
                right_count as int == sah_count(
                    self.centroids@, self.triangle_indices@, axis as int, pos as int,
                    first as int, s - first, false,
                ),
                left.min.x as int == sah_lo(
                    self.triangles@, self.centroids@, self.triangle_indices@, axis as int,
                    pos as int, first as int, s - first, true, 0,
                ),
                left.min.y as int == sah_lo(
                    self.triangles@, self.centroids@, self.triangle_indices@, axis as int,
                    pos as int, first as int, s - first, true, 1,
                ),
                left.min.z as int == sah_lo(
                    self.triangles@, self.centroids@, self.triangle_indices@, axis as int,
                    pos as int, first as int, s - first, true, 2,
                ),
                left.max.x as int == sah_hi(
                    self.triangles@, self.centroids@, self.triangle_indices@, axis as int,
                    pos as int, first as int, s - first, true, 0,
                ),
                left.max.y as int == sah_hi(
                    self.triangles@, self.centroids@, self.triangle_indices@, axis as int,
                    pos as int, first as int, s - first, true, 1,
                ),
                left.max.z as int == sah_hi(
                    self.triangles@, self.centroids@, self.triangle_indices@, axis as int,
                    pos as int, first as int, s - first, true, 2,
                ),
                right.min.x as int == sah_lo(
                    self.triangles@, self.centroids@, self.triangle_indices@, axis as int,
                    pos as int, first as int, s - first, false, 0,
                ),
                right.min.y as int == sah_lo(
                    self.triangles@, self.centroids@, self.triangle_indices@, axis as int,
                    pos as int, first as int, s - first, false, 1,
                ),
                right.min.z as int == sah_lo(
                    self.triangles@, self.centroids@, self.triangle_indices@, axis as int,
                    pos as int, first as int, s - first, false, 2,
                ),
                right.max.x as int == sah_hi(
                    self.triangles@, self.centroids@, self.triangle_indices@, axis as int,
                    pos as int, first as int, s - first, false, 0,
                ),
                right.max.y as int == sah_hi(
                    self.triangles@, self.centroids@, self.triangle_indices@, axis as int,
                    pos as int, first as int, s - first, false, 1,
                ),
                right.max.z as int == sah_hi(
                    self.triangles@, self.centroids@, self.triangle_indices@, axis as int,
                    pos as int, first as int, s - first, false, 2,
                ),
            decreases first + count - s,
        {
            let ti: usize = self.triangle_indices[s];
            let cv: i64 = axis_of(&self.centroids[ti], axis);
            let tri: &Triangle = &self.triangles[ti];
            if cv < pos {
                left = AABB {
                    min: min3(min3(min3(left.min, tri.p1), tri.p2), tri.p3),
                    max: max3(max3(max3(left.max, tri.p1), tri.p2), tri.p3),
                };
                left_count = left_count + 1;
            } else {
                right = AABB {
                    min: min3(min3(min3(right.min, tri.p1), tri.p2), tri.p3),
                    max: max3(max3(max3(right.max, tri.p1), tri.p2), tri.p3),
                };
                right_count = right_count + 1;
            }
            s = s + 1;
        }
        if left_count == 0 || right_count == 0 {
            return None;
        }
        let la: i128 = left.area();
        let ra: i128 = right.area();
        proof {
            lemma_cost_bound(left_count as int, la as int);
            lemma_cost_bound(right_count as int, ra as int);
        }
        Some((left_count as i128) * la + (right_count as i128) * ra)
    }

    /// Traverse the tree front to back with an explicit stack, scanning the
    /// leaves' slot ranges and pruning subtrees whose boxes the ray
    /// provably misses. The result is exactly the closest-hit fold over all
    /// triangles: sound (every hit is genuine) and complete (no closer hit
    /// exists). A step budget guards the walk; if it ever ran out, a plain
    /// scan of every remaining slot finishes the search, so the contract
    /// holds unconditionally.
    fn transverse_bvh(&self, ray: &Ray, t0: i64, t1: i64) -> (r: Option<HitRecord>)
        requires
            mesh_wf(*self),
            ray_wf(*ray),
            0 <= t0 <= t1 <= T_MAX,
        ensures
            r is Some <==> fold_hit(self.triangles@, *ray, t0 as int, t1 as int) is Some,
            r matches Some(h) ==> {
                &&& Some(h.t as int) == fold_hit(self.triangles@, *ray, t0 as int, t1 as int)
                &&& t0 <= h.t < t1
                &&& h.material == self.material
                &&& hit_wf(h)
            },
    {
        let ghost ntris = self.triangles.len() as int;
        let mut stack: Vec<usize> = Vec::new();
        stack.push(0);
        let mut closest: i64 = t1;
        let mut best: Option<HitRecord> = None;
        let mut steps: u64 = 0;
        let bound: u64 = 4 * (self.nodes_used as u64) + 4;
        proof {
            assert forall|s: int|
                0 <= s < ntris && !slot_on_stack(stack@, self.bvh_nodes@, s) implies slot_settled(
                self.triangles@,
                self.triangle_indices@,
                *ray,
                t0 as int,
                t1 as int,
                closest as int,
                s,
            ) by {
                assert(in_node_range(self.bvh_nodes@[stack@[0] as int], s));
            };
        }
        while stack.len() > 0 && steps < bound
            invariant
                mesh_wf(*self),
                ray_wf(*ray),
                ntris == self.triangles.len() as int,
                0 <= t0 <= t1 <= T_MAX,
                t0 <= closest <= t1,
                forall|p: int| 0 <= p < stack.len() ==> (#[trigger] stack[p]) < self.nodes_used,
                best is None ==> closest == t1,
                best matches Some(h) ==> {
                    &&& exists|k: int|
                        0 <= k < ntris && tri_hit(
                            #[trigger] self.triangles[k],
                            *ray,
                            t0 as int,
                            t1 as int,
                        ) == Some(h.t as int)
                    &&& h.t == closest
                    &&& t0 <= h.t < t1
                    &&& h.material == self.material
                    &&& hit_wf(h)
                },
                forall|s: int|
                    0 <= s < ntris && !slot_on_stack(stack@, self.bvh_nodes@, s)
                        ==> #[trigger] slot_settled(
                        self.triangles@,
                        self.triangle_indices@,
                        *ray,
                        t0 as int,
                        t1 as int,
                        closest as int,
                        s,
                    ),
            decreases bound - steps,
        {
            steps = steps + 1;
            let ghost pre_stack = stack@;
            let node_index: usize = stack.pop().unwrap();
            let node_first: usize = self.bvh_nodes[node_index].first;
            let node_count: usize = self.bvh_nodes[node_index].count;
            let node_child: usize = self.bvh_nodes[node_index].child;
            proof {
                assert(node_ok(self.bvh_nodes@, self.nodes_used as int, ntris, node_index as int));
            }
            if node_child == 0 {
                proof {
                    assert forall|s2: int|
                        0 <= s2 < ntris && !slot_on_stack(stack@, self.bvh_nodes@, s2) && !(
                        node_first <= s2 < node_first + node_count) implies #[trigger] slot_settled(
                        self.triangles@,
                        self.triangle_indices@,
                        *ray,
                        t0 as int,
                        t1 as int,
                        closest as int,
                        s2,
                    ) by {
                        if slot_on_stack(pre_stack, self.bvh_nodes@, s2) {
                            let p = choose|p: int|
                                0 <= p < pre_stack.len() && in_node_range(
                                    self.bvh_nodes@[#[trigger] pre_stack[p] as int],
                                    s2,
                                );
                            if p < pre_stack.len() - 1 {
                                assert(stack@[p] == pre_stack[p]);
                                assert(slot_on_stack(stack@, self.bvh_nodes@, s2));
                            } else {
                                assert(in_node_range(self.bvh_nodes@[node_index as int], s2));
                            }
                        }
                    };
                }
                // leaf: scan its slots
                let mut s: usize = node_first;
                while s < node_first + node_count
                    invariant
                        mesh_wf(*self),
                        ray_wf(*ray),
                        ntris == self.triangles.len() as int,
                        0 <= t0 <= t1 <= T_MAX,
                        t0 <= closest <= t1,
                        node_first <= s <= node_first + node_count,
                        node_first + node_count <= self.triangles.len(),
                        forall|p: int|
                            0 <= p < stack.len() ==> (#[trigger] stack[p]) < self.nodes_used,
                        best is None ==> closest == t1,
                        best matches Some(h) ==> {
                            &&& exists|k: int|
                                0 <= k < ntris && tri_hit(
                                    #[trigger] self.triangles[k],
                                    *ray,
                                    t0 as int,
                                    t1 as int,
                                ) == Some(h.t as int)
                            &&& h.t == closest
                            &&& t0 <= h.t < t1
                            &&& h.material == self.material
                            &&& hit_wf(h)
                        },
                        forall|s2: int|
                            0 <= s2 < ntris && !slot_on_stack(stack@, self.bvh_nodes@, s2)
                                && !(node_first <= s2 < node_first + node_count)
                                ==> #[trigger] slot_settled(
                                self.triangles@,
                                self.triangle_indices@,
                                *ray,
                                t0 as int,
                                t1 as int,
                                closest as int,
                                s2,
                            ),
                        forall|s2: int|
                            node_first <= s2 < s ==> #[trigger] slot_settled(
                                self.triangles@,
                                self.triangle_indices@,
                                *ray,
                                t0 as int,
                                t1 as int,
                                closest as int,
                                s2,
                            ),
                    decreases node_first + node_count - s,
                {
                    let ti: usize = self.triangle_indices[s];
                    let tri: &Triangle = &self.triangles[ti];
                    let ghost pre_closest = closest as int;
                    let hit: Option<HitRecord> = tri.hits(ray, t0, closest, &self.material);
                    proof {
                        crate::mesh::lemma_tri_hit_shrink(
                            self.triangles[ti as int],
                            *ray,
                            t0 as int,
                            closest as int,
                            t1 as int,
                        );
                    }
                    if let Some(h) = hit {
                        proof {
                            assert(tri_hit(self.triangles[ti as int], *ray, t0 as int, t1 as int)
                                == Some(h.t as int));
                        }
                        closest = h.t;
                        best = Some(h);
                    }
                    proof {
                        lemma_settled_monotone(
                            self.triangles@,
                            self.triangle_indices@,
                            *ray,
                            t0 as int,
                            t1 as int,
                            pre_closest,
                            closest as int,
                        );
                        assert(slot_settled(
                            self.triangles@,
                            self.triangle_indices@,
                            *ray,
                            t0 as int,
                            t1 as int,
                            closest as int,
                            s as int,
                        ));
                    }
                    s = s + 1;
                }
            } else {
                // interior: test the children's boxes; push the survivors,
                // nearer child on top; a rejected child's slots are settled
                proof {
                    assert(node_ok(
                        self.bvh_nodes@,
                        self.nodes_used as int,
                        ntris,
                        node_child as int,
                    ));
                    assert(node_ok(
                        self.bvh_nodes@,
                        self.nodes_used as int,
                        ntris,
                        node_child + 1,
                    ));
                    assert(node_contains(
                        self.bvh_nodes@,
                        self.triangle_indices@,
                        self.triangles@,
                        node_child as int,
                    ));
                    assert(node_contains(
                        self.bvh_nodes@,
                        self.triangle_indices@,
                        self.triangles@,
                        node_child + 1,
                    ));
                }
                let dl: Option<i64> = ray_box_distance(
                    &self.bvh_nodes[node_child].aabb,
                    ray,
                    t0,
                    closest,
                );
                let dr: Option<i64> = ray_box_distance(
                    &self.bvh_nodes[node_child + 1].aabb,
                    ray,
                    t0,
                    closest,
                );
                proof {
                    if dl is None {
                        lemma_rejection_settles(
                            self.bvh_nodes@,
                            self.triangle_indices@,
                            self.triangles@,
                            *ray,
                            t0 as int,
                            t1 as int,
                            closest as int,
                            node_child as int,
                        );
                    }
                    if dr is None {
                        lemma_rejection_settles(
                            self.bvh_nodes@,
                            self.triangle_indices@,
                            self.triangles@,
                            *ray,
                            t0 as int,
                            t1 as int,
                            closest as int,
                            node_child + 1,
                        );
                    }
                }
                match (dl, dr) {
                    (Some(tl), Some(tr)) => {
                        if tl > tr {
                            stack.push(node_child);
                            stack.push(node_child + 1);
                        } else {
                            stack.push(node_child + 1);
                            stack.push(node_child);
                        }
                        proof {
                            assert(stack@[stack@.len() - 1] as int + stack@[stack@.len() - 2] as int
                                == node_child as int + node_child as int + 1);
                            assert(stack_has(stack@, node_child as int)) by {
                                if stack@[stack@.len() - 1] as int == node_child as int {
                                } else {
                                    assert(stack@[stack@.len() - 2] as int == node_child as int);
                                }
                            };
                            assert(stack_has(stack@, node_child as int + 1)) by {
                                if stack@[stack@.len() - 1] as int == node_child as int + 1 {
                                } else {
                                    assert(stack@[stack@.len() - 2] as int
                                        == node_child as int + 1);
                                }
                            };
                        }
                    },
                    (Some(_), None) => {
                        stack.push(node_child);
                        proof {
                            assert(stack@[stack@.len() - 1] as int == node_child as int);
                            assert(stack_has(stack@, node_child as int));
                        }
                    },
                    (None, Some(_)) => {
                        stack.push(node_child + 1);
                        proof {
                            assert(stack@[stack@.len() - 1] as int == node_child as int + 1);
                            assert(stack_has(stack@, node_child as int + 1));
                        }
                    },
                    (None, None) => {
                    },
                }
                proof {
                    assert forall|s2: int|
                        0 <= s2 < ntris && !slot_on_stack(stack@, self.bvh_nodes@, s2)
                            implies #[trigger] slot_settled(
                            self.triangles@,
                            self.triangle_indices@,
                            *ray,
                            t0 as int,
                            t1 as int,
                            closest as int,
                            s2,
                        ) by {
                        if slot_on_stack(pre_stack, self.bvh_nodes@, s2) {
                            let p = choose|p: int|
                                0 <= p < pre_stack.len() && in_node_range(
                                    self.bvh_nodes@[#[trigger] pre_stack[p] as int],
                                    s2,
                                );
                            if p < pre_stack.len() - 1 {
                                // still covered by an older stack entry
                                assert(stack@[p] == pre_stack[p]);
                                assert(slot_on_stack(stack@, self.bvh_nodes@, s2));
                            } else {
                                // covered by the popped node: it lies in one
                                // of the children, which was pushed or was
                                // rejected and settled
                                assert(in_node_range(self.bvh_nodes@[node_index as int], s2));
                                if in_node_range(self.bvh_nodes@[node_child as int], s2) {
                                    assert(dl is None) by {
                                        if dl is Some {
                                            assert(stack_has(stack@, node_child as int));
                                            let pw = choose|pw: int|
                                                0 <= pw < stack@.len()
                                                    && #[trigger] stack@[pw] as int
                                                    == node_child as int;
                                            assert(in_node_range(
                                                self.bvh_nodes@[stack@[pw] as int],
                                                s2,
                                            ));
                                            assert(slot_on_stack(stack@, self.bvh_nodes@, s2));
                                        }
                                    };
                                } else {
                                    assert(in_node_range(self.bvh_nodes@[node_child + 1], s2));
                                    assert(dr is None) by {
                                        if dr is Some {
                                            assert(stack_has(stack@, node_child as int + 1));
                                            let pw = choose|pw: int|
                                                0 <= pw < stack@.len()
                                                    && #[trigger] stack@[pw] as int
                                                    == node_child as int + 1;
                                            assert(in_node_range(
                                                self.bvh_nodes@[stack@[pw] as int],
                                                s2,
                                            ));
                                            assert(slot_on_stack(stack@, self.bvh_nodes@, s2));
                                        }
                                    };
                                }
                            }
                        }
                    };
                }
            }
        }
        // if the budget ran out with work left, finish with a plain scan
        if stack.len() > 0 {
            let n: usize = self.triangles.len();
            let mut s: usize = 0;
            while s < n
                invariant
                    mesh_wf(*self),
                    ray_wf(*ray),
                    ntris == self.triangles.len() as int,
                    0 <= t0 <= t1 <= T_MAX,
                    t0 <= closest <= t1,
                    s <= n == self.triangles.len(),
                    best is None ==> closest == t1,
                    best matches Some(h) ==> {
                        &&& exists|k: int|
                            0 <= k < ntris && tri_hit(
                                #[trigger] self.triangles[k],
                                *ray,
                                t0 as int,
                                t1 as int,
                            ) == Some(h.t as int)
                        &&& h.t == closest
                        &&& t0 <= h.t < t1
                        &&& h.material == self.material
                        &&& hit_wf(h)
                    },
                    forall|s2: int|
                        0 <= s2 < s ==> #[trigger] slot_settled(
                            self.triangles@,
                            self.triangle_indices@,
                            *ray,
                            t0 as int,
                            t1 as int,
                            closest as int,
                            s2,
                        ),
                decreases n - s,
            {
                let ti: usize = self.triangle_indices[s];
                let tri: &Triangle = &self.triangles[ti];
                let ghost pre_closest = closest as int;
                let hit: Option<HitRecord> = tri.hits(ray, t0, closest, &self.material);
                proof {
                    crate::mesh::lemma_tri_hit_shrink(
                        self.triangles[ti as int],
                        *ray,
                        t0 as int,
                        closest as int,
                        t1 as int,
                    );
                }
                if let Some(h) = hit {
                    proof {
                        assert(tri_hit(self.triangles[ti as int], *ray, t0 as int, t1 as int)
                            == Some(h.t as int));
                    }
                    closest = h.t;
                    best = Some(h);
                }
                proof {
                    lemma_settled_monotone(
                        self.triangles@,
                        self.triangle_indices@,
                        *ray,
                        t0 as int,
                        t1 as int,
                        pre_closest,
                        closest as int,
                    );
                    assert(slot_settled(
                        self.triangles@,
                        self.triangle_indices@,
                        *ray,
                        t0 as int,
                        t1 as int,
                        closest as int,
                        s as int,
                    ));
                }
                s = s + 1;
            }
            proof {
                lemma_settled_gives_fold(
                    self.triangles@,
                    self.triangle_indices@,
                    *ray,
                    t0 as int,
                    t1 as int,
                    closest as int,
                );
            }
        } else {
            proof {
                assert forall|s2: int| 0 <= s2 < ntris implies #[trigger] slot_settled(
                    self.triangles@,
                    self.triangle_indices@,
                    *ray,
                    t0 as int,
                    t1 as int,
                    closest as int,
                    s2,
                ) by {
                    assert(!slot_on_stack(stack@, self.bvh_nodes@, s2));
                };
                lemma_settled_gives_fold(
                    self.triangles@,
                    self.triangle_indices@,
                    *ray,
                    t0 as int,
                    t1 as int,
                    closest as int,
                );
            }
        }
        proof {
            lemma_fold_hit_closest(self.triangles@, *ray, t0 as int, t1 as int);
        }
        best
    }

    /// Closest hit through the acceleration tree: exactly the closest-hit
    /// fold over every triangle, so the tree agrees with the plain scan.
    pub fn hits(&self, ray: &Ray, t0: i64, t1: i64) -> (r: Option<HitRecord>)
        requires
            mesh_wf(*self),
            ray_wf(*ray),
            0 <= t0 <= t1 <= T_MAX,
        ensures
            r is Some <==> fold_hit(self.triangles@, *ray, t0 as int, t1 as int) is Some,
            r matches Some(h) ==> {
                &&& Some(h.t as int) == fold_hit(self.triangles@, *ray, t0 as int, t1 as int)
                &&& exists|k: int|
                    0 <= k < self.triangles.len() && tri_hit(
                        #[trigger] self.triangles[k],
                        *ray,
                        t0 as int,
                        t1 as int,
                    ) == Some(h.t as int)
                &&& t0 <= h.t < t1
                &&& h.material == self.material
                &&& hit_wf(h)
            },
    {
        let r: Option<HitRecord> = self.transverse_bvh(ray, t0, t1);
        proof {
            if r is Some {
                lemma_fold_hit_closest(self.triangles@, *ray, t0 as int, t1 as int);
            }
        }
        r
    }

    /// Closest hit by a plain scan over every triangle: the reference the
    /// acceleration tree is measured against. The result is exactly the
    /// left-to-right fold, whose parameter is minimal over all hits.
    pub fn hits_linear(&self, ray: &Ray, t0: i64, t1: i64) -> (r: Option<HitRecord>)
        requires
            mesh_wf(*self),
            ray_wf(*ray),
            0 <= t0 <= t1 <= T_MAX,
        ensures
            r is Some <==> fold_hit(self.triangles@, *ray, t0 as int, t1 as int) is Some,
            r matches Some(h) ==> {
                &&& Some(h.t as int) == fold_hit(self.triangles@, *ray, t0 as int, t1 as int)
                &&& t0 <= h.t < t1
                &&& h.material == self.material
                &&& hit_wf(h)
            },
    {
        let n: usize = self.triangles.len();
        let mut closest: i64 = t1;
        let mut best: Option<HitRecord> = None;
        let mut k: usize = 0;
        while k < n
            invariant
                mesh_wf(*self),
                ray_wf(*ray),
                0 <= t0 <= t1 <= T_MAX,
                t0 <= closest <= t1,
                k <= n == self.triangles.len(),
                best is None ==> closest == t1 && fold_hit(
                    self.triangles@.take(k as int),
                    *ray,
                    t0 as int,
                    t1 as int,
                ) is None,
                best matches Some(h) ==> {
                    &&& Some(h.t as int) == fold_hit(
                        self.triangles@.take(k as int),
                        *ray,
                        t0 as int,
                        t1 as int,
                    )
                    &&& h.t == closest
                    &&& t0 <= h.t < t1
                    &&& h.material == self.material
                    &&& hit_wf(h)
                },
            decreases n - k,
        {
            proof {
                assert(self.triangles@.take(k as int + 1).drop_last()
                    == self.triangles@.take(k as int));
                assert(self.triangles@.take(k as int + 1).last() == self.triangles[k as int]);
            }
            let tri: &Triangle = &self.triangles[k];
            let hit: Option<HitRecord> = tri.hits(ray, t0, closest, &self.material);
            if let Some(h) = hit {
                closest = h.t;
                best = Some(h);
            }
            k = k + 1;
        }
        proof {
            assert(self.triangles@.take(n as int) == self.triangles@);
        }
        best
    }
}

/// The vertex relation an affine update leaves behind: every coordinate is
/// scaled by the fixed-point factor, then offset.
pub open spec fn affine_point(p: Vec3, factor: Vec3, offset: Vec3) -> (int, int, int) {
    (
        crate::fx::fxm(p.x as int, factor.x as int) + offset.x,
        crate::fx::fxm(p.y as int, factor.y as int) + offset.y,
        crate::fx::fxm(p.z as int, factor.z as int) + offset.z,
    )
}

/// One vertex rotated about the vertical axis by a fixed-point cosine and
/// sine, each product pair scaled down once.
pub open spec fn rotate_point(p: Vec3, cos: int, sin: int) -> (int, int, int) {
    (
        (p.x * cos + p.z * sin) / (SCALE as int),
        p.y as int,
        (p.z * cos - p.x * sin) / (SCALE as int),
    )
}

/// The rotated image of a vertex stays inside the scene bounds.
pub open spec fn rotate_point_ok(p: Vec3, cos: int, sin: int) -> bool {
    let q = rotate_point(p, cos, sin);
    &&& -CB <= q.0 <= CB
    &&& -CB <= q.2 <= CB
}

/// Every vertex of the triangle rotates inside the scene bounds.
pub open spec fn rotate_tri_ok(t: Triangle, cos: int, sin: int) -> bool {
    &&& rotate_point_ok(t.p1, cos, sin)
    &&& rotate_point_ok(t.p2, cos, sin)
    &&& rotate_point_ok(t.p3, cos, sin)
}

/// The triangle-set relation of a rotation about the vertical axis.
pub open spec fn rotated_triangles(post: Seq<Triangle>, pre: Seq<Triangle>, cos: int, sin: int) -> bool {
    &&& post.len() == pre.len()
    &&& forall|k: int|
        0 <= k < pre.len() ==> {
            &&& crate::vec3::vtup((#[trigger] post[k]).p1) == rotate_point(pre[k].p1, cos, sin)
            &&& crate::vec3::vtup(post[k].p2) == rotate_point(pre[k].p2, cos, sin)
            &&& crate::vec3::vtup(post[k].p3) == rotate_point(pre[k].p3, cos, sin)
        }
}

/// The triangle-set relation of an affine update.
pub open spec fn affine_triangles(post: Seq<Triangle>, pre: Seq<Triangle>, factor: Vec3, offset: Vec3) -> bool {
    &&& post.len() == pre.len()
    &&& forall|k: int|
        0 <= k < pre.len() ==> {
            &&& crate::vec3::vtup((#[trigger] post[k]).p1) == affine_point(pre[k].p1, factor, offset)
            &&& crate::vec3::vtup(post[k].p2) == affine_point(pre[k].p2, factor, offset)
            &&& crate::vec3::vtup(post[k].p3) == affine_point(pre[k].p3, factor, offset)
        }
}

impl Mesh {
    /// Apply an affine update (a diagonal scale and a translation) to every
    /// vertex and rebuild the tree. When any updated vertex would leave the
    /// scene bounds, the mesh is left untouched and `false` comes back.
    pub fn transform(&mut self, factor: Vec3, offset: Vec3) -> (ok: bool)
        requires
            mesh_wf(*old(self)),
            bounded(factor, 0x10_0000),
            bounded(offset, CB as int),
        ensures
            mesh_wf(*final(self)),
            final(self).material == old(self).material,
            ok <==> forall|k: int|
                0 <= k < old(self).triangles.len() ==> affine_tri_ok(
                    #[trigger] old(self).triangles[k],
                    factor,
                    offset,
                ),
            ok ==> affine_triangles(
                final(self).triangles@,
                old(self).triangles@,
                factor,
                offset,
            ),
            !ok ==> *final(self) == *old(self),
    {
        let n: usize = self.triangles.len();
        let mut moved: Vec<Triangle> = Vec::new();
        let mut k: usize = 0;
        while k < n
            invariant
                k <= n == self.triangles.len(),
                *self == *old(self),
                mesh_wf(*self),
                bounded(factor, 0x10_0000),
                bounded(offset, CB as int),
                moved.len() == k,
                forall|j: int| 0 <= j < k ==> affine_tri_ok(#[trigger] self.triangles[j], factor, offset),
                forall|j: int|
                    0 <= j < k ==> {
                        &&& crate::vec3::vtup((#[trigger] moved[j]).p1)
                            == affine_point(self.triangles[j].p1, factor, offset)
                        &&& crate::vec3::vtup(moved[j].p2)
                            == affine_point(self.triangles[j].p2, factor, offset)
                        &&& crate::vec3::vtup(moved[j].p3)
                            == affine_point(self.triangles[j].p3, factor, offset)
                        &&& tri_wf(moved[j])
                    },
            decreases n - k,
        {
            let tri: &Triangle = &self.triangles[k];
            let p1: Option<Vec3> = affine_apply(tri.p1, factor, offset);
            let p2: Option<Vec3> = affine_apply(tri.p2, factor, offset);
            let p3: Option<Vec3> = affine_apply(tri.p3, factor, offset);
            match (p1, p2, p3) {
                (Some(q1), Some(q2), Some(q3)) => {
                    moved.push(Triangle::new(q1, q2, q3));
                },
                _ => {
                    return false;
                },
            }
            k = k + 1;
        }
        self.triangles = moved;
        self.build_bvh();
        true
    }

    /// Translate every vertex. The identity scale is exact, so this is the
    /// affine update with a unit factor.
    pub fn translate(&mut self, translation: Vec3) -> (ok: bool)
        requires
            mesh_wf(*old(self)),
            bounded(translation, CB as int),
        ensures
            mesh_wf(*final(self)),
            final(self).material == old(self).material,
            ok <==> forall|k: int|
                0 <= k < old(self).triangles.len() ==> affine_tri_ok(
                    #[trigger] old(self).triangles[k],
                    (Vec3 { x: SCALE, y: SCALE, z: SCALE }),
                    translation,
                ),
            ok ==> affine_triangles(
                final(self).triangles@,
                old(self).triangles@,
                (Vec3 { x: SCALE, y: SCALE, z: SCALE }),
                translation,
            ),
            !ok ==> *final(self) == *old(self),
    {
        self.transform(Vec3 { x: SCALE, y: SCALE, z: SCALE }, translation)
    }

    /// Scale every vertex about the origin by a fixed-point factor per axis.
    pub fn scale(&mut self, factor: Vec3) -> (ok: bool)
        requires
            mesh_wf(*old(self)),
            bounded(factor, 0x10_0000),
        ensures
            mesh_wf(*final(self)),
            final(self).material == old(self).material,
            ok <==> forall|k: int|
                0 <= k < old(self).triangles.len() ==> affine_tri_ok(
                    #[trigger] old(self).triangles[k],
                    factor,
                    (Vec3 { x: 0i64, y: 0i64, z: 0i64 }),
                ),
            ok ==> affine_triangles(
                final(self).triangles@,
                old(self).triangles@,
                factor,
                (Vec3 { x: 0i64, y: 0i64, z: 0i64 }),
            ),
            !ok ==> *final(self) == *old(self),
    {
        self.transform(factor, Vec3 { x: 0, y: 0, z: 0 })
    }

    /// Rotate every vertex about the vertical axis, given the fixed-point
    /// cosine and sine of the angle, and rebuild the tree. When any rotated
    /// vertex would leave the scene bounds, the mesh is left untouched.
    pub fn rotate_y(&mut self, cos: i64, sin: i64) -> (ok: bool)
        requires
            mesh_wf(*old(self)),
            -SCALE <= cos <= SCALE,
            -SCALE <= sin <= SCALE,
        ensures
            mesh_wf(*final(self)),
            final(self).material == old(self).material,
            ok <==> forall|k: int|
                0 <= k < old(self).triangles.len() ==> rotate_tri_ok(
                    #[trigger] old(self).triangles[k],
                    cos as int,
                    sin as int,
                ),
            ok ==> rotated_triangles(
                final(self).triangles@,
                old(self).triangles@,
                cos as int,
                sin as int,
            ),
            !ok ==> *final(self) == *old(self),
    {
        let n: usize = self.triangles.len();
        let mut moved: Vec<Triangle> = Vec::new();
        let mut k: usize = 0;
        while k < n
            invariant
                k <= n == self.triangles.len(),
                *self == *old(self),
                mesh_wf(*self),
                -SCALE <= cos <= SCALE,
                -SCALE <= sin <= SCALE,
                moved.len() == k,
                forall|j: int| 0 <= j < k ==> rotate_tri_ok(#[trigger] self.triangles[j], cos as int, sin as int),
                forall|j: int|
                    0 <= j < k ==> {
                        &&& crate::vec3::vtup((#[trigger] moved[j]).p1)
                            == rotate_point(self.triangles[j].p1, cos as int, sin as int)
                        &&& crate::vec3::vtup(moved[j].p2)
                            == rotate_point(self.triangles[j].p2, cos as int, sin as int)
                        &&& crate::vec3::vtup(moved[j].p3)
                            == rotate_point(self.triangles[j].p3, cos as int, sin as int)
                        &&& tri_wf(moved[j])
                    },
            decreases n - k,
        {
            let tri: &Triangle = &self.triangles[k];
            let p1: Option<Vec3> = rotate_y_apply(tri.p1, cos, sin);
            let p2: Option<Vec3> = rotate_y_apply(tri.p2, cos, sin);
            let p3: Option<Vec3> = rotate_y_apply(tri.p3, cos, sin);
            match (p1, p2, p3) {
                (Some(q1), Some(q2), Some(q3)) => {
                    moved.push(Triangle::new(q1, q2, q3));
                },
                _ => {
                    return false;
                },
            }
            k = k + 1;
        }
        self.triangles = moved;
        self.build_bvh();
        true
    }
}

/// Scaling then translating is the same triangle set as the one combined
/// affine update: the identity factor of the intermediate translation step
/// drops out exactly.
pub proof fn lemma_scale_then_translate_is_transform(
    base: Seq<Triangle>,
    scaled: Seq<Triangle>,
    shifted: Seq<Triangle>,
    combined: Seq<Triangle>,
    factor: Vec3,
    offset: Vec3,
)
    requires
        affine_triangles(scaled, base, factor, (Vec3 { x: 0i64, y: 0i64, z: 0i64 })),
        affine_triangles(
            shifted,
            scaled,
            (Vec3 { x: SCALE, y: SCALE, z: SCALE }),
            offset,
        ),
        affine_triangles(combined, base, factor, offset),
    ensures
        shifted.len() == combined.len(),
        forall|k: int|
            0 <= k < shifted.len() ==> {
                &&& crate::vec3::vtup((#[trigger] shifted[k]).p1) == crate::vec3::vtup(
                    combined[k].p1,
                )
                &&& crate::vec3::vtup(shifted[k].p2) == crate::vec3::vtup(combined[k].p2)
                &&& crate::vec3::vtup(shifted[k].p3) == crate::vec3::vtup(combined[k].p3)
            },
{
    assert forall|k: int| 0 <= k < shifted.len() implies {
        &&& crate::vec3::vtup((#[trigger] shifted[k]).p1) == crate::vec3::vtup(combined[k].p1)
        &&& crate::vec3::vtup(shifted[k].p2) == crate::vec3::vtup(combined[k].p2)
        &&& crate::vec3::vtup(shifted[k].p3) == crate::vec3::vtup(combined[k].p3)
    } by {
        lemma_identity_scale(scaled[k].p1);
        lemma_identity_scale(scaled[k].p2);
        lemma_identity_scale(scaled[k].p3);
    };
}

/// Scaling by the unit factor is exact on every coordinate.
proof fn lemma_identity_scale(p: Vec3)
    ensures
        crate::fx::fxm(p.x as int, SCALE as int) == p.x,
        crate::fx::fxm(p.y as int, SCALE as int) == p.y,
        crate::fx::fxm(p.z as int, SCALE as int) == p.z,
{
    assert(p.x as int * (SCALE as int) == (SCALE as int) * (p.x as int)) by (nonlinear_arith);
    assert(p.y as int * (SCALE as int) == (SCALE as int) * (p.y as int)) by (nonlinear_arith);
    assert(p.z as int * (SCALE as int) == (SCALE as int) * (p.z as int)) by (nonlinear_arith);
    vstd::arithmetic::div_mod::lemma_div_multiples_vanish(p.x as int, SCALE as int);
    vstd::arithmetic::div_mod::lemma_div_multiples_vanish(p.y as int, SCALE as int);
    vstd::arithmetic::div_mod::lemma_div_multiples_vanish(p.z as int, SCALE as int);
}

/// Every coordinate of the affine image stays inside the scene bounds.
pub open spec fn affine_point_ok(p: Vec3, factor: Vec3, offset: Vec3) -> bool {
    let q = affine_point(p, factor, offset);
    &&& -CB <= q.0 <= CB
    &&& -CB <= q.1 <= CB
    &&& -CB <= q.2 <= CB
}

/// Every vertex of the triangle maps inside the scene bounds.
pub open spec fn affine_tri_ok(t: Triangle, factor: Vec3, offset: Vec3) -> bool {
    &&& affine_point_ok(t.p1, factor, offset)
    &&& affine_point_ok(t.p2, factor, offset)
    &&& affine_point_ok(t.p3, factor, offset)
}

/// One vertex of an affine update, or none exactly when it leaves the
/// scene bounds.
fn affine_apply(p: Vec3, factor: Vec3, offset: Vec3) -> (r: Option<Vec3>)
    requires
        bounded(p, CB as int),
        bounded(factor, 0x10_0000),
        bounded(offset, CB as int),
    ensures
        r is Some <==> affine_point_ok(p, factor, offset),
        r matches Some(q) ==> {
            &&& crate::vec3::vtup(q) == affine_point(p, factor, offset)
            &&& bounded(q, CB as int)
        },
{
    let x: i64 = affine_component(p.x, factor.x, offset.x);
    let y: i64 = affine_component(p.y, factor.y, offset.y);
    let z: i64 = affine_component(p.z, factor.z, offset.z);
    if -CB <= x && x <= CB && -CB <= y && y <= CB && -CB <= z && z <= CB {
        Some(Vec3 { x, y, z })
    } else {
        None
    }
}

/// `p * f / SCALE + o` for one coordinate.
fn affine_component(p: i64, f: i64, o: i64) -> (r: i64)
    requires
        -CB <= p <= CB,
        -0x10_0000 <= f <= 0x10_0000,
        -CB <= o <= CB,
    ensures
        r == crate::fx::fxm(p as int, f as int) + o,
{
    proof {
        assert(-(0x10_0000 * CB as int) <= p as int * f as int <= 0x10_0000 * CB as int)
            by (nonlinear_arith)
            requires
                -CB <= p as int <= CB,
                -0x10_0000 <= f as int <= 0x10_0000;
        crate::fx::lemma_div_mag(p as int * f as int, SCALE as int);
    }
    let q: i128 = div_floor((p as i128) * (f as i128), SCALE as i128);
    (q as i64) + o
}

/// One vertex of a rotation about the vertical axis, or none exactly when
/// it leaves the scene bounds.
fn rotate_y_apply(p: Vec3, cos: i64, sin: i64) -> (r: Option<Vec3>)
    requires
        bounded(p, CB as int),
        -SCALE <= cos <= SCALE,
        -SCALE <= sin <= SCALE,
    ensures
        r is Some <==> rotate_point_ok(p, cos as int, sin as int),
        r matches Some(q) ==> {
            &&& crate::vec3::vtup(q) == rotate_point(p, cos as int, sin as int)
            &&& bounded(q, CB as int)
        },
{
    proof {
        lemma_rotate_products(p.x as int, p.z as int, cos as int, sin as int);
    }
    let xs: i128 = (p.x as i128) * (cos as i128) + (p.z as i128) * (sin as i128);
    let zs: i128 = (p.z as i128) * (cos as i128) - (p.x as i128) * (sin as i128);
    let x: i64 = div_floor(xs, SCALE as i128) as i64;
    let z: i64 = div_floor(zs, SCALE as i128) as i64;
    proof {
        crate::fx::lemma_div_mag(xs as int, SCALE as int);
        crate::fx::lemma_div_mag(zs as int, SCALE as int);
    }
    if -CB <= x && x <= CB && -CB <= z && z <= CB {
        Some(Vec3 { x, y: p.y, z })
    } else {
        None
    }
}

proof fn lemma_rotate_products(px: int, pz: int, cos: int, sin: int)
    by (nonlinear_arith)
    requires
        -CB <= px <= CB,
        -CB <= pz <= CB,
        -SCALE <= cos <= SCALE,
        -SCALE <= sin <= SCALE,
    ensures
        -(CB as int * SCALE as int) <= px * cos <= CB as int * SCALE as int,
        -(CB as int * SCALE as int) <= pz * sin <= CB as int * SCALE as int,
        -(CB as int * SCALE as int) <= pz * cos <= CB as int * SCALE as int,
        -(CB as int * SCALE as int) <= px * sin <= CB as int * SCALE as int,
{
}

/// The centroid of a triangle's vertices, rounded toward minus infinity.
fn centroid(t: &Triangle) -> (c: Vec3)
    requires
        tri_wf(*t),
    ensures
        bounded(c, CB as int),
{
    let x: i64 = avg3(t.p1.x, t.p2.x, t.p3.x);
    let y: i64 = avg3(t.p1.y, t.p2.y, t.p3.y);
    let z: i64 = avg3(t.p1.z, t.p2.z, t.p3.z);
    Vec3 { x, y, z }
}

/// The rounded-down mean of three bounded scalars.
fn avg3(a: i64, b: i64, c: i64) -> (r: i64)
    requires
        -CB <= a <= CB,
        -CB <= b <= CB,
        -CB <= c <= CB,
    ensures
        r == (a + b + c) / 3,
        -CB <= r <= CB,
{
    let q: i128 = div_floor((a as i128) + (b as i128) + (c as i128), 3);
    proof {
        crate::fx::lemma_div_mag(a as int + b as int + c as int, 3);
        vstd::arithmetic::div_mod::lemma_div_is_ordered(
            a as int + b as int + c as int,
            3 * (CB as int),
            3,
        );
        vstd::arithmetic::div_mod::lemma_div_is_ordered(
            -3 * (CB as int),
            a as int + b as int + c as int,
            3,
        );
        assert(3 * (CB as int) / 3 == CB as int) by (nonlinear_arith);
        assert(-3 * (CB as int) / 3 == -(CB as int)) by (nonlinear_arith);
    }
    q as i64
}

/// Component-wise minimum.
fn min3(a: Vec3, b: Vec3) -> (r: Vec3)
    ensures
        r.x == if a.x < b.x { a.x } else { b.x },
        r.y == if a.y < b.y { a.y } else { b.y },
        r.z == if a.z < b.z { a.z } else { b.z },
{
    Vec3 {
        x: if a.x < b.x { a.x } else { b.x },
        y: if a.y < b.y { a.y } else { b.y },
        z: if a.z < b.z { a.z } else { b.z },
    }
}

/// Component-wise maximum.
fn max3(a: Vec3, b: Vec3) -> (r: Vec3)
    ensures
        r.x == if a.x > b.x { a.x } else { b.x },
        r.y == if a.y > b.y { a.y } else { b.y },
        r.z == if a.z > b.z { a.z } else { b.z },
{
    Vec3 {
        x: if a.x > b.x { a.x } else { b.x },
        y: if a.y > b.y { a.y } else { b.y },
        z: if a.z > b.z { a.z } else { b.z },
    }
}

/// One component of a vector, selected by axis index.
fn axis_of(v: &Vec3, axis: usize) -> (r: i64)
    requires
        axis < 3,
    ensures
        axis == 0 ==> r == v.x,
        axis == 1 ==> r == v.y,
        axis == 2 ==> r == v.z,
{
    if axis == 0 {
        v.x
    } else if axis == 1 {
        v.y
    } else {
        v.z
    }
}

/// The `cand`-th of the eight evenly spaced candidate positions inside the
/// box on the axis.
fn candidate_pos(aabb: &AABB, axis: usize, cand: u32) -> (r: i64)
    requires
        axis < 3,
        1 <= cand <= 8,
        bounded(aabb.min, 0x1000_0000),
        bounded(aabb.max, 0x1000_0000),
    ensures
        r == split_candidate(*aabb, axis as int, cand as int),
        -0x2000_0000 <= r <= 0x4000_0000,
{
    let lo: i64 = if axis == 0 {
        aabb.min.x
    } else if axis == 1 {
        aabb.min.y
    } else {
        aabb.min.z
    };
    let hi: i64 = if axis == 0 {
        aabb.max.x
    } else if axis == 1 {
        aabb.max.y
    } else {
        aabb.max.z
    };
    let extent: i64 = if hi >= lo {
        hi - lo
    } else {
        0
    };
    let fraction: i64 = ((extent as u64) / 10) as i64;
    proof {
        crate::fx::lemma_div_mag(extent as int, 10);
        assert(0 <= (cand as int) * (fraction as int) <= 8 * (fraction as int))
            by (nonlinear_arith)
            requires
                1 <= cand as int <= 8,
                0 <= fraction as int;
        assert(8 * (fraction as int) <= 8 * 0x4000_0000) by (nonlinear_arith)
            requires
                0 <= fraction as int <= 0x4000_0000;
    }
    lo + (cand as i64) * fraction
}

/// A side's cost term stays inside 128 bits.
proof fn lemma_cost_bound(count: int, area: int)
    by (nonlinear_arith)
    requires
        0 <= count <= 0x10_0000,
        -0x20_0000_0000_0000_0000 <= area <= 0x20_0000_0000_0000_0000,
    ensures
        -0x2000_0000_0000_0000_0000_0000 <= count * area <= 0x2000_0000_0000_0000_0000_0000,
{
}

/// The rounded ray point at parameter `t` lies inside the box.
pub open spec fn point_in_box(aabb: AABB, r: Ray, t: int) -> bool {
    let p = ray_at(r, t);
    &&& aabb.min.x <= p.0 <= aabb.max.x
    &&& aabb.min.y <= p.1 <= aabb.max.y
    &&& aabb.min.z <= p.2 <= aabb.max.z
}

/// A conservative slab test: the distance at which the ray first meets the
/// box, or none when the feasible span misses `[t0, closest]`. Rejection is
/// sound: a rejected box holds no ray point for any parameter in the
/// interval. The distance of an accepted box is only an ordering heuristic;
/// hits are checked per triangle.
fn ray_box_distance(aabb: &AABB, ray: &Ray, t0: i64, closest: i64) -> (r: Option<i64>)
    requires
        ray_wf(*ray),
        bounded(aabb.min, 0x1000_0000),
        bounded(aabb.max, 0x1000_0000),
        0 <= t0 <= closest <= T_MAX,
    ensures
        r is None ==> forall|t: int|
            t0 <= t <= closest ==> !point_in_box(*aabb, *ray, t),
{
    let mut lo_num: i128 = t0 as i128;
    let mut lo_den: i128 = 1;
    let mut hi_num: i128 = closest as i128;
    let mut hi_den: i128 = 1;
    let mut axis: usize = 0;
    let mut feasible: bool = true;
    while axis < 3
        invariant
            ray_wf(*ray),
            bounded(aabb.min, 0x1000_0000),
            bounded(aabb.max, 0x1000_0000),
            0 <= t0 <= closest <= T_MAX,
            axis <= 3,
            1 <= lo_den <= 0x8_0000,
            1 <= hi_den <= 0x8_0000,
            -0x1000_0000_0000_0000 <= lo_num <= 0x1000_0000_0000_0000,
            -0x1000_0000_0000_0000 <= hi_num <= 0x1000_0000_0000_0000,
            !feasible ==> forall|t: int|
                t0 <= t <= closest ==> !point_in_box(*aabb, *ray, t),
            forall|t: int|
                t0 <= t <= closest && point_in_box(*aabb, *ray, t) ==> lo_num <= t * lo_den
                    && t * hi_den <= hi_num,
        decreases 3 - axis,
    {
        let o: i64 = if axis == 0 {
            ray.origin.x
        } else if axis == 1 {
            ray.origin.y
        } else {
            ray.origin.z
        };
        let d: i64 = if axis == 0 {
            ray.direction.x
        } else if axis == 1 {
            ray.direction.y
        } else {
            ray.direction.z
        };
        let bmin: i64 = if axis == 0 {
            aabb.min.x
        } else if axis == 1 {
            aabb.min.y
        } else {
            aabb.min.z
        };
        let bmax: i64 = if axis == 0 {
            aabb.max.x
        } else if axis == 1 {
            aabb.max.y
        } else {
            aabb.max.z
        };
        if d == 0 {
            if o < bmin || o > bmax {
                proof {
                    assert forall|t: int|
                        t0 <= t <= closest implies !point_in_box(*aabb, *ray, t) by {
                        vstd::arithmetic::mul::lemma_mul_by_zero_is_zero(t);
                        vstd::arithmetic::div_mod::lemma_div_basics(SCALE as int);
                    };
                }
                feasible = false;
            }
        } else {
            // for a ray point inside the box at parameter t, the axis
            // constrains SCALE * (bmin - o) <= t * d < SCALE * (bmax + 1 - o)
            let a: i128 = (SCALE as i128) * ((bmin as i128) - (o as i128));
            let b: i128 = (SCALE as i128) * ((bmax as i128) + 1 - (o as i128));
            // dividing the constraint by a negative step flips and negates
            // both ends
            let (nlo, nhi): (i128, i128) = if d > 0 {
                (a, b)
            } else {
                (-b, -a)
            };
            let dd: i128 = if d > 0 {
                d as i128
            } else {
                (-d) as i128
            };
            proof {
                lemma_slab_products(
                    lo_num as int, lo_den as int, hi_num as int, hi_den as int,
                    nlo as int, nhi as int, dd as int,
                );
                assert forall|t: int|
                    t0 <= t <= closest && point_in_box(*aabb, *ray, t) implies nlo as int <= t
                        * (dd as int) && t * (dd as int) <= nhi as int by {
                    lemma_axis_constraint(o as int, d as int, bmin as int, bmax as int, t);
                };
            }
            if nlo * lo_den > lo_num * dd {
                lo_num = nlo;
                lo_den = dd;
            }
            if nhi * hi_den < hi_num * dd {
                hi_num = nhi;
                hi_den = dd;
            }
        }
        axis = axis + 1;
    }
    proof {
        lemma_slab_products(
            lo_num as int, lo_den as int, hi_num as int, hi_den as int, 0, 0, 1,
        );
    }
    if !feasible || lo_num * hi_den > hi_num * lo_den {
        proof {
            if feasible {
                assert forall|t: int|
                    t0 <= t <= closest implies !point_in_box(*aabb, *ray, t) by {
                    if point_in_box(*aabb, *ray, t) {
                        lemma_cross_mul_ordered(
                            t,
                            lo_num as int,
                            lo_den as int,
                            hi_num as int,
                            hi_den as int,
                        );
                    }
                };
            }
        }
        None
    } else {
        let t: i128 = div_floor(lo_num, lo_den);
        proof {
            crate::fx::lemma_div_mag(lo_num as int, lo_den as int);
        }
        if t < 0 {
            Some(0)
        } else if t > T_MAX as i128 {
            Some(T_MAX)
        } else {
            Some(t as i64)
        }
    }
}

/// A ray point inside the box on one axis bounds `t` times the step between
/// the scaled face offsets (with one rounding step of slack above).
proof fn lemma_axis_constraint(o: int, d: int, bmin: int, bmax: int, t: int)
    requires
        d != 0,
        bmin <= o + d * t / (SCALE as int) <= bmax,
    ensures
        d > 0 ==> (SCALE as int) * (bmin - o) <= t * d && t * d <= (SCALE as int) * (bmax + 1
            - o),
        d < 0 ==> -((SCALE as int) * (bmax + 1 - o)) <= t * (-d) && t * (-d) <= -((
        SCALE as int) * (bmin - o)),
{
    vstd::arithmetic::div_mod::lemma_fundamental_div_mod(d * t, SCALE as int);
    vstd::arithmetic::div_mod::lemma_mod_bound(d * t, SCALE as int);
    let q = d * t / (SCALE as int);
    let rr = d * t % (SCALE as int);
    assert(d * t == (SCALE as int) * q + rr);
    assert((SCALE as int) * (bmin - o) <= d * t) by (nonlinear_arith)
        requires
            d * t == (SCALE as int) * q + rr,
            0 <= rr,
            bmin - o <= q;
    assert(d * t <= (SCALE as int) * (bmax + 1 - o)) by (nonlinear_arith)
        requires
            d * t == (SCALE as int) * q + rr,
            rr < SCALE as int,
            q <= bmax - o;
    assert(t * d == d * t) by (nonlinear_arith);
    assert(t * (-d) == -(d * t)) by (nonlinear_arith);
}

/// A value bounded below and above by two positive-denominator fractions
/// keeps the cross-multiplied bounds ordered.
proof fn lemma_cross_mul_ordered(t: int, ln: int, ld: int, hn: int, hd: int)
    by (nonlinear_arith)
    requires
        ld >= 1,
        hd >= 1,
        ln <= t * ld,
        t * hd <= hn,
    ensures
        ln * hd <= hn * ld,
{
}

/// When every slot is settled at `c`, every triangle's hit over the full
/// interval is at least `c` (the index array names every triangle).
proof fn lemma_settled_gives_fold(
    tris: Seq<Triangle>,
    idx: Seq<usize>,
    r: Ray,
    t0: int,
    t1: int,
    c: int,
)
    requires
        idx.len() == tris.len(),
        forall|v: int| 0 <= v < tris.len() ==> #[trigger] idx_covers(idx, v),
        forall|s: int|
            0 <= s < tris.len() ==> #[trigger] slot_settled(tris, idx, r, t0, t1, c, s),
    ensures
        forall|k: int|
            0 <= k < tris.len() ==> match tri_hit(#[trigger] tris[k], r, t0, t1) {
                Some(ts) => ts >= c,
                None => true,
            },
{
    assert forall|k: int|
        0 <= k < tris.len() implies match tri_hit(#[trigger] tris[k], r, t0, t1) {
        Some(ts) => ts >= c,
        None => true,
    } by {
        assert(idx_covers(idx, k));
        let s = choose|s: int| 0 <= s < idx.len() && #[trigger] idx[s] as int == k;
        assert(slot_settled(tris, idx, r, t0, t1, c, s));
    };
}

/// A settled slot stays settled when the closest bound shrinks.
proof fn lemma_settled_monotone(
    tris: Seq<Triangle>,
    idx: Seq<usize>,
    r: Ray,
    t0: int,
    t1: int,
    c_old: int,
    c_new: int,
)
    requires
        c_new <= c_old,
    ensures
        forall|s: int|
            slot_settled(tris, idx, r, t0, t1, c_old, s) ==> #[trigger] slot_settled(
                tris,
                idx,
                r,
                t0,
                t1,
                c_new,
                s,
            ),
{
}

/// The slot is covered by some node on the stack.
pub open spec fn slot_on_stack(stack: Seq<usize>, nodes: Seq<BVHNode>, s: int) -> bool {
    exists|p: int| 0 <= p < stack.len() && in_node_range(nodes[#[trigger] stack[p] as int], s)
}

/// The node index sits somewhere on the stack.
pub open spec fn stack_has(stack: Seq<usize>, n: int) -> bool {
    exists|p: int| 0 <= p < stack.len() && #[trigger] stack[p] as int == n
}

/// The triangle in the slot has no hit below `c` over the query interval.
pub open spec fn slot_settled(
    tris: Seq<Triangle>,
    idx: Seq<usize>,
    r: Ray,
    t0: int,
    t1: int,
    c: int,
    s: int,
) -> bool {
    match tri_hit(tris[idx[s] as int], r, t0, t1) {
        Some(ts) => ts >= c,
        None => true,
    }
}

/// A rejected box settles every slot of its node: a hit below `closest`
/// would put its rounded hit point inside the triangle's padded vertex
/// box, which the node's box bounds, contradicting the rejection.
proof fn lemma_rejection_settles(
    nodes: Seq<BVHNode>,
    idx: Seq<usize>,
    tris: Seq<Triangle>,
    r: Ray,
    t0: int,
    t1: int,
    closest: int,
    child: int,
)
    requires
        0 <= child < nodes.len(),
        node_contains(nodes, idx, tris, child),
        0 <= t0 <= closest <= t1,
        forall|t: int| t0 <= t <= closest ==> !point_in_box(nodes[child].aabb, r, t),
        forall|s: int| in_node_range(nodes[child], s) ==> (#[trigger] idx[s]) < tris.len(),
    ensures
        forall|s: int|
            in_node_range(nodes[child], s) && 0 <= s < idx.len() ==> #[trigger] slot_settled(
                tris,
                idx,
                r,
                t0,
                t1,
                closest,
                s,
            ),
{
    assert forall|s: int|
        in_node_range(nodes[child], s) && 0 <= s < idx.len() implies #[trigger] slot_settled(
        tris,
        idx,
        r,
        t0,
        t1,
        closest,
        s,
    ) by {
        let tri = tris[idx[s] as int];
        match tri_hit(tri, r, t0, t1) {
            Some(ts) => {
                if ts < closest {
                    assert(tri_box_contains(tri, ray_at(r, ts)));
                    assert(box_contains_tri(nodes[child].aabb, tri));
                    assert(point_in_box(nodes[child].aabb, r, ts));
                    assert(!point_in_box(nodes[child].aabb, r, ts));
                }
            },
            None => {
            },
        }
    };
}

/// All slab comparison products stay inside 128 bits.
proof fn lemma_slab_products(
    lo_num: int, lo_den: int, hi_num: int, hi_den: int, nlo: int, nhi: int, dd: int,
)
    by (nonlinear_arith)
    requires
        1 <= lo_den <= 0x8_0000,
        1 <= hi_den <= 0x8_0000,
        -0x1000_0000_0000_0000 <= lo_num <= 0x1000_0000_0000_0000,
        -0x1000_0000_0000_0000 <= hi_num <= 0x1000_0000_0000_0000,
        -0x1000_0000_0000_0000 <= nlo <= 0x1000_0000_0000_0000,
        -0x1000_0000_0000_0000 <= nhi <= 0x1000_0000_0000_0000,
        1 <= dd <= 0x8_0000,
    ensures
        -0x80_0000_0000_0000_0000_0000 <= nlo * lo_den <= 0x80_0000_0000_0000_0000_0000,
        -0x80_0000_0000_0000_0000_0000 <= lo_num * dd <= 0x80_0000_0000_0000_0000_0000,
        -0x80_0000_0000_0000_0000_0000 <= nhi * hi_den <= 0x80_0000_0000_0000_0000_0000,
        -0x80_0000_0000_0000_0000_0000 <= hi_num * dd <= 0x80_0000_0000_0000_0000_0000,
        -0x80_0000_0000_0000_0000_0000 <= lo_num * hi_den <= 0x80_0000_0000_0000_0000_0000,
        -0x80_0000_0000_0000_0000_0000 <= hi_num * lo_den <= 0x80_0000_0000_0000_0000_0000,
{
}

/// Rewriting one node's box (bounded, with range and child intact) keeps
/// the tree structurally sound.
proof fn lemma_wf_box_update(
    pre: Seq<BVHNode>,
    post: Seq<BVHNode>,
    used: int,
    ntris: int,
    i: int,
)
    requires
        bvh_wf(pre, used, ntris),
        post.len() == pre.len(),
        0 <= i < post.len(),
        forall|j: int| 0 <= j < pre.len() && j != i ==> post[j] == pre[j],
        post[i].first == pre[i].first,
        post[i].count == pre[i].count,
        post[i].child == pre[i].child,
        bounded(post[i].aabb.min, 0x1000_0000),
        bounded(post[i].aabb.max, 0x1000_0000),
    ensures
        bvh_wf(post, used, ntris),
{
    assert forall|k: int| 0 <= k < used implies #[trigger] node_ok(post, used, ntris, k) by {
        assert(node_ok(pre, used, ntris, k));
        if post[k].child != 0 {
            let c = pre[k].child as int;
            assert(post[c].first == pre[c].first && post[c].count == pre[c].count) by {
                if c != i {
                    assert(post[c] == pre[c]);
                }
            };
            assert(post[c + 1].first == pre[c + 1].first
                && post[c + 1].count == pre[c + 1].count) by {
                if c + 1 != i {
                    assert(post[c + 1] == pre[c + 1]);
                }
            };
        }
    };
}

/// After allocating two fresh leaves and pointing the parent at them, every
/// node of the grown prefix is structurally sound.
proof fn lemma_wf_after_split(
    pre: Seq<BVHNode>,
    post: Seq<BVHNode>,
    pre_used: int,
    ntris: int,
    parent: int,
    left: int,
)
    requires
        bvh_wf(pre, pre_used, ntris),
        post.len() == pre.len(),
        0 <= parent < pre_used,
        left == pre_used,
        pre_used + 2 <= post.len(),
        pre[parent].child == 0,
        // the parent now points at the two fresh leaves, its range and box
        // intact
        post[parent].first == pre[parent].first,
        post[parent].count == pre[parent].count,
        post[parent].child == left,
        post[parent].aabb == pre[parent].aabb,
        bounded(post[left as int].aabb.min, 0x1000_0000),
        bounded(post[left as int].aabb.max, 0x1000_0000),
        bounded(post[left + 1].aabb.min, 0x1000_0000),
        bounded(post[left + 1].aabb.max, 0x1000_0000),
        // the fresh leaves partition the parent's range
        post[left].first == pre[parent].first,
        post[left].child == 0,
        post[left + 1].child == 0,
        post[left].count + post[left + 1].count == pre[parent].count,
        post[left + 1].first == pre[parent].first + post[left].count,
        post[left].count >= 1,
        post[left + 1].count >= 1,
        pre[parent].first + pre[parent].count <= ntris,
        // all other nodes are untouched
        forall|j: int| 0 <= j < pre_used && j != parent ==> post[j] == pre[j],
    ensures
        bvh_wf(post, pre_used + 2, ntris),
{
    assert forall|i: int| 0 <= i < pre_used + 2 implies #[trigger] node_ok(
        post,
        pre_used + 2,
        ntris,
        i,
    ) by {
        if i < pre_used {
            assert(node_ok(pre, pre_used, ntris, i));
            if i != parent {
                assert(post[i] == pre[i]);
                if post[i].child != 0 {
                    let c = pre[i].child as int;
                    assert(post[c].first == pre[c].first && post[c].count == pre[c].count) by {
                        if c != parent {
                            assert(post[c] == pre[c]);
                        }
                    };
                    assert(post[c + 1].first == pre[c + 1].first
                        && post[c + 1].count == pre[c + 1].count) by {
                        if c + 1 != parent {
                            assert(post[c + 1] == pre[c + 1]);
                        }
                    };
                }
            }
        }
    };
}

} // verus!
