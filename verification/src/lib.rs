use vstd::prelude::*;

pub mod aabb;
pub mod coord;
pub mod dfs;
pub mod group;
pub mod hilbert;
pub mod node;
pub mod print;
pub mod laws;
pub mod query;
pub mod shared_bytes;
pub mod sort;
pub mod tree;
pub mod utils;

verus! {

pub use crate::aabb::Aabb;
pub use crate::coord::Vec2;

/// Index of the root node in the flat node array.
pub const ROOT_IDX: u32 = 1;

/// A record that carries a 2-D location.
pub trait Point {
    /// The location of the record, as seen by specifications.
    spec fn spec_point(&self) -> Vec2;

    /// The location of the record.
    fn point(&self) -> (p: Vec2)
        ensures
            p == self.spec_point(),
    ;
}

impl Point for Vec2 {
    open spec fn spec_point(&self) -> Vec2 {
        *self
    }

    fn point(&self) -> (p: Vec2)
    {
        *self
    }
}

/// A record that carries a payload of plain units.
pub trait Data {
    type Unit;

    /// The payload of the record, as seen by specifications.
    spec fn spec_data(&self) -> Seq<Self::Unit>;

    /// The payload of the record.
    fn data(&self) -> (d: &[Self::Unit])
        ensures
            d@ == self.spec_data(),
    ;
}

/// A record that carries both a location and a payload.
pub trait PointWithData: Point + Data {

}

impl<T: Point + Data> PointWithData for T {

}

/// Re-biases a signed 16-bit coordinate into the unsigned 16-bit range by
/// shifting the whole domain up by 32768, preserving order.
#[must_use]
pub fn add_half_max_and_convert(x: i16) -> (r: u16)
    ensures
        r == x + 0x8000,
{
    let naive_result = x as i32 - i16::MIN as i32;
    naive_result as u16
}

/// Index of the left child in the 1-indexed implicit binary tree.
#[must_use]
pub fn child_left(idx: u32) -> (r: u32)
    requires
        2 * idx <= u32::MAX,
    ensures
        r == 2 * idx,
{
    idx * 2
}

/// Index of the right child in the 1-indexed implicit binary tree.
#[must_use]
pub fn child_right(idx: u32) -> (r: u32)
    requires
        2 * idx + 1 <= u32::MAX,
    ensures
        r == 2 * idx + 1,
{
    idx * 2 + 1
}

/// Index of the parent node, or `None` at the root (and at index 0, which is
/// outside the tree).
#[must_use]
pub fn parent(idx: u32) -> (r: Option<u32>)
    ensures
        r == (if idx / 2 == 0 {
            Option::<u32>::None
        } else {
            Option::<u32>::Some(idx / 2)
        }),
{
    let half = idx / 2;
    if half == 0 {
        None
    } else {
        Some(half)
    }
}

/// Whether `n` is a power of two.
pub open spec fn spec_is_pow2(n: int) -> bool
    decreases n,
{
    if n < 1 {
        false
    } else if n == 1 {
        true
    } else if n % 2 == 1 {
        false
    } else {
        spec_is_pow2(n / 2)
    }
}

proof fn lemma_pow2_30()
    ensures
        spec_is_pow2(0x4000_0000),
{
    reveal_with_fuel(spec_is_pow2, 32);
}

/// Index of the sibling immediately to the right of `idx`, or `None` when
/// `idx` is the last node of its row (that is, when `idx + 1` is a power of
/// two).
#[must_use]
pub fn sibling_right(idx: u32) -> (r: Option<u32>)
    requires
        idx < u32::MAX,
    ensures
        r == (if spec_is_pow2(idx + 1) {
            Option::<u32>::None
        } else {
            Option::<u32>::Some((idx + 1) as u32)
        }),
{
    let tentative_next = idx + 1;

    if is_pow2_u32(tentative_next) {
        // there is nothing to the right of this row
        None
    } else {
        Some(tentative_next)
    }
}

/// A record tagged with its Hilbert sort key.
pub open spec fn keyed<I: Point>(s: Seq<I>) -> Seq<(u32, I)> {
    s.map_values(|r: I| (crate::hilbert::spec_point_key(r.spec_point()), r))
}

/// The records in the order the build processes them: sorted by Hilbert
/// key, records with equal keys kept in input order.
pub open spec fn spec_sorted_records<I: Point>(s: Seq<I>) -> Seq<I> {
    crate::sort::records_of(crate::sort::sort_by_key(keyed(s)))
}

/// The leaf points of an index built from `s`.
pub open spec fn built_points<I: Point + Data>(s: Seq<I>) -> Seq<Vec2> {
    crate::group::group_points(spec_sorted_records(s))
}

/// The payload buffer of an index built from `s`.
pub open spec fn built_data<I: Point + Data>(s: Seq<I>) -> Seq<I::Unit> {
    crate::group::concat_data(spec_sorted_records(s))
}

/// The leaf boundary table of an index built from `s`: one start per leaf
/// and the total payload length as the closing sentinel entry.
pub open spec fn built_table<I: Point + Data>(s: Seq<I>) -> Seq<u32> {
    if s.len() == 0 {
        Seq::empty()
    } else {
        crate::group::group_starts(spec_sorted_records(s)).push(built_data(s).len() as u32)
    }
}

/// The node array of an index built from `s`.
pub open spec fn built_nodes<I: Point + Data>(s: Seq<I>) -> Seq<crate::node::Node> {
    if s.len() == 0 {
        Seq::empty()
    } else {
        crate::tree::spec_nodes(built_points(s))
    }
}

/// The leaf points as stored in the leaf row of a node array.
pub open spec fn points_of(nodes: Seq<crate::node::Node>, nl: int) -> Seq<Vec2> {
    Seq::new(nl as nat, |j: int| crate::node::spec_leaf_point(nodes[nodes.len() - nl + j]))
}

/// Well-formedness of an index: either everything is empty, or the node
/// array is exactly the canonical array of its own leaf row's points and
/// the boundary table is an ordered table over the payload buffer with one
/// closing sentinel entry.
pub open spec fn wf_shape(nodes: Seq<crate::node::Node>, table: Seq<u32>, dlen: int) -> bool {
    if table.len() == 0 {
        nodes.len() == 0 && dlen == 0
    } else {
        let nl = table.len() - 1;
        &&& nl >= 1
        &&& nl < crate::node::INVALID_START as int
        &&& dlen <= u32::MAX as int
        &&& table[0] == 0
        &&& table[nl] == dlen
        &&& forall|t1: int, t2: int| 0 <= t1 <= t2 <= nl ==> table[t1] <= table[t2]
        &&& nodes == crate::tree::spec_nodes(points_of(nodes, nl))
    }
}

/// A static bounding-volume hierarchy over 2-D points: a flat node array
/// indexed as an implicit binary tree, a leaf boundary table, and one
/// contiguous payload buffer.
#[derive(Debug)]
pub struct Bvh<L> {
    pub nodes: Vec<crate::node::Node>,
    pub data: L,
    pub leaves: Vec<u32>,
}

impl<L> Bvh<L> {
    /// Number of leaves of the tree.
    pub open spec fn leaf_count(&self) -> int {
        if self.leaves@.len() == 0 {
            0
        } else {
            self.leaves@.len() - 1
        }
    }

    /// The leaf points, in leaf order.
    pub open spec fn leaf_points(&self) -> Seq<Vec2> {
        points_of(self.nodes@, self.leaf_count())
    }

    /// The packed node at `idx`.
    #[must_use]
    pub fn get_node(&self, idx: u32) -> (n: crate::node::Node)
        requires
            (idx as int) < self.nodes@.len(),
        ensures
            n == self.nodes@[idx as int],
    {
        self.nodes[idx as usize]
    }
}

impl<L: crate::query::Len> Bvh<L> {
    /// Structural invariant, established by `build` and preserved forever
    /// after: the index is immutable.
    pub open spec fn wf(&self) -> bool {
        wf_shape(self.nodes@, self.leaves@, self.data.spec_len() as int)
    }
}

impl<T> Default for Bvh<Vec<T>> {
    /// The empty index: no nodes, no leaves, no payload.
    fn default() -> (r: Self)
        ensures
            r.nodes@.len() == 0,
            r.leaves@.len() == 0,
            r.data@.len() == 0,
            r.wf(),
    {
        Self { nodes: Vec::new(), data: Vec::new(), leaves: Vec::new() }
    }
}

impl<T> Bvh<Vec<T>> {
    /// The whole payload buffer.
    pub fn elements(&self) -> (r: &[T])
        ensures
            r@ == self.data@,
    {
        self.data.as_slice()
    }
}

pub(crate) proof fn lemma_records_of_keyed<I: Point>(s: Seq<I>)
    ensures
        crate::sort::records_of(keyed(s)) == s,
{
    assert(crate::sort::records_of(keyed(s)) =~= s);
}

/// Combines the two children of slot `i` into the parent node: the union
/// of two boxes, a box extended by a sibling leaf's point, a box or a
/// leaf promoted past a padding sibling, or padding where the subtree is
/// empty.
#[verifier::loop_isolation(false)]
#[verifier::rlimit(100)]
#[verifier::spinoff_prover]
fn combine_children(
    nodes: &Vec<crate::node::Node>,
    i: usize,
    np2: usize,
    Ghost(pts): Ghost<Seq<Vec2>>,
) -> (n: crate::node::Node)
    requires
        spec_is_pow2(np2 as int),
        np2 <= 0x4000_0000,
        1 <= i < np2,
        nodes@.len() == np2 + pts.len(),
        1 <= pts.len() < crate::node::INVALID_START as int,
        forall|k: int|
            2 * i <= k < nodes@.len() ==> #[trigger] nodes@[k] == crate::tree::spec_node_at(
                pts,
                np2 as int,
                k,
            ),
    ensures
        n == crate::tree::spec_node_at(pts, np2 as int, i as int),
{
    let total = nodes.len();
    let ghost inp2 = np2 as int;
    let ghost nl = pts.len() as int;
    let ghost lo = crate::tree::desc_lo(inp2, i as int);
    let ghost hi = crate::tree::desc_hi(inp2, i as int);
    let ghost hic: int = if hi <= nl {
        hi
    } else {
        nl
    };
    let ghost m = crate::tree::desc_hi(inp2, 2 * i as int);
    proof {
        crate::tree::lemma_desc_bounds(inp2, i as int);
        crate::tree::lemma_desc_bounds(inp2, 2 * i as int);
        crate::tree::lemma_desc_bounds(inp2, 2 * i + 1 as int);
        if 2 * i < total {
            crate::tree::lemma_node_class(pts, inp2, 2 * i as int);
        }
        if 2 * i + 1 < total {
            crate::tree::lemma_node_class(pts, inp2, 2 * i + 1 as int);
        }
    }

    let left_exp: Option<crate::node::NodeExpanded> = if 2 * i < total {
        Some(nodes[2 * i].into_expanded())
    } else {
        None
    };
    let right_exp: Option<crate::node::NodeExpanded> = if 2 * i + 1 < total {
        Some(nodes[2 * i + 1].into_expanded())
    } else {
        None
    };

    proof {
        // a missing child slot lies past the real leaves, so its interval
        // is empty
        if 2 * i >= total {
            assert(crate::tree::desc_lo(inp2, 2 * i as int) >= nl);
        }
        if 2 * i + 1 >= total {
            assert(crate::tree::desc_lo(inp2, 2 * i + 1 as int) >= nl);
        }
    }

    match (left_exp, right_exp) {
        (Some(crate::node::NodeExpanded::Aabb(bl)), Some(crate::node::NodeExpanded::Aabb(br))) => {
            proof {
                assert(lo + 2 <= m <= nl);
                assert(m + 2 <= hic);
                crate::tree::lemma_bbox_merge(pts, lo, m, hic);
                crate::tree::lemma_bbox_wf(pts, lo, hic);
            }
            let out = crate::node::Node::aabb(bl.merge(br));
            proof {
                assert(out == crate::tree::spec_node_at(pts, np2 as int, i as int));
            }
            out
        },
        (Some(crate::node::NodeExpanded::Aabb(bl)), Some(crate::node::NodeExpanded::Leaf(rl))) => {
            if rl.is_valid() {
                proof {
                    assert(lo + 2 <= m <= nl);
                    assert(hic == m + 1);
                    assert(rl.point == pts[m]);
                    crate::tree::lemma_bbox_wf(pts, lo, hic);
                }
                let out = crate::node::Node::aabb(bl.enclose(rl.point));
                proof {
                    assert(out == crate::tree::spec_node_at(pts, np2 as int, i as int));
                }
                out
            } else {
                proof {
                    assert(m >= nl);
                    assert(hic == nl);
                    crate::tree::lemma_bbox_wf(pts, lo, hic);
                }
                crate::node::Node::aabb(bl)
            }
        },
        (Some(crate::node::NodeExpanded::Aabb(bl)), None) => {
            proof {
                assert(m >= nl);
                assert(hic == nl);
                crate::tree::lemma_bbox_wf(pts, lo, hic);
            }
            crate::node::Node::aabb(bl)
        },
        (Some(crate::node::NodeExpanded::Leaf(ll)), Some(crate::node::NodeExpanded::Leaf(rl))) => {
            if ll.is_valid() && rl.is_valid() {
                proof {
                    assert(m == lo + 1);
                    assert(hic == lo + 2);
                    assert(ll.point == pts[lo] && rl.point == pts[lo + 1]);
                }
                crate::node::Node::aabb(Aabb::new(ll.point, ll.point).enclose(rl.point))
            } else if ll.is_valid() {
                proof {
                    assert(hic == lo + 1);
                }
                crate::node::Node::leaf(ll.point, ll.start)
            } else {
                proof {
                    assert(nl <= lo);
                }
                crate::node::Node::leaf(Vec2 { x: 0, y: 0 }, crate::node::INVALID_START)
            }
        },
        (Some(crate::node::NodeExpanded::Leaf(ll)), None) => {
            if ll.is_valid() {
                proof {
                    assert(hic == lo + 1);
                }
                crate::node::Node::leaf(ll.point, ll.start)
            } else {
                proof {
                    assert(nl <= lo);
                }
                crate::node::Node::leaf(Vec2 { x: 0, y: 0 }, crate::node::INVALID_START)
            }
        },
        (Some(crate::node::NodeExpanded::Leaf(ll)), Some(crate::node::NodeExpanded::Aabb(_))) => {
            proof {
                // a leaf or padding on the left beside an internal box on
                // the right cannot happen: the right interval would reach
                // past the clipped left one
                assert(false);
            }
            crate::node::Node::leaf(Vec2 { x: 0, y: 0 }, crate::node::INVALID_START)
        },
        (None, _) => {
            proof {
                assert(nl <= lo);
            }
            crate::node::Node::leaf(Vec2 { x: 0, y: 0 }, crate::node::INVALID_START)
        },
    }
}

impl<T: Copy> Bvh<Vec<T>> {
    /// Builds the index from a batch of point-tagged records: sorts them
    /// along the Hilbert curve, groups consecutive records sharing a point
    /// into leaves, packs the payloads into one contiguous buffer, and
    /// fills the flat node array bottom-up, padding with invalid leaves
    /// where the leaf count is not a power of two.
    ///
    /// The two preconditions are the machine limits of the packed layout:
    /// leaf start indices are 30-bit and buffer offsets 32-bit.
    #[must_use]
    #[verifier::loop_isolation(false)]
    pub fn build<I>(input: Vec<I>) -> (r: Self) where I: PointWithData + Data<Unit = T>
        requires
            input@.len() < crate::node::INVALID_START as int,
            crate::group::sum_data_len(input@) <= u32::MAX as int,
        ensures
            r.data@ == built_data(input@),
            r.leaves@ == built_table(input@),
            r.nodes@ == built_nodes(input@),
            r.wf(),
    {
        let ghost orig = input@;
        if input.is_empty() {
            let r = Bvh { nodes: Vec::new(), data: Vec::new(), leaves: Vec::new() };
            proof {
                assert(keyed(orig) =~= Seq::<(u32, I)>::empty());
                assert(spec_sorted_records(orig) =~= Seq::<I>::empty());
                assert(built_data(orig) =~= Seq::<T>::empty());
            }
            return r;
        }

        // tag each record with its Hilbert key, computed once
        let mut rest = input;
        let mut pairs: Vec<(u32, I)> = Vec::new();
        while rest.len() > 0
            invariant
                orig.len() == pairs@.len() + rest@.len(),
                pairs@ == keyed(orig.take(pairs@.len() as int)),
                rest@ == orig.skip(pairs@.len() as int),
            decreases rest@.len(),
        {
            let ghost n0 = pairs@.len() as int;
            let x = rest.remove(0);
            proof {
                assert(x == orig[n0]);
            }
            let kx = crate::hilbert::point_key(x.point());
            pairs.push((kx, x));
            proof {
                assert(pairs@ =~= keyed(orig.take(n0 + 1)));
                assert(rest@ =~= orig.skip(n0 + 1));
            }
        }
        proof {
            assert(orig.take(orig.len() as int) =~= orig);
        }

        crate::sort::sort_pairs(&mut pairs);
        let ghost sorted_pairs = crate::sort::sort_by_key(keyed(orig));

        // drop the keys
        let mut records: Vec<I> = Vec::new();
        while pairs.len() > 0
            invariant
                sorted_pairs.len() == records@.len() + pairs@.len(),
                records@ == crate::sort::records_of(sorted_pairs.take(records@.len() as int)),
                pairs@ == sorted_pairs.skip(records@.len() as int),
            decreases pairs@.len(),
        {
            let ghost n0 = records@.len() as int;
            let p = pairs.remove(0);
            proof {
                assert(p == sorted_pairs[n0]);
            }
            records.push(p.1);
            proof {
                assert(records@ =~= crate::sort::records_of(sorted_pairs.take(n0 + 1)));
                assert(pairs@ =~= sorted_pairs.skip(n0 + 1));
            }
        }
        let ghost sr = spec_sorted_records(orig);
        proof {
            assert(sorted_pairs.take(sorted_pairs.len() as int) =~= sorted_pairs);
            assert(records@ == sr);
            crate::sort::lemma_sort_by_key_len(keyed(orig));
            crate::sort::lemma_sort_by_key_data_len(keyed(orig));
            lemma_records_of_keyed(orig);
            crate::group::lemma_concat_len_is_sum(sr);
            crate::group::lemma_concat_len_is_sum(orig);
            assert(crate::group::concat_data(sr).len() <= u32::MAX);
            crate::group::lemma_group_lens(sr);
        }

        let (data, mut leaves, points) = process_input(records);
        let nl = points.len();
        proof {
            assert(nl >= 1);
            assert(nl as int <= sr.len() < crate::node::INVALID_START as int);
        }
        leaves.push(data.len() as u32);

        let np2 = crate::tree::next_pow2(nl);
        let total = np2 + nl;
        let ghost pts = points@;
        let ghost inp2 = np2 as int;
        let ghost inl = nl as int;

        let mut nodes: Vec<crate::node::Node> = Vec::new();
        while nodes.len() < total
            invariant
                nodes@.len() <= total,
                forall|k: int|
                    0 <= k < nodes@.len() ==> #[trigger] nodes@[k] == crate::tree::zero_node(),
            decreases total - nodes@.len(),
        {
            nodes.push(crate::node::Node { two: crate::node::Two { left: 0, right: 0 } });
        }

        // the leaf row
        let mut j: usize = 0;
        while j < nl
            invariant
                0 <= j <= nl,
                nodes@.len() == total,
                forall|k: int| 0 <= k < np2 ==> #[trigger] nodes@[k] == crate::tree::zero_node(),
                forall|jj: int|
                    0 <= jj < j ==> #[trigger] nodes@[np2 + jj] == crate::node::spec_leaf_node(
                        pts[jj],
                        jj as u32,
                    ),
                forall|jj: int|
                    j <= jj < nl ==> #[trigger] nodes@[np2 + jj] == crate::tree::zero_node(),
            decreases nl - j,
        {
            let leaf = crate::node::Node::leaf(points[j], j as u32);
            nodes[np2 + j] = leaf;
            j = j + 1;
        }

        proof {
            if np2 > 0x4000_0000 {
                lemma_pow2_30();
                crate::tree::lemma_pow2_lt(0x4000_0000, inp2);
                assert(false);
            }
            // the leaf row now carries the canonical leaf nodes
            assert forall|k: int| np2 <= k < total implies #[trigger] nodes@[k]
                == crate::tree::spec_node_at(pts, inp2, k) by {
                crate::tree::lemma_desc_bounds(inp2, k);
                assert(nodes@[np2 + (k - np2)] == crate::node::spec_leaf_node(
                    pts[k - np2],
                    (k - np2) as u32,
                ));
                assert(crate::tree::desc_lo(inp2, k) == k - np2);
                assert(crate::tree::desc_hi(inp2, k) == k + 1 - np2);
            }
        }

        // the internal rows, bottom-up
        let mut current_level_start: usize = np2 / 2;
        while current_level_start >= 1
            invariant
                nodes@.len() == total,
                current_level_start <= np2 / 2 || np2 == 1,
                2 * current_level_start <= np2,
                current_level_start == 0 || spec_is_pow2(current_level_start as int),
                nodes@[0] == crate::tree::zero_node(),
                forall|k: int|
                    1 <= k < 2 * current_level_start ==> #[trigger] nodes@[k]
                        == crate::tree::zero_node(),
                forall|k: int|
                    2 * current_level_start <= k < total && 1 <= k ==> #[trigger] nodes@[k]
                        == crate::tree::spec_node_at(pts, inp2, k),
            decreases current_level_start,
        {
            let mut i: usize = current_level_start;
            while i < 2 * current_level_start
                invariant
                    current_level_start <= i <= 2 * current_level_start,
                    nodes@.len() == total,
                    nodes@[0] == crate::tree::zero_node(),
                    forall|k: int|
                        1 <= k < current_level_start ==> #[trigger] nodes@[k]
                            == crate::tree::zero_node(),
                    forall|k: int|
                        i <= k < 2 * current_level_start ==> #[trigger] nodes@[k]
                            == crate::tree::zero_node(),
                    forall|k: int|
                        (current_level_start <= k < i || 2 * current_level_start <= k < total)
                            && 1 <= k ==> #[trigger] nodes@[k] == crate::tree::spec_node_at(
                            pts,
                            inp2,
                            k,
                        ),
                decreases 2 * current_level_start - i,
            {
                let parent_node = combine_children(&nodes, i, np2, Ghost(pts));
                nodes[i] = parent_node;
                i = i + 1;
            }
            current_level_start = current_level_start / 2;
        }

        proof {
            crate::tree::lemma_pow2ceil_unique(inl, inp2);
            assert(nodes@ =~= crate::tree::spec_nodes(pts));
            assert(pts == built_points(orig));

            // the boundary table
            crate::group::lemma_group_starts_props(sr);
            assert(leaves@ == built_table(orig));

            // well-formedness: the leaf row decodes back to the points it
            // was packed from
            assert forall|jj: int| 0 <= jj < inl implies crate::node::spec_leaf_point(
                nodes@[total - inl + jj],
            ) == pts[jj] by {
                crate::node::lemma_leaf_roundtrip(pts[jj], jj as u32);
            }
            assert(points_of(nodes@, inl) =~= pts);
            assert(leaves@.len() == inl + 1);
            assert(wf_shape(nodes@, leaves@, data@.len() as int));
        }

        Bvh { nodes, data, leaves }
    }
}

/// Groups a run of records by point: concatenates the payloads into one
/// buffer, and records one starting offset and one point per group of
/// consecutive records sharing a point.
pub fn process_input<I, T>(input: Vec<I>) -> (r: (Vec<T>, Vec<u32>, Vec<Vec2>)) where
    I: Point + Data<Unit = T>,
    T: Copy,

    requires
        crate::group::concat_data(input@).len() <= u32::MAX,
    ensures
        r.0@ == crate::group::concat_data(input@),
        r.1@ == crate::group::group_starts(input@),
        r.2@ == crate::group::group_points(input@),
{
    let mut result_data: Vec<T> = Vec::new();
    let mut indices: Vec<u32> = Vec::new();
    let mut points: Vec<Vec2> = Vec::new();
    let mut current_point: Option<Vec2> = None;

    let mut k: usize = 0;
    while k < input.len()
        invariant
            0 <= k <= input@.len(),
            crate::group::concat_data(input@).len() <= u32::MAX,
            result_data@ == crate::group::concat_data(input@.take(k as int)),
            indices@ == crate::group::group_starts(input@.take(k as int)),
            points@ == crate::group::group_points(input@.take(k as int)),
            current_point == (if k == 0 {
                Option::<Vec2>::None
            } else {
                Option::<Vec2>::Some(input@[k as int - 1].spec_point())
            }),
        decreases input@.len() - k,
    {
        let ghost prefix = input@.take(k as int);
        let ghost prefix1 = input@.take(k as int + 1);
        proof {
            assert(prefix1.drop_last() =~= prefix);
            assert(prefix1.last() == input@[k as int]);
        }
        let point = input[k].point();

        let is_new = match current_point {
            None => true,
            Some(p) => p != point,
        };
        proof {
            assert(is_new == crate::group::last_starts_group(prefix1));
        }
        if is_new {
            proof {
                crate::group::lemma_concat_prefix_le(input@, k as int);
            }
            let index = result_data.len() as u32;
            indices.push(index);
            points.push(point);
        }

        let d = input[k].data();
        let mut m: usize = 0;
        while m < d.len()
            invariant
                0 <= m <= d@.len(),
                result_data@ == crate::group::concat_data(input@.take(k as int)) + d@.subrange(
                    0,
                    m as int,
                ),
            decreases d@.len() - m,
        {
            let unit = d[m];
            result_data.push(unit);
            proof {
                assert(result_data@ =~= crate::group::concat_data(input@.take(k as int))
                    + d@.subrange(0, m as int + 1));
            }
            m = m + 1;
        }
        proof {
            assert(d@.subrange(0, d@.len() as int) =~= d@);
            assert(result_data@ == crate::group::concat_data(prefix1));
        }
        current_point = Some(point);
        k = k + 1;
    }
    proof {
        assert(input@.take(input@.len() as int) =~= input@);
    }
    (result_data, indices, points)
}
fn is_pow2_u32(n: u32) -> (r: bool)
    ensures
        r == spec_is_pow2(n as int),
{
    let mut m = n;
    while m > 1 && m % 2 == 0
        invariant
            spec_is_pow2(n as int) == spec_is_pow2(m as int),
        decreases m,
    {
        m = m / 2;
    }
    m == 1
}

} // verus!
