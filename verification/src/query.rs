use vstd::prelude::*;

use crate::aabb::Aabb;
use crate::coord::{dist2, Vec2};
use crate::node::NodeExpanded;
use crate::tree::{desc_hi, desc_lo, stack_measure, subtree_size};
use crate::Bvh;

verus! {

/// Whether leaf `j` lies below node `i`.
pub open spec fn in_subtree(np2: int, nl: int, i: int, j: int) -> bool {
    desc_lo(np2, i) <= j < (if desc_hi(np2, i) <= nl {
        desc_hi(np2, i)
    } else {
        nl
    })
}

/// A sound entry of the best-first queue: a live tree node whose priority
/// is a lower bound on the distance to every leaf below it, and exact for
/// a single leaf.
pub open spec fn entry_ok(pts: Seq<Vec2>, np2: int, e: (u64, u32), p: Vec2) -> bool {
    let i = e.1 as int;
    let lo = desc_lo(np2, i);
    let hi = desc_hi(np2, i);
    let hic = if hi <= pts.len() {
        hi
    } else {
        pts.len() as int
    };
    &&& 1 <= i < np2 + pts.len()
    &&& i < 2 * np2
    &&& lo < hic
    &&& forall|j: int| lo <= j < hic ==> e.0 <= dist2(pts[j], p)
    &&& (hic == lo + 1 ==> e.0 == dist2(pts[lo], p))
}

/// Whether some queue entry's subtree still holds leaf `j`.
pub open spec fn qcovered(q: Seq<(u64, u32)>, np2: int, nl: int, j: int) -> bool {
    exists|k: int| 0 <= k < q.len() && in_subtree(np2, nl, (#[trigger] q[k]).1 as int, j)
}

/// Leaf `j` minimizes the distance to `p` among all leaves.
pub open spec fn is_nearest(pts: Seq<Vec2>, p: Vec2, j: int) -> bool {
    &&& 0 <= j < pts.len()
    &&& forall|k: int| 0 <= k < pts.len() ==> dist2(pts[j], p) <= #[trigger] dist2(pts[k], p)
}

/// Total size of the subtrees hanging from the queue.
pub open spec fn heap_measure(q: Seq<(u64, u32)>, np2: int) -> int
    decreases q.len(),
{
    if q.len() == 0 {
        0
    } else {
        heap_measure(q.drop_last(), np2) + subtree_size(np2, q.last().1 as int)
    }
}

proof fn lemma_heap_measure_nonneg(q: Seq<(u64, u32)>, np2: int)
    requires
        forall|k: int| 0 <= k < q.len() ==> 1 <= (#[trigger] q[k]).1,
    ensures
        heap_measure(q, np2) >= 0,
    decreases q.len(),
{
    if q.len() > 0 {
        lemma_heap_measure_nonneg(q.drop_last(), np2);
        crate::tree::lemma_subtree_size_pos(np2, q.last().1 as int);
    }
}

proof fn lemma_heap_measure_remove(q: Seq<(u64, u32)>, np2: int, m: int)
    requires
        0 <= m < q.len(),
    ensures
        heap_measure(q.remove(m), np2) == heap_measure(q, np2) - subtree_size(np2, q[m].1 as int),
    decreases q.len(),
{
    if m == q.len() - 1 {
        assert(q.remove(m) =~= q.drop_last());
    } else {
        lemma_heap_measure_remove(q.drop_last(), np2, m);
        assert(q.remove(m).drop_last() =~= q.drop_last().remove(m));
        assert(q.remove(m).last() == q.last());
    }
}

/// Removes and returns an entry with the smallest priority; the earliest
/// of several equally small ones wins.
fn pop_min(q: &mut Vec<(u64, u32)>) -> (r: Option<(u64, u32)>)
    ensures
        old(q)@.len() == 0 ==> r is None && final(q)@ == old(q)@,
        old(q)@.len() > 0 ==> (exists|m: int|
            {
                &&& 0 <= m < old(q)@.len()
                &&& r == Some(old(q)@[m])
                &&& final(q)@ == old(q)@.remove(m)
                &&& forall|k: int| 0 <= k < old(q)@.len() ==> old(q)@[m].0 <= (#[trigger] old(
                    q,
                )@[k]).0
            }),
{
    if q.len() == 0 {
        return None;
    }
    let mut m: usize = 0;
    let mut k: usize = 1;
    while k < q.len()
        invariant
            0 <= m < k <= q@.len(),
            forall|t: int| 0 <= t < k ==> q@[m as int].0 <= (#[trigger] q@[t]).0,
        decreases q@.len() - k,
    {
        if q[k].0 < q[m].0 {
            m = k;
        }
        k = k + 1;
    }
    let e = q.remove(m);
    Some(e)
}

/// A half-open range of positions in the payload buffer.
#[derive(Clone, Copy, PartialEq, Eq, Structural, Debug)]
pub struct ByteRange {
    pub start: u32,
    pub end: u32,
}

/// Appends a leaf's byte range to the output, extending the last range in
/// place when the two are contiguous.
pub open spec fn push_range(acc: Seq<ByteRange>, start: u32, end: u32) -> Seq<ByteRange>
    recommends
        acc.len() > 0,
{
    if acc.last().end == start {
        acc.update(acc.len() - 1, ByteRange { start: acc.last().start, end })
    } else {
        acc.push(ByteRange { start, end })
    }
}

/// The output after visiting the first `v` leaves in order, starting from
/// the zero sentinel range: each leaf whose point lies in the query box
/// contributes its byte range, merged with the previous range when
/// contiguous.
pub open spec fn ranges_upto(table: Seq<u32>, pts: Seq<Vec2>, q: Aabb, v: int) -> Seq<ByteRange>
    decreases v,
{
    if v <= 0 {
        seq![ByteRange { start: 0, end: 0 }]
    } else {
        let acc = ranges_upto(table, pts, q, v - 1);
        if q.spec_contains(pts[v - 1]) {
            push_range(acc, table[v - 1], table[v])
        } else {
            acc
        }
    }
}

/// What a range query returns: the merged ranges of all qualifying
/// leaves, with the leading zero sentinel dropped when nothing extended
/// it; an index with no payload returns nothing.
pub open spec fn range_query_spec(table: Seq<u32>, pts: Seq<Vec2>, q: Aabb, dlen: int) -> Seq<
    ByteRange,
> {
    if table.len() == 0 || dlen == 0 {
        Seq::empty()
    } else {
        let acc = ranges_upto(table, pts, q, pts.len() as int);
        if acc[0].end == 0 {
            acc.subrange(1, acc.len() as int)
        } else {
            acc
        }
    }
}

/// Whether some returned range covers buffer position `pos`.
pub open spec fn covers(rs: Seq<ByteRange>, pos: int) -> bool {
    exists|k: int| 0 <= k < rs.len() && (#[trigger] rs[k]).start <= pos < rs[k].end
}

/// Shape of the accumulated output: ranges are ordered, within the table
/// prefix, and separated by real gaps.
pub proof fn lemma_ranges_upto_props(table: Seq<u32>, pts: Seq<Vec2>, q: Aabb, v: int)
    requires
        0 <= v < table.len(),
        pts.len() + 1 == table.len(),
        table[0] == 0,
        forall|t1: int, t2: int|
            0 <= t1 <= t2 < table.len() ==> table[t1] <= table[t2],
    ensures
        ranges_upto(table, pts, q, v).len() >= 1,
        forall|k: int|
            0 <= k < ranges_upto(table, pts, q, v).len() ==> #[trigger] ranges_upto(
                table,
                pts,
                q,
                v,
            )[k].start <= ranges_upto(table, pts, q, v)[k].end,
        forall|k: int|
            0 <= k < ranges_upto(table, pts, q, v).len() ==> #[trigger] ranges_upto(
                table,
                pts,
                q,
                v,
            )[k].end <= table[v],
        forall|k: int|
            0 <= k < ranges_upto(table, pts, q, v).len() - 1 ==> #[trigger] ranges_upto(
                table,
                pts,
                q,
                v,
            )[k].end < ranges_upto(table, pts, q, v)[k + 1].start,
    decreases v,
{
    if v > 0 {
        lemma_ranges_upto_props(table, pts, q, v - 1);
        let acc = ranges_upto(table, pts, q, v - 1);
        if q.spec_contains(pts[v - 1]) {
            assert(table[v - 1] <= table[v]);
        }
    }
}

/// No leaf of `[v, w)` qualifies: the output does not move.
pub proof fn lemma_ranges_upto_skip(table: Seq<u32>, pts: Seq<Vec2>, q: Aabb, v: int, w: int)
    requires
        0 <= v <= w,
        w <= pts.len(),
        forall|j: int| v <= j < w ==> !q.spec_contains(pts[j]),
    ensures
        ranges_upto(table, pts, q, w) == ranges_upto(table, pts, q, v),
    decreases w - v,
{
    if w > v {
        lemma_ranges_upto_skip(table, pts, q, v, w - 1);
    }
}

/// The accumulated output covers exactly the buffer positions of the
/// qualifying leaves seen so far.
pub proof fn lemma_ranges_upto_covers(table: Seq<u32>, pts: Seq<Vec2>, q: Aabb, v: int, pos: int)
    requires
        0 <= v < table.len(),
        pts.len() + 1 == table.len(),
        table[0] == 0,
        forall|t1: int, t2: int|
            0 <= t1 <= t2 < table.len() ==> table[t1] <= table[t2],
    ensures
        covers(ranges_upto(table, pts, q, v), pos) <==> exists|j: int|
            0 <= j < v && q.spec_contains(pts[j]) && table[j] <= pos < table[j + 1],
    decreases v,
{
    if v == 0 {
        assert(!covers(ranges_upto(table, pts, q, 0), pos)) by {
            let acc = ranges_upto(table, pts, q, 0);
            assert(acc.len() == 1 && acc[0].start == 0 && acc[0].end == 0);
        }
    } else {
        lemma_ranges_upto_covers(table, pts, q, v - 1, pos);
        lemma_ranges_upto_props(table, pts, q, v - 1);
        let acc = ranges_upto(table, pts, q, v - 1);
        let cur = ranges_upto(table, pts, q, v);
        if q.spec_contains(pts[v - 1]) {
            assert(table[v - 1] <= table[v]);
            if acc.last().end == table[v - 1] {
                // the last range is extended in place
                assert forall|p2: int| covers(cur, p2) implies covers(acc, p2) || (table[v - 1]
                    <= p2 < table[v]) by {
                    let k = choose|k: int| 0 <= k < cur.len() && (#[trigger] cur[k]).start <= p2 < cur[k].end;
                    if k < cur.len() - 1 {
                        assert(acc[k].start <= p2 < acc[k].end);
                    } else {
                        if p2 < acc.last().end {
                            assert(acc[k].start <= p2 < acc[k].end);
                        }
                    }
                }
                assert forall|p2: int| covers(acc, p2) || (table[v - 1] <= p2 < table[v]) implies
                    covers(cur, p2) by {
                    if covers(acc, p2) {
                        let k = choose|k: int|
                            0 <= k < acc.len() && (#[trigger] acc[k]).start <= p2 < acc[k].end;
                        if k < acc.len() - 1 {
                            assert(cur[k].start <= p2 < cur[k].end);
                        } else {
                            assert(cur[k].start <= p2 < cur[k].end);
                        }
                    } else {
                        let k = cur.len() - 1;
                        assert(cur[k].start <= p2 < cur[k].end);
                    }
                }
            } else {
                assert forall|p2: int| covers(cur, p2) implies covers(acc, p2) || (table[v - 1]
                    <= p2 < table[v]) by {
                    let k = choose|k: int| 0 <= k < cur.len() && (#[trigger] cur[k]).start <= p2 < cur[k].end;
                    if k < cur.len() - 1 {
                        assert(acc[k].start <= p2 < acc[k].end);
                    }
                }
                assert forall|p2: int| covers(acc, p2) || (table[v - 1] <= p2 < table[v]) implies
                    covers(cur, p2) by {
                    if covers(acc, p2) {
                        let k = choose|k: int|
                            0 <= k < acc.len() && (#[trigger] acc[k]).start <= p2 < acc[k].end;
                        assert(cur[k].start <= p2 < cur[k].end);
                    } else {
                        let k = cur.len() - 1;
                        assert(cur[k].start <= p2 < cur[k].end);
                    }
                }
            }
        }
    }
}

/// The work list tiles the leaves still to visit: the intervals of its
/// entries, top first, partition `[v, leaf count)`.
pub open spec fn tiles(s: Seq<u32>, np2: int, nl: int, v: int) -> bool
    decreases s.len(),
{
    if s.len() == 0 {
        v == nl
    } else {
        let top = s.last() as int;
        let lo = desc_lo(np2, top);
        let hi = desc_hi(np2, top);
        let loc = if lo <= nl {
            lo
        } else {
            nl
        };
        let hic = if hi <= nl {
            hi
        } else {
            nl
        };
        &&& 1 <= top < np2 + nl
        &&& top < 2 * np2
        &&& loc == v
        &&& tiles(s.drop_last(), np2, nl, hic)
    }
}

/// Every entry of a tiling work list is a tree index.
pub proof fn lemma_tiles_entries(s: Seq<u32>, np2: int, nl: int, v: int)
    requires
        tiles(s, np2, nl, v),
    ensures
        forall|k: int| 0 <= k < s.len() ==> 1 <= #[trigger] s[k],
    decreases s.len(),
{
    if s.len() > 0 {
        let top = s.last() as int;
        let hi = desc_hi(np2, top);
        let hic = if hi <= nl {
            hi
        } else {
            nl
        };
        lemma_tiles_entries(s.drop_last(), np2, nl, hic);
        assert forall|k: int| 0 <= k < s.len() implies 1 <= #[trigger] s[k] by {
            if k < s.len() - 1 {
                assert(s.drop_last()[k] == s[k]);
            }
        }
    }
}

impl<L: Len> Bvh<L> {
    /// Offers one child node to the best-first queue: an invalid leaf is
    /// skipped, a node farther than the current upper bound is pruned, and
    /// anything else is pushed under its minimum-distance priority,
    /// tightening the bound when the node promises a closer leaf.
    fn consider(
        &self,
        heap: &mut Vec<(u64, u32)>,
        best: &mut u64,
        child: u32,
        input: Vec2,
        Ghost(pts): Ghost<Seq<Vec2>>,
        Ghost(np2): Ghost<int>,
    )
        requires
            self.wf(),
            pts == self.leaf_points(),
            pts.len() == self.leaf_count(),
            1 <= pts.len(),
            np2 == crate::tree::pow2ceil(pts.len() as int),
            self.nodes@.len() == np2 + pts.len(),
            1 <= child < np2 + pts.len(),
            (child as int) < 2 * np2,
            forall|k: int|
                0 <= k < old(heap)@.len() ==> entry_ok(pts, np2, #[trigger] old(heap)@[k], input),
        ensures
            forall|k: int|
                0 <= k < final(heap)@.len() ==> entry_ok(pts, np2, #[trigger] final(heap)@[k], input),
            *final(best) <= *old(best),
            forall|j: int|
                qcovered(old(heap)@, np2, pts.len() as int, j) ==> qcovered(
                    final(heap)@,
                    np2,
                    pts.len() as int,
                    j,
                ),
            forall|j: int|
                in_subtree(np2, pts.len() as int, child as int, j) && 0 <= j < pts.len()
                    ==> qcovered(final(heap)@, np2, pts.len() as int, j) || dist2(pts[j], input)
                    > *final(best),
            forall|j: int|
                in_subtree(np2, pts.len() as int, child as int, j) && 0 <= j < pts.len() && dist2(
                    pts[j],
                    input,
                ) <= *old(best) ==> qcovered(final(heap)@, np2, pts.len() as int, j) && dist2(
                    pts[j],
                    input,
                ) <= *final(best),
            *final(best) < *old(best) ==> exists|j: int|
                0 <= j < pts.len() && qcovered(final(heap)@, np2, pts.len() as int, j)
                    && #[trigger] dist2(pts[j], input) <= *final(best),
            heap_measure(final(heap)@, np2) <= heap_measure(old(heap)@, np2) + subtree_size(
                np2,
                child as int,
            ),
            heap_measure(final(heap)@, np2) >= heap_measure(old(heap)@, np2),
    {
        let ghost nl = pts.len() as int;
        let ghost lo = desc_lo(np2, child as int);
        let ghost hi = desc_hi(np2, child as int);
        let ghost hic: int = if hi <= nl {
            hi
        } else {
            nl
        };
        proof {
            crate::tree::lemma_pow2ceil(nl);
            crate::tree::lemma_desc_bounds(np2, child as int);
            crate::tree::lemma_node_class(pts, np2, child as int);
            assert(self.nodes@[child as int] == crate::tree::spec_node_at(pts, np2, child as int));
            crate::tree::lemma_subtree_size_pos(np2, child as int);
        }
        let node = self.get_node(child);
        match node.into_expanded() {
            NodeExpanded::Leaf(leaf) => {
                if leaf.is_invalid() {
                    proof {
                        assert(hic <= lo);
                    }
                } else {
                    proof {
                        assert(hic == lo + 1);
                        assert(leaf.point == pts[lo]);
                    }
                    let d = crate::coord::dist2_points(leaf.point, input);
                    if *best < d {
                        proof {
                            assert(forall|j: int| lo <= j < hic ==> dist2(pts[j], input) == d);
                        }
                    } else {
                        if d < *best {
                            *best = d;
                        }
                        let ghost oldh = heap@;
                        heap.push((d, child));
                        proof {
                            assert forall|j: int| qcovered(oldh, np2, nl, j) implies qcovered(
                                heap@,
                                np2,
                                nl,
                                j,
                            ) by {
                                let k = choose|k: int|
                                    0 <= k < oldh.len() && in_subtree(
                                        np2,
                                        nl,
                                        (#[trigger] oldh[k]).1 as int,
                                        j,
                                    );
                                assert(heap@[k] == oldh[k]);
                            }
                            assert(in_subtree(np2, nl, child as int, lo));
                            assert(heap@[heap@.len() - 1] == (d, child));
                            assert(qcovered(heap@, np2, nl, lo));
                            assert(heap@.drop_last() =~= oldh);
                        }
                    }
                }
            },
            NodeExpanded::Aabb(cbox) => {
                proof {
                    assert(hic >= lo + 2);
                    assert(cbox == crate::tree::bbox(pts, lo, hic));
                    assert forall|j: int| lo <= j < hic implies dist2(pts[j], input) <= cbox
                        .spec_max_dist2(input) && cbox.spec_min_dist2(input) <= dist2(
                        pts[j],
                        input,
                    ) by {
                        crate::tree::lemma_bbox_contains(pts, lo, hic, j);
                        crate::aabb::lemma_min_dist2_le(cbox, input, pts[j]);
                        crate::aabb::lemma_max_dist2_ge(cbox, input, pts[j]);
                        crate::coord::lemma_dist2_sym(input, pts[j]);
                    }
                }
                let (dmin, dmax) = cbox.min_max_distance2(input);
                if *best < dmin {
                } else {
                    if dmax < *best {
                        *best = dmax;
                    }
                    let ghost oldh = heap@;
                    heap.push((dmin, child));
                    proof {
                        assert forall|j: int| qcovered(oldh, np2, nl, j) implies qcovered(
                            heap@,
                            np2,
                            nl,
                            j,
                        ) by {
                            let k = choose|k: int|
                                0 <= k < oldh.len() && in_subtree(
                                    np2,
                                    nl,
                                    (#[trigger] oldh[k]).1 as int,
                                    j,
                                );
                            assert(heap@[k] == oldh[k]);
                        }
                        assert(heap@[heap@.len() - 1] == (dmin, child));
                        assert forall|j: int|
                            in_subtree(np2, nl, child as int, j) && 0 <= j < nl implies qcovered(
                            heap@,
                            np2,
                            nl,
                            j,
                        ) by {
                        }
                        assert(in_subtree(np2, nl, child as int, lo));
                        assert(heap@.drop_last() =~= oldh);
                    }
                }
            },
        }
    }

    /// Nearest-point query: the byte range of a leaf whose point
    /// minimizes the squared Euclidean distance to `input`, found by
    /// best-first search over the tree, pruning nodes that cannot beat
    /// the tightest upper bound seen so far. Returns `None` exactly when
    /// the payload buffer is empty. Among leaves at equal distance, which
    /// one is returned follows the best-first visiting order.
    #[must_use]
    #[verifier::loop_isolation(false)]
    #[verifier::rlimit(100)]
    pub fn get_closest(&self, input: Vec2) -> (r: Option<ByteRange>)
        requires
            self.wf(),
        ensures
            self.data.spec_len() == 0 ==> r is None,
            self.data.spec_len() != 0 ==> exists|j: int|
                #[trigger] is_nearest(self.leaf_points(), input, j) && r == Some(
                    ByteRange { start: self.leaves@[j], end: self.leaves@[j + 1] },
                ),
    {
        if self.data.is_empty() {
            return None;
        }

        let ghost tbl = self.leaves@;
        let ghost pts = self.leaf_points();
        let ghost nl = self.leaf_count();
        let ghost np2 = crate::tree::pow2ceil(nl);
        proof {
            crate::tree::lemma_pow2ceil(nl);
            assert(pts.len() == nl);
            assert(self.nodes@.len() == np2 + nl);
            crate::tree::lemma_desc_root(np2);
            crate::tree::lemma_node_class(pts, np2, 1);
            assert(self.nodes@[1] == crate::tree::spec_node_at(pts, np2, 1));
        }

        let node = self.get_node(crate::ROOT_IDX);
        match node.into_expanded() {
            NodeExpanded::Leaf(leaf) => {
                // a single-leaf tree: the root is the answer
                proof {
                    assert(nl == 1);
                    assert(leaf.point == pts[0] && leaf.start == 0);
                    assert(is_nearest(pts, input, 0));
                }
                let start = self.leaves[0];
                let end = self.leaves[1];
                Some(ByteRange { start, end })
            },
            NodeExpanded::Aabb(root_box) => {
                proof {
                    assert(nl >= 2);
                    assert(root_box == crate::tree::bbox(pts, 0, nl));
                    assert forall|j: int| 0 <= j < nl implies dist2(pts[j], input) <= root_box
                        .spec_max_dist2(input) && root_box.spec_min_dist2(input) <= dist2(
                        pts[j],
                        input,
                    ) by {
                        crate::tree::lemma_bbox_contains(pts, 0, nl, j);
                        crate::aabb::lemma_min_dist2_le(root_box, input, pts[j]);
                        crate::aabb::lemma_max_dist2_ge(root_box, input, pts[j]);
                        crate::coord::lemma_dist2_sym(input, pts[j]);
                    }
                }
                let (dmin_root, dmax_root) = root_box.min_max_distance2(input);
                let mut max_distance_to_closest: u64 = dmax_root;
                let mut heap: Vec<(u64, u32)> = Vec::new();
                heap.push((dmin_root, crate::ROOT_IDX));
                proof {
                    assert(heap@[0] == (dmin_root, crate::ROOT_IDX));
                    assert(in_subtree(np2, nl, 1, 0));
                    assert forall|j: int| 0 <= j < nl implies qcovered(heap@, np2, nl, j) by {
                        assert(in_subtree(np2, nl, (heap@[0]).1 as int, j));
                    }
                    assert(heap@.drop_last() =~= Seq::<(u64, u32)>::empty());
                    crate::tree::lemma_subtree_size_pos(np2, 1);
                    assert(heap_measure(heap@.drop_last(), np2) == 0);
                    assert(heap@.last() == (dmin_root, crate::ROOT_IDX));
                    assert(heap_measure(heap@, np2) == subtree_size(np2, 1));
                }

                while heap.len() > 0
                    invariant
                        forall|k: int|
                            0 <= k < heap@.len() ==> entry_ok(pts, np2, #[trigger] heap@[k], input),
                        forall|j: int|
                            0 <= j < nl ==> qcovered(heap@, np2, nl, j) || #[trigger] dist2(
                                pts[j],
                                input,
                            ) > max_distance_to_closest,
                        exists|j: int|
                            0 <= j < nl && qcovered(heap@, np2, nl, j) && #[trigger] dist2(
                                pts[j],
                                input,
                            ) <= max_distance_to_closest,
                        heap_measure(heap@, np2) >= 0,
                    decreases heap_measure(heap@, np2),
                {
                    let ghost old_heap = heap@;
                    let ghost best0 = max_distance_to_closest;
                    let popped = pop_min(&mut heap);
                    let e = popped.unwrap();
                    let d = e.0;
                    let i = e.1;
                    let ghost m = choose|m: int|
                        {
                            &&& 0 <= m < old_heap.len()
                            &&& popped == Some(old_heap[m])
                            &&& heap@ == old_heap.remove(m)
                            &&& forall|k: int|
                                0 <= k < old_heap.len() ==> old_heap[m].0 <= (#[trigger] old_heap[k]).0
                        };
                    let ghost lo = desc_lo(np2, i as int);
                    let ghost hi = desc_hi(np2, i as int);
                    let ghost hic: int = if hi <= nl {
                        hi
                    } else {
                        nl
                    };
                    proof {
                        assert(entry_ok(pts, np2, (d, i), input));
                        crate::tree::lemma_desc_bounds(np2, i as int);
                        crate::tree::lemma_node_class(pts, np2, i as int);
                        assert(self.nodes@[i as int] == crate::tree::spec_node_at(
                            pts,
                            np2,
                            i as int,
                        ));
                        lemma_heap_measure_remove(old_heap, np2, m);
                        crate::tree::lemma_subtree_size_pos(np2, i as int);
                        assert forall|k: int| 0 <= k < heap@.len() implies 1 <= (
                        #[trigger] heap@[k]).1 by {
                            if k < m {
                                assert(heap@[k] == old_heap[k]);
                            } else {
                                assert(heap@[k] == old_heap[k + 1]);
                            }
                        }
                        lemma_heap_measure_nonneg(heap@, np2);

                        // what the popped entry covered is either its own
                        // subtree or still covered by the remaining queue
                        assert forall|j: int|
                            0 <= j < nl && qcovered(old_heap, np2, nl, j) implies qcovered(
                            heap@,
                            np2,
                            nl,
                            j,
                        ) || in_subtree(np2, nl, i as int, j) by {
                            let k = choose|k: int|
                                0 <= k < old_heap.len() && in_subtree(
                                    np2,
                                    nl,
                                    (#[trigger] old_heap[k]).1 as int,
                                    j,
                                );
                            if k != m {
                                if k < m {
                                    assert(heap@[k] == old_heap[k]);
                                } else {
                                    assert(heap@[k - 1] == old_heap[k]);
                                }
                            }
                        }
                    }
                    let node = self.get_node(i);
                    match node.into_expanded() {
                        NodeExpanded::Leaf(leaf) => {
                            // the nearest leaf: everything else in the queue
                            // is at least as far, and everything pruned was
                            // farther than a bound this leaf meets
                            proof {
                                assert(hic == lo + 1);
                                assert(leaf.point == pts[lo] && leaf.start == lo as u32);
                                assert(d == dist2(pts[lo], input));
                                assert(d <= best0) by {
                                    let jw = choose|j: int|
                                        0 <= j < nl && qcovered(old_heap, np2, nl, j)
                                            && #[trigger] dist2(pts[j], input) <= best0;
                                    let kw = choose|k: int|
                                        0 <= k < old_heap.len() && in_subtree(
                                            np2,
                                            nl,
                                            (#[trigger] old_heap[k]).1 as int,
                                            jw,
                                        );
                                    assert(entry_ok(pts, np2, old_heap[kw], input));
                                    assert(old_heap[kw].0 <= dist2(pts[jw], input));
                                    assert(d <= old_heap[kw].0);
                                }
                                assert forall|k: int| 0 <= k < nl implies d <= #[trigger] dist2(
                                    pts[k],
                                    input,
                                ) by {
                                    if qcovered(old_heap, np2, nl, k) {
                                        let ke = choose|t: int|
                                            0 <= t < old_heap.len() && in_subtree(
                                                np2,
                                                nl,
                                                (#[trigger] old_heap[t]).1 as int,
                                                k,
                                            );
                                        assert(entry_ok(pts, np2, old_heap[ke], input));
                                        assert(old_heap[ke].0 <= dist2(pts[k], input));
                                        assert(d <= old_heap[ke].0);
                                    } else {
                                        assert(dist2(pts[k], input) > best0);
                                    }
                                }
                                assert(is_nearest(pts, input, lo));
                            }
                            let ptr = leaf.start;
                            let start = self.leaves[ptr as usize];
                            let end = self.leaves[ptr as usize + 1];
                            return Some(ByteRange { start, end });
                        },
                        NodeExpanded::Aabb(_) => {
                            proof {
                                assert(hic >= lo + 2);
                                assert(i < np2);
                                crate::tree::lemma_desc_bounds(np2, 2 * i as int);
                                crate::tree::lemma_desc_bounds(np2, 2 * i + 1 as int);
                            }
                            let left = crate::child_left(i);
                            let right = crate::child_right(i);
                            let ghost heap_p = heap@;
                            self.consider(
                                &mut heap,
                                &mut max_distance_to_closest,
                                left,
                                input,
                                Ghost(pts),
                                Ghost(np2),
                            );
                            let ghost heap1 = heap@;
                            let ghost best1 = max_distance_to_closest;
                            self.consider(
                                &mut heap,
                                &mut max_distance_to_closest,
                                right,
                                input,
                                Ghost(pts),
                                Ghost(np2),
                            );
                            let ghost heap2 = heap@;
                            let ghost best2 = max_distance_to_closest;
                            proof {
                                // the children partition the popped interval
                                assert forall|j: int|
                                    in_subtree(np2, nl, i as int, j) implies in_subtree(
                                    np2,
                                    nl,
                                    2 * i as int,
                                    j,
                                ) || in_subtree(np2, nl, 2 * i + 1 as int, j) by {
                                }

                                // every leaf is covered again or proved far
                                assert forall|j: int| 0 <= j < nl implies qcovered(
                                    heap2,
                                    np2,
                                    nl,
                                    j,
                                ) || #[trigger] dist2(pts[j], input) > best2 by {
                                    if qcovered(old_heap, np2, nl, j) {
                                        if !in_subtree(np2, nl, i as int, j) {
                                            assert(qcovered(heap_p, np2, nl, j));
                                        }
                                    }
                                }

                                // a reachable leaf within the bound survives
                                if best2 < best1 {
                                } else if best1 < best0 {
                                } else {
                                    let j0 = choose|j: int|
                                        0 <= j < nl && qcovered(old_heap, np2, nl, j)
                                            && #[trigger] dist2(pts[j], input) <= best0;
                                    assert(qcovered(heap2, np2, nl, j0) && dist2(pts[j0], input)
                                        <= best2) by {
                                        if !in_subtree(np2, nl, i as int, j0) {
                                            assert(qcovered(heap_p, np2, nl, j0));
                                        }
                                    }
                                }

                                // one node of the frontier was traded for
                                // its two children
                                lemma_heap_measure_nonneg(heap_p, np2);
                            }
                        },
                    }
                }
                proof {
                    // the queue cannot drain: some leaf is always covered
                    assert(false);
                }
                None
            },
        }
    }

    /// Range query: the byte ranges of every leaf whose point lies in the
    /// query box, in leaf order, contiguous ranges merged. An explicit
    /// growable stack drives the depth-first walk, left child first, so
    /// leaves are visited in buffer order.
    #[must_use]
    #[verifier::loop_isolation(false)]
    pub fn get_in(&self, query: Aabb) -> (r: Vec<ByteRange>)
        requires
            self.wf(),
        ensures
            r@ == range_query_spec(
                self.leaves@,
                self.leaf_points(),
                query,
                self.data.spec_len() as int,
            ),
            forall|k: int|
                0 <= k < r@.len() ==> (#[trigger] r@[k]).start <= r@[k].end
                    <= self.data.spec_len(),
            forall|k: int| 0 <= k < r@.len() - 1 ==> (#[trigger] r@[k]).end < r@[k + 1].start,
    {
        let mut to_send_indices: Vec<ByteRange> = Vec::new();

        if self.data.is_empty() {
            return to_send_indices;
        }

        let ghost tbl = self.leaves@;
        let ghost pts = self.leaf_points();
        let ghost nl = self.leaf_count();
        let ghost np2 = crate::tree::pow2ceil(nl);
        proof {
            crate::tree::lemma_pow2ceil(nl);
            assert(pts.len() == nl);
            assert(self.nodes@.len() == np2 + nl);
        }

        to_send_indices.push(ByteRange { start: 0, end: 0 });
        let mut dfs_stack: Vec<u32> = Vec::new();
        dfs_stack.push(crate::ROOT_IDX);

        let ghost mut visited: int = 0;
        proof {
            crate::tree::lemma_desc_root(np2);
            assert(dfs_stack@.drop_last() =~= Seq::<u32>::empty());
            assert(tiles(dfs_stack@.drop_last(), np2, nl, nl));
            assert(dfs_stack@.last() == crate::ROOT_IDX);
            assert(tiles(dfs_stack@, np2, nl, 0));
            assert(to_send_indices@ =~= ranges_upto(tbl, pts, query, 0));
            lemma_tiles_entries(dfs_stack@, np2, nl, 0);
            crate::tree::lemma_stack_measure_nonneg(dfs_stack@, np2);
        }

        while dfs_stack.len() > 0
            invariant
                0 <= visited <= nl,
                tiles(dfs_stack@, np2, nl, visited),
                to_send_indices@ == ranges_upto(tbl, pts, query, visited),
                stack_measure(dfs_stack@, np2) >= 0,
            decreases stack_measure(dfs_stack@, np2),
        {
            proof {
                lemma_tiles_entries(dfs_stack@, np2, nl, visited);
                crate::tree::lemma_stack_measure_nonneg(dfs_stack@, np2);
                crate::tree::lemma_subtree_size_pos(np2, dfs_stack@.last() as int);
            }
            let ghost old_stack = dfs_stack@;
            let idx = dfs_stack.pop().unwrap();
            proof {
                assert(stack_measure(old_stack, np2) == stack_measure(old_stack.drop_last(), np2)
                    + subtree_size(np2, old_stack.last() as int));
                assert forall|k: int| 0 <= k < old_stack.drop_last().len() implies 1 <= #[trigger]
                    old_stack.drop_last()[k] by {
                    assert(old_stack.drop_last()[k] == old_stack[k]);
                }
                crate::tree::lemma_stack_measure_nonneg(old_stack.drop_last(), np2);
            }
            let ghost lo = desc_lo(np2, idx as int);
            let ghost hi = desc_hi(np2, idx as int);
            let ghost hic: int = if hi <= nl {
                hi
            } else {
                nl
            };
            proof {
                assert(old_stack.last() == idx && dfs_stack@ == old_stack.drop_last());
                crate::tree::lemma_desc_bounds(np2, idx as int);
                crate::tree::lemma_node_class(pts, np2, idx as int);
                assert(self.nodes@[idx as int] == crate::tree::spec_node_at(pts, np2, idx as int));
            }
            let node = self.get_node(idx);
            match node.into_expanded() {
                NodeExpanded::Leaf(leaf) => {
                    if leaf.is_invalid() {
                        proof {
                            // padding: its interval is empty, so everything
                            // is already visited
                            assert(hic <= lo);
                            assert(visited == nl);
                        }
                    } else {
                        proof {
                            assert(hic == lo + 1);
                            assert(lo == visited);
                            assert(leaf.point == pts[lo] && leaf.start == lo as u32);
                            lemma_ranges_upto_props(tbl, pts, query, visited);
                        }
                        if query.contains_point(leaf.point) {
                            let ptr = leaf.start;
                            let start = self.leaves[ptr as usize];
                            let end = self.leaves[ptr as usize + 1];
                            let last_i = to_send_indices.len() - 1;
                            let last = to_send_indices[last_i];
                            if last.end == start {
                                to_send_indices[last_i] = ByteRange { start: last.start, end };
                            } else {
                                to_send_indices.push(ByteRange { start, end });
                            }
                            proof {
                                assert(to_send_indices@ =~= push_range(
                                    ranges_upto(tbl, pts, query, visited),
                                    tbl[visited],
                                    tbl[visited + 1],
                                ));
                            }
                        }
                        proof {
                            visited = visited + 1;
                        }
                    }
                },
                NodeExpanded::Aabb(aabb) => {
                    proof {
                        assert(hic >= lo + 2);
                        assert(aabb == crate::tree::bbox(pts, lo, hic));
                        assert(idx < np2);
                        crate::tree::lemma_desc_bounds(np2, 2 * idx as int);
                        crate::tree::lemma_desc_bounds(np2, 2 * idx + 1 as int);
                    }
                    if aabb.intersects(query) {
                        let left = crate::child_left(idx);
                        let right = crate::child_right(idx);
                        dfs_stack.push(right);
                        dfs_stack.push(left);
                        proof {
                            // both children are inside the array: the left
                            // interval starts below the leaf count, and on
                            // the leaf row the right sibling does too
                            let rest = old_stack.drop_last();
                            let ghost mclip: int = if desc_hi(np2, 2 * idx as int) <= nl {
                                desc_hi(np2, 2 * idx as int)
                            } else {
                                nl
                            };
                            assert(dfs_stack@ =~= rest.push(right).push(left));
                            assert((rest.push(right)).drop_last() =~= rest);
                            assert((rest.push(right)).last() == right);
                            assert(dfs_stack@.drop_last() =~= rest.push(right));
                            assert(dfs_stack@.last() == left);
                            assert(tiles(rest.push(right), np2, nl, mclip));
                            assert(tiles(dfs_stack@, np2, nl, visited));
                            assert(stack_measure(rest.push(right), np2) == stack_measure(rest, np2)
                                + subtree_size(np2, right as int));
                            assert(stack_measure(dfs_stack@, np2) == stack_measure(
                                rest.push(right),
                                np2,
                            ) + subtree_size(np2, left as int));
                            assert(subtree_size(np2, idx as int) == 1 + subtree_size(
                                np2,
                                2 * idx as int,
                            ) + subtree_size(np2, 2 * idx + 1 as int));
                        }
                    } else {
                        proof {
                            // prune: the box bounds every leaf point of the
                            // subtree, so none lies in the query box
                            assert forall|j: int| visited <= j < hic implies !query.spec_contains(
                                pts[j],
                            ) by {
                                crate::tree::lemma_bbox_contains(pts, lo, hic, j);
                                if query.spec_contains(pts[j]) {
                                    crate::aabb::lemma_common_point_intersects(
                                        aabb,
                                        query,
                                        pts[j],
                                    );
                                }
                            }
                            lemma_ranges_upto_skip(tbl, pts, query, visited, hic);
                            visited = hic;
                        }
                    }
                },
            }
        }
        proof {
            assert(visited == nl);
            lemma_ranges_upto_props(tbl, pts, query, nl);
        }
        if to_send_indices[0].end == 0 {
            to_send_indices.remove(0);
        }
        proof {
            let acc = ranges_upto(tbl, pts, query, nl);
            if acc[0].end == 0 {
                assert(to_send_indices@ =~= acc.subrange(1, acc.len() as int));
                assert forall|k: int| 0 <= k < to_send_indices@.len() - 1 implies (
                #[trigger] to_send_indices@[k]).end < to_send_indices@[k + 1].start by {
                    assert(to_send_indices@[k] == acc[k + 1]);
                    assert(to_send_indices@[k + 1] == acc[k + 2]);
                }
            }
        }
        to_send_indices
    }
}

/// A container whose only role towards the index is its length.
pub trait Len {
    /// The length, as seen by specifications.
    spec fn spec_len(&self) -> nat;

    /// The length.
    fn len(&self) -> (n: usize)
        ensures
            n == self.spec_len(),
    ;

    /// Whether the container is empty.
    fn is_empty(&self) -> (b: bool)
        ensures
            b == (self.spec_len() == 0),
    {
        self.len() == 0
    }
}

impl<T> Len for Vec<T> {
    open spec fn spec_len(&self) -> nat {
        self@.len()
    }

    fn len(&self) -> (n: usize) {
        Vec::len(self)
    }
}

impl Len for bytes::Bytes {
    open spec fn spec_len(&self) -> nat {
        crate::shared_bytes::bytes_contents(*self).len()
    }

    fn len(&self) -> (n: usize) {
        crate::shared_bytes::bytes_len(self)
    }
}

impl<T> Bvh<Vec<T>> {
    /// Nearest-point query, returning a borrowed view of the payload.
    #[must_use]
    pub fn get_closest_slice(&self, input: Vec2) -> (r: Option<&[T]>)
        requires
            self.wf(),
        ensures
            (r is Some) <==> self.data@.len() != 0,
            r is Some ==> exists|j: int|
                #[trigger] is_nearest(self.leaf_points(), input, j) && r.unwrap()@
                    == self.data@.subrange(
                    self.leaves@[j] as int,
                    self.leaves@[j + 1] as int,
                ),
    {
        match self.get_closest(input) {
            None => None,
            Some(rg) => {
                proof {
                    let j = choose|j: int|
                        #[trigger] is_nearest(self.leaf_points(), input, j) && Some(rg) == Some(
                            ByteRange { start: self.leaves@[j], end: self.leaves@[j + 1] },
                        );
                    assert(self.leaves@[j] <= self.leaves@[j + 1]
                        <= self.leaves@[self.leaves@.len() - 1]);
                }
                Some(vstd::slice::slice_subrange(
                    self.data.as_slice(),
                    rg.start as usize,
                    rg.end as usize,
                ))
            },
        }
    }

    /// Range query, returning borrowed views of the payload.
    #[must_use]
    pub fn get_in_slices(&self, query: Aabb) -> (r: Vec<&[T]>)
        requires
            self.wf(),
        ensures
            ({
                let rs = range_query_spec(
                    self.leaves@,
                    self.leaf_points(),
                    query,
                    self.data@.len() as int,
                );
                &&& r@.len() == rs.len()
                &&& forall|k: int|
                    0 <= k < rs.len() ==> (#[trigger] r@[k])@ == self.data@.subrange(
                        rs[k].start as int,
                        rs[k].end as int,
                    )
            }),
    {
        let ranges = self.get_in(query);
        let mut out: Vec<&[T]> = Vec::new();
        let ghost rs = ranges@;
        let mut k: usize = 0;
        while k < ranges.len()
            invariant
                0 <= k <= rs.len(),
                ranges@ == rs,
                out@.len() == k,
                forall|t: int|
                    0 <= t < rs.len() ==> (#[trigger] rs[t]).start <= rs[t].end
                        <= self.data@.len(),
                forall|t: int|
                    0 <= t < k ==> (#[trigger] out@[t])@ == self.data@.subrange(
                        rs[t].start as int,
                        rs[t].end as int,
                    ),
            decreases rs.len() - k,
        {
            let rg = ranges[k];
            let s = vstd::slice::slice_subrange(
                self.data.as_slice(),
                rg.start as usize,
                rg.end as usize,
            );
            out.push(s);
            k = k + 1;
        }
        out
    }
}

impl Bvh<Vec<u8>> {
    /// Re-backs the payload buffer with a shared, reference-counted byte
    /// buffer for zero-copy distribution, without rebuilding the tree.
    #[must_use]
    pub fn into_bytes(self) -> (r: Bvh<bytes::Bytes>)
        requires
            self.wf(),
        ensures
            r.nodes@ == self.nodes@,
            r.leaves@ == self.leaves@,
            crate::shared_bytes::bytes_contents(r.data) == self.data@,
            r.wf(),
    {
        Bvh { nodes: self.nodes, data: crate::shared_bytes::bytes_from_vec(self.data), leaves: self.leaves }
    }
}

impl Bvh<bytes::Bytes> {
    /// Nearest-point query, returning a zero-copy slice of the shared
    /// payload buffer.
    #[must_use]
    pub fn get_closest_slice_bytes(&self, input: Vec2) -> (r: Option<bytes::Bytes>)
        requires
            self.wf(),
        ensures
            (r is Some) <==> crate::shared_bytes::bytes_contents(self.data).len() != 0,
            r is Some ==> exists|j: int|
                #[trigger] is_nearest(self.leaf_points(), input, j)
                    && crate::shared_bytes::bytes_contents(r.unwrap())
                    == crate::shared_bytes::bytes_contents(self.data).subrange(
                    self.leaves@[j] as int,
                    self.leaves@[j + 1] as int,
                ),
    {
        match self.get_closest(input) {
            None => None,
            Some(rg) => {
                proof {
                    let j = choose|j: int|
                        #[trigger] is_nearest(self.leaf_points(), input, j) && Some(rg) == Some(
                            ByteRange { start: self.leaves@[j], end: self.leaves@[j + 1] },
                        );
                    assert(self.leaves@[j] <= self.leaves@[j + 1]
                        <= self.leaves@[self.leaves@.len() - 1]);
                }
                Some(crate::shared_bytes::bytes_slice(
                    &self.data,
                    rg.start as usize,
                    rg.end as usize,
                ))
            },
        }
    }

    /// Range query, returning zero-copy slices of the shared payload
    /// buffer.
    #[must_use]
    pub fn get_in_slices_bytes(&self, query: Aabb) -> (r: Vec<bytes::Bytes>)
        requires
            self.wf(),
        ensures
            ({
                let rs = range_query_spec(
                    self.leaves@,
                    self.leaf_points(),
                    query,
                    crate::shared_bytes::bytes_contents(self.data).len() as int,
                );
                &&& r@.len() == rs.len()
                &&& forall|k: int|
                    0 <= k < rs.len() ==> crate::shared_bytes::bytes_contents(#[trigger] r@[k])
                        == crate::shared_bytes::bytes_contents(self.data).subrange(
                        rs[k].start as int,
                        rs[k].end as int,
                    )
            }),
    {
        let ranges = self.get_in(query);
        let mut out: Vec<bytes::Bytes> = Vec::new();
        let ghost rs = ranges@;
        let mut k: usize = 0;
        while k < ranges.len()
            invariant
                0 <= k <= rs.len(),
                ranges@ == rs,
                out@.len() == k,
                forall|t: int|
                    0 <= t < rs.len() ==> (#[trigger] rs[t]).start <= rs[t].end
                        <= crate::shared_bytes::bytes_contents(self.data).len(),
                forall|t: int|
                    0 <= t < k ==> crate::shared_bytes::bytes_contents(#[trigger] out@[t])
                        == crate::shared_bytes::bytes_contents(self.data).subrange(
                        rs[t].start as int,
                        rs[t].end as int,
                    ),
            decreases rs.len() - k,
        {
            let rg = ranges[k];
            let s = crate::shared_bytes::bytes_slice(&self.data, rg.start as usize, rg.end as usize);
            out.push(s);
            k = k + 1;
        }
        out
    }
}

} // verus!
