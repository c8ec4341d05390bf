use vstd::prelude::*;

use crate::aabb::Aabb;
use crate::coord::Vec2;
use crate::group::{data_mset, lemma_concat_len_is_sum, lemma_concat_mset, sum_data_len};
use crate::query::{covers, range_query_spec, ranges_upto, ByteRange, Len};
use crate::{built_data, built_nodes, built_table, keyed, spec_sorted_records, Bvh, Data, Point};

verus! {

/// The payload buffer of a built index holds every unit of every input
/// record: its length is the sum of the payload lengths, and its multiset
/// of units is exactly the input's, whatever order the sort chose.
pub proof fn lemma_build_preserves_data<I: Point + Data>(s: Seq<I>)
    ensures
        built_data(s).len() == sum_data_len(s),
        built_data(s).to_multiset() == data_mset(s),
{
    let sr = spec_sorted_records(s);
    lemma_concat_len_is_sum(sr);
    lemma_concat_mset(sr);
    crate::sort::lemma_sort_by_key_data_len(keyed(s));
    crate::sort::lemma_sort_by_key_data_mset(keyed(s));
    crate::lemma_records_of_keyed(s);
    lemma_concat_len_is_sum(s);
    lemma_concat_mset(s);
    assert(crate::group::concat_data(s).len() == sum_data_len(s));
}

proof fn lemma_ranges_upto_all_contained(table: Seq<u32>, pts: Seq<Vec2>, q: Aabb, v: int)
    requires
        0 <= v < table.len(),
        pts.len() + 1 == table.len(),
        table[0] == 0,
        forall|t1: int, t2: int| 0 <= t1 <= t2 < table.len() ==> table[t1] <= table[t2],
        forall|j: int| 0 <= j < v ==> q.spec_contains(#[trigger] pts[j]),
    ensures
        ranges_upto(table, pts, q, v) == seq![ByteRange { start: 0, end: table[v] }],
    decreases v,
{
    if v == 0 {
        assert(ranges_upto(table, pts, q, 0) =~= seq![ByteRange { start: 0, end: table[0] }]);
    } else {
        lemma_ranges_upto_all_contained(table, pts, q, v - 1);
        assert(ranges_upto(table, pts, q, v) =~= seq![ByteRange { start: 0, end: table[v] }]);
    }
}

/// A query box containing every leaf point returns one range covering the
/// whole payload buffer (and nothing when the buffer is empty).
pub proof fn lemma_query_full_domain<L: Len>(b: &Bvh<L>, q: Aabb)
    requires
        b.wf(),
        forall|j: int|
            0 <= j < b.leaf_count() ==> q.spec_contains(#[trigger] b.leaf_points()[j]),
    ensures
        range_query_spec(b.leaves@, b.leaf_points(), q, b.data.spec_len() as int) == (
        if b.data.spec_len() == 0 {
            Seq::<ByteRange>::empty()
        } else {
            seq![ByteRange { start: 0, end: b.leaves@[b.leaves@.len() - 1] }]
        }),
{
    let tbl = b.leaves@;
    let pts = b.leaf_points();
    let dlen = b.data.spec_len() as int;
    if tbl.len() == 0 {
        assert(dlen == 0);
    } else {
        let nl = tbl.len() - 1;
        lemma_ranges_upto_all_contained(tbl, pts, q, nl);
        let acc = ranges_upto(tbl, pts, q, nl);
        assert(acc[0].end == tbl[nl] == dlen);
        if dlen == 0 {
        } else {
            assert(range_query_spec(tbl, pts, q, dlen) =~= seq![
                ByteRange { start: 0, end: tbl[nl] },
            ]);
        }
    }
}

/// A degenerate query box holds exactly its own corner point.
pub proof fn lemma_unit_box_selects(p: Vec2, x: Vec2)
    ensures
        (Aabb { min: p, max: p }).spec_contains(x) <==> x == p,
{
}

/// What a range query returns covers exactly the buffer positions of the
/// qualifying leaves: with a degenerate box at `p`, exactly the payload
/// of the leaves located at `p`.
pub proof fn lemma_query_covers_exactly<L: Len>(b: &Bvh<L>, q: Aabb, pos: int)
    requires
        b.wf(),
    ensures
        covers(range_query_spec(b.leaves@, b.leaf_points(), q, b.data.spec_len() as int), pos)
            <==> (b.data.spec_len() != 0 && exists|j: int|
            {
                &&& 0 <= j < b.leaf_count()
                &&& q.spec_contains(#[trigger] b.leaf_points()[j])
                &&& b.leaves@[j] <= pos < b.leaves@[j + 1]
            }),
{
    let tbl = b.leaves@;
    let pts = b.leaf_points();
    let dlen = b.data.spec_len() as int;
    let rs = range_query_spec(tbl, pts, q, dlen);
    if tbl.len() == 0 || dlen == 0 {
        assert(!covers(rs, pos));
        if tbl.len() > 0 && dlen == 0 {
            // every leaf range is empty
            assert forall|j: int|
                0 <= j < b.leaf_count() implies !((#[trigger] tbl[j]) <= pos < tbl[j + 1]) by {
                assert(tbl[j + 1] <= tbl[tbl.len() - 1]);
            }
        }
    } else {
        let nl = tbl.len() - 1;
        crate::query::lemma_ranges_upto_covers(tbl, pts, q, nl, pos);
        crate::query::lemma_ranges_upto_props(tbl, pts, q, nl);
        let acc = ranges_upto(tbl, pts, q, nl);
        assert(covers(rs, pos) <==> covers(acc, pos)) by {
            if acc[0].end == 0 {
                assert forall|k: int|
                    0 <= k < acc.len() && (#[trigger] acc[k]).start <= pos < acc[k].end implies
                    covers(rs, pos) by {
                    assert(k != 0);
                    assert(rs[k - 1] == acc[k]);
                }
                assert forall|k: int|
                    0 <= k < rs.len() && (#[trigger] rs[k]).start <= pos < rs[k].end implies
                    covers(acc, pos) by {
                    assert(acc[k + 1] == rs[k]);
                }
            }
        }
    }
}

/// Building twice from the same input, in the same order, gives
/// byte-identical node arrays, boundary tables and payload buffers: the
/// contract of `build` pins each of them down as a function of the input
/// alone.
pub proof fn lemma_build_deterministic<I: Point + Data<Unit = T>, T>(
    a: &Bvh<Vec<T>>,
    b: &Bvh<Vec<T>>,
    s: Seq<I>,
)
    requires
        a.data@ == built_data(s),
        a.leaves@ == built_table(s),
        a.nodes@ == built_nodes(s),
        b.data@ == built_data(s),
        b.leaves@ == built_table(s),
        b.nodes@ == built_nodes(s),
    ensures
        a.nodes@ == b.nodes@,
        a.leaves@ == b.leaves@,
        a.data@ == b.data@,
{
}

/// An index built from no records is completely empty, and every query
/// on it returns nothing.
pub proof fn lemma_empty_build<I: Point + Data>(s: Seq<I>, q: Aabb)
    requires
        s.len() == 0,
    ensures
        built_data(s).len() == 0,
        built_table(s).len() == 0,
        built_nodes(s).len() == 0,
        range_query_spec(built_table(s), Seq::<Vec2>::empty(), q, 0) == Seq::<ByteRange>::empty(),
{
    assert(keyed(s) =~= Seq::<(u32, I)>::empty());
    assert(spec_sorted_records(s) =~= Seq::<I>::empty());
    assert(built_data(s) =~= Seq::<I::Unit>::empty());
}

} // verus!
