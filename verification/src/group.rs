use vstd::multiset::Multiset;
use vstd::prelude::*;

use crate::coord::Vec2;
use crate::{Data, Point};

verus! {

/// The payloads of a run of records, concatenated in order.
pub open spec fn concat_data<I: Data>(s: Seq<I>) -> Seq<I::Unit>
    decreases s.len(),
{
    if s.len() == 0 {
        Seq::empty()
    } else {
        concat_data(s.drop_last()) + s.last().spec_data()
    }
}

/// Sum of the payload lengths of a run of records.
pub open spec fn sum_data_len<I: Data>(s: Seq<I>) -> int
    decreases s.len(),
{
    if s.len() == 0 {
        0
    } else {
        sum_data_len(s.drop_last()) + s.last().spec_data().len()
    }
}

/// The multiset of payload units of a run of records.
pub open spec fn data_mset<I: Data>(s: Seq<I>) -> Multiset<I::Unit>
    decreases s.len(),
{
    if s.len() == 0 {
        Multiset::empty()
    } else {
        data_mset(s.drop_last()).add(s.last().spec_data().to_multiset())
    }
}

/// Whether the last record of `s` opens a new group: it is the first
/// record, or its point differs from its predecessor's.
pub open spec fn last_starts_group<I: Point>(s: Seq<I>) -> bool {
    s.len() == 1 || s[s.len() - 2].spec_point() != s.last().spec_point()
}

/// One point per group of consecutive records sharing a point, in order.
pub open spec fn group_points<I: Point>(s: Seq<I>) -> Seq<Vec2>
    decreases s.len(),
{
    if s.len() == 0 {
        Seq::empty()
    } else if last_starts_group(s) {
        group_points(s.drop_last()).push(s.last().spec_point())
    } else {
        group_points(s.drop_last())
    }
}

/// One payload-buffer offset per group: where the group's first payload
/// byte lands in the concatenation.
pub open spec fn group_starts<I: Point + Data>(s: Seq<I>) -> Seq<u32>
    decreases s.len(),
{
    if s.len() == 0 {
        Seq::empty()
    } else if last_starts_group(s) {
        group_starts(s.drop_last()).push(concat_data(s.drop_last()).len() as u32)
    } else {
        group_starts(s.drop_last())
    }
}

pub proof fn lemma_concat_len_is_sum<I: Data>(s: Seq<I>)
    ensures
        concat_data(s).len() == sum_data_len(s),
    decreases s.len(),
{
    if s.len() > 0 {
        lemma_concat_len_is_sum(s.drop_last());
    }
}

pub proof fn lemma_concat_mset<I: Data>(s: Seq<I>)
    ensures
        concat_data(s).to_multiset() == data_mset(s),
    decreases s.len(),
{
    if s.len() == 0 {
        assert(concat_data(s).to_multiset() =~= Multiset::empty()) by {
            broadcast use vstd::seq_lib::group_to_multiset_ensures;

        }
    } else {
        lemma_concat_mset(s.drop_last());
        vstd::seq_lib::lemma_multiset_commutative(
            concat_data(s.drop_last()),
            s.last().spec_data(),
        );
    }
}

/// A prefix of the records contributes a prefix of the payload buffer.
pub proof fn lemma_concat_prefix_le<I: Data>(s: Seq<I>, k: int)
    requires
        0 <= k <= s.len(),
    ensures
        concat_data(s.take(k)).len() <= concat_data(s).len(),
    decreases s.len() - k,
{
    if k == s.len() {
        assert(s.take(k) =~= s);
    } else {
        lemma_concat_prefix_le(s, k + 1);
        assert(s.take(k + 1).drop_last() =~= s.take(k));
        assert(concat_data(s.take(k + 1)) == concat_data(s.take(k)) + s[k].spec_data());
    }
}

/// Group counts: as many starts as points, at most one group per record,
/// and at least one when there are records.
pub proof fn lemma_group_lens<I: Point + Data>(s: Seq<I>)
    ensures
        group_points(s).len() == group_starts(s).len(),
        group_points(s).len() <= s.len(),
        s.len() > 0 ==> group_points(s).len() >= 1,
    decreases s.len(),
{
    if s.len() > 0 {
        lemma_group_lens(s.drop_last());
    }
}

/// Group starts are ordered and lie within the payload buffer; the first
/// group starts at offset zero.
pub proof fn lemma_group_starts_props<I: Point + Data>(s: Seq<I>)
    requires
        concat_data(s).len() <= u32::MAX,
    ensures
        forall|t: int|
            0 <= t < group_starts(s).len() ==> #[trigger] group_starts(s)[t] <= concat_data(
                s,
            ).len(),
        forall|t1: int, t2: int|
            0 <= t1 <= t2 < group_starts(s).len() ==> group_starts(s)[t1] <= group_starts(s)[t2],
        group_starts(s).len() > 0 ==> group_starts(s)[0] == 0,
    decreases s.len(),
{
    if s.len() > 0 {
        lemma_concat_prefix_le(s, s.len() - 1);
        assert(s.take(s.len() - 1) =~= s.drop_last());
        lemma_group_starts_props(s.drop_last());
        if last_starts_group(s) {
            let prev = group_starts(s.drop_last());
            let v = concat_data(s.drop_last()).len() as u32;
            assert forall|t: int| 0 <= t < group_starts(s).len() implies #[trigger] group_starts(
                s,
            )[t] <= concat_data(s).len() by {
                if t < prev.len() {
                    assert(group_starts(s)[t] == prev[t]);
                }
            }
            if prev.len() == 0 {
                lemma_group_lens(s.drop_last());
                assert(s.drop_last().len() == 0);
                assert(concat_data(s.drop_last()).len() == 0);
            }
        }
    }
}

} // verus!
