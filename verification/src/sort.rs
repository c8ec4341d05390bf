use vstd::multiset::Multiset;
use vstd::prelude::*;

verus! {

/// Whether a sequence of keyed records is ordered by key.
pub open spec fn sorted_by_key<I>(s: Seq<(u32, I)>) -> bool {
    forall|i: int, j: int| 0 <= i < j < s.len() ==> s[i].0 <= s[j].0
}

/// Stable insertion of a keyed record into a sequence: it moves left past
/// exactly the records with a strictly larger key.
pub open spec fn insert_sorted<I>(s: Seq<(u32, I)>, x: (u32, I)) -> Seq<(u32, I)>
    decreases s.len(),
{
    if s.len() == 0 {
        seq![x]
    } else if s.last().0 <= x.0 {
        s.push(x)
    } else {
        insert_sorted(s.drop_last(), x).push(s.last())
    }
}

/// Stable sort by key, defined record by record.
pub open spec fn sort_by_key<I>(s: Seq<(u32, I)>) -> Seq<(u32, I)>
    decreases s.len(),
{
    if s.len() == 0 {
        Seq::empty()
    } else {
        insert_sorted(sort_by_key(s.drop_last()), s.last())
    }
}

pub proof fn lemma_insert_sorted_len<I>(s: Seq<(u32, I)>, x: (u32, I))
    ensures
        insert_sorted(s, x).len() == s.len() + 1,
    decreases s.len(),
{
    if s.len() > 0 && !(s.last().0 <= x.0) {
        lemma_insert_sorted_len(s.drop_last(), x);
    }
}

pub proof fn lemma_sort_by_key_len<I>(s: Seq<(u32, I)>)
    ensures
        sort_by_key(s).len() == s.len(),
    decreases s.len(),
{
    if s.len() > 0 {
        lemma_sort_by_key_len(s.drop_last());
        lemma_insert_sorted_len(sort_by_key(s.drop_last()), s.last());
    }
}

pub proof fn lemma_insert_sorted_sorted<I>(s: Seq<(u32, I)>, x: (u32, I))
    requires
        sorted_by_key(s),
    ensures
        sorted_by_key(insert_sorted(s, x)),
    decreases s.len(),
{
    if s.len() == 0 {
    } else if s.last().0 <= x.0 {
        assert forall|i: int, j: int|
            0 <= i < j < s.push(x).len() implies s.push(x)[i].0 <= s.push(x)[j].0 by {
            if j < s.len() {
            } else {
                if i < s.len() - 1 {
                    assert(s[i].0 <= s.last().0);
                }
            }
        }
    } else {
        lemma_insert_sorted_sorted(s.drop_last(), x);
        lemma_insert_sorted_len(s.drop_last(), x);
        let t = insert_sorted(s.drop_last(), x);
        lemma_insert_sorted_le_max(s.drop_last(), x);
        assert forall|i: int, j: int|
            0 <= i < j < t.push(s.last()).len() implies t.push(s.last())[i].0 <= t.push(
            s.last(),
        )[j].0 by {
            if j < t.len() {
            } else {
                assert(t[i].0 <= x.0 || exists|m: int|
                    0 <= m < s.len() - 1 && t[i].0 == s[m].0);
            }
        }
    }
}

/// Every key of the inserted sequence is either the new key or one of the
/// old keys.
proof fn lemma_insert_sorted_le_max<I>(s: Seq<(u32, I)>, x: (u32, I))
    ensures
        forall|i: int|
            0 <= i < insert_sorted(s, x).len() ==> insert_sorted(s, x)[i].0 == x.0 || exists|
                m: int,
            | 0 <= m < s.len() && insert_sorted(s, x)[i].0 == s[m].0,
    decreases s.len(),
{
    if s.len() == 0 {
    } else if s.last().0 <= x.0 {
        assert forall|i: int| 0 <= i < s.push(x).len() implies s.push(x)[i].0 == x.0 || exists|
            m: int,
        | 0 <= m < s.len() && s.push(x)[i].0 == s[m].0 by {
            if i < s.len() {
                assert(s.push(x)[i].0 == s[i].0);
            }
        }
    } else {
        lemma_insert_sorted_le_max(s.drop_last(), x);
        lemma_insert_sorted_len(s.drop_last(), x);
        let t = insert_sorted(s.drop_last(), x);
        assert forall|i: int| 0 <= i < t.push(s.last()).len() implies t.push(s.last())[i].0 == x.0
            || exists|m: int| 0 <= m < s.len() && t.push(s.last())[i].0 == s[m].0 by {
            if i < t.len() {
                assert(t[i].0 == x.0 || exists|m: int| 0 <= m < s.len() - 1 && t[i].0 == s[m].0);
                if t[i].0 != x.0 {
                    let m = choose|m: int| 0 <= m < s.len() - 1 && t[i].0 == s[m].0;
                    assert(s.drop_last()[m] == s[m]);
                }
            } else {
                assert(t.push(s.last())[i].0 == s[s.len() - 1].0);
            }
        }
    }
}

pub proof fn lemma_sort_by_key_sorted<I>(s: Seq<(u32, I)>)
    ensures
        sorted_by_key(sort_by_key(s)),
    decreases s.len(),
{
    if s.len() > 0 {
        lemma_sort_by_key_sorted(s.drop_last());
        lemma_insert_sorted_sorted(sort_by_key(s.drop_last()), s.last());
    }
}

pub proof fn lemma_insert_sorted_multiset<I>(s: Seq<(u32, I)>, x: (u32, I))
    ensures
        insert_sorted(s, x).to_multiset() == s.to_multiset().insert(x),
    decreases s.len(),
{
    broadcast use vstd::seq_lib::group_to_multiset_ensures;

    if s.len() == 0 {
        assert(seq![x] =~= Seq::empty().push(x));
        assert(Seq::<(u32, I)>::empty().to_multiset() =~= Multiset::empty());
    } else if s.last().0 <= x.0 {
    } else {
        lemma_insert_sorted_multiset(s.drop_last(), x);
        assert(s.drop_last().push(s.last()) =~= s);
        assert(insert_sorted(s.drop_last(), x).push(s.last()).to_multiset() =~= s.drop_last().push(
            s.last(),
        ).to_multiset().insert(x));
    }
}

pub proof fn lemma_sort_by_key_multiset<I>(s: Seq<(u32, I)>)
    ensures
        sort_by_key(s).to_multiset() == s.to_multiset(),
    decreases s.len(),
{
    broadcast use vstd::seq_lib::group_to_multiset_ensures;

    if s.len() > 0 {
        lemma_sort_by_key_multiset(s.drop_last());
        lemma_insert_sorted_multiset(sort_by_key(s.drop_last()), s.last());
        assert(s.drop_last().push(s.last()) =~= s);
    }
}

/// Where the scan of the exec sort stops is exactly where the spec insert
/// puts the new record.
proof fn lemma_insert_sorted_at<I>(s: Seq<(u32, I)>, x: (u32, I), j: int)
    requires
        sorted_by_key(s),
        0 <= j <= s.len(),
        forall|m: int| j <= m < s.len() ==> s[m].0 > x.0,
        j > 0 ==> s[j - 1].0 <= x.0,
    ensures
        insert_sorted(s, x) == s.take(j).push(x) + s.skip(j),
    decreases s.len() - j,
{
    if j == s.len() {
        if s.len() == 0 {
            assert(insert_sorted(s, x) =~= s.take(j).push(x) + s.skip(j));
        } else {
            assert(s.last().0 <= x.0);
            assert(insert_sorted(s, x) =~= s.take(j).push(x) + s.skip(j));
        }
    } else {
        assert(s.last().0 > x.0);
        lemma_insert_sorted_at(s.drop_last(), x, j);
        assert(s.drop_last().take(j) =~= s.take(j));
        assert(insert_sorted(s.drop_last(), x).push(s.last()) =~= s.take(j).push(x) + s.skip(j))
            by {
            assert(insert_sorted(s.drop_last(), x) == s.take(j).push(x) + s.drop_last().skip(j));
            assert(s.drop_last().skip(j).push(s.last()) =~= s.skip(j));
            lemma_insert_sorted_len(s.drop_last(), x);
        }
    }
}

/// The records of a keyed sequence, in order, keys dropped.
pub open spec fn records_of<I>(s: Seq<(u32, I)>) -> Seq<I> {
    s.map_values(|p: (u32, I)| p.1)
}

proof fn lemma_records_of_push<I>(s: Seq<(u32, I)>, x: (u32, I))
    ensures
        records_of(s.push(x)) == records_of(s).push(x.1),
        records_of(s.push(x)).drop_last() == records_of(s),
{
    assert(records_of(s.push(x)) =~= records_of(s).push(x.1));
    assert(records_of(s).push(x.1).drop_last() =~= records_of(s));
}

proof fn lemma_records_of_drop_last<I>(s: Seq<(u32, I)>)
    requires
        s.len() > 0,
    ensures
        records_of(s).drop_last() == records_of(s.drop_last()),
        records_of(s).last() == s.last().1,
        records_of(s).len() == s.len(),
{
    assert(records_of(s).drop_last() =~= records_of(s.drop_last()));
}

/// Inserting a keyed record adds exactly its payload length.
proof fn lemma_insert_sorted_data_len<I: crate::Data>(s: Seq<(u32, I)>, x: (u32, I))
    ensures
        crate::group::sum_data_len(records_of(insert_sorted(s, x))) == crate::group::sum_data_len(
            records_of(s),
        ) + x.1.spec_data().len(),
    decreases s.len(),
{
    if s.len() == 0 {
        assert(records_of(seq![x]) =~= Seq::<I>::empty().push(x.1));
        assert(records_of(s) =~= Seq::<I>::empty());
        assert(Seq::<I>::empty().push(x.1).drop_last() =~= Seq::<I>::empty());
    } else if s.last().0 <= x.0 {
        lemma_records_of_push(s, x);
    } else {
        lemma_insert_sorted_data_len(s.drop_last(), x);
        lemma_records_of_push(insert_sorted(s.drop_last(), x), s.last());
        lemma_records_of_drop_last(s);
    }
}

/// Sorting keeps the total payload length.
pub proof fn lemma_sort_by_key_data_len<I: crate::Data>(s: Seq<(u32, I)>)
    ensures
        crate::group::sum_data_len(records_of(sort_by_key(s))) == crate::group::sum_data_len(
            records_of(s),
        ),
    decreases s.len(),
{
    if s.len() > 0 {
        lemma_sort_by_key_data_len(s.drop_last());
        lemma_insert_sorted_data_len(sort_by_key(s.drop_last()), s.last());
        lemma_records_of_drop_last(s);
    } else {
        assert(records_of(s) =~= Seq::<I>::empty());
    }
}

/// Inserting a keyed record adds exactly its payload units.
proof fn lemma_insert_sorted_data_mset<I: crate::Data>(s: Seq<(u32, I)>, x: (u32, I))
    ensures
        crate::group::data_mset(records_of(insert_sorted(s, x))) == crate::group::data_mset(
            records_of(s),
        ).add(x.1.spec_data().to_multiset()),
    decreases s.len(),
{
    if s.len() == 0 {
        assert(records_of(seq![x]) =~= Seq::<I>::empty().push(x.1));
        assert(records_of(s) =~= Seq::<I>::empty());
        assert(Seq::<I>::empty().push(x.1).drop_last() =~= Seq::<I>::empty());
        assert(crate::group::data_mset(records_of(insert_sorted(s, x)))
            =~= crate::group::data_mset(records_of(s)).add(x.1.spec_data().to_multiset()));
    } else if s.last().0 <= x.0 {
        lemma_records_of_push(s, x);
    } else {
        lemma_insert_sorted_data_mset(s.drop_last(), x);
        lemma_records_of_push(insert_sorted(s.drop_last(), x), s.last());
        lemma_records_of_drop_last(s);
        assert(crate::group::data_mset(records_of(insert_sorted(s, x)))
            =~= crate::group::data_mset(records_of(s)).add(x.1.spec_data().to_multiset()));
    }
}

/// Sorting keeps the multiset of payload units.
pub proof fn lemma_sort_by_key_data_mset<I: crate::Data>(s: Seq<(u32, I)>)
    ensures
        crate::group::data_mset(records_of(sort_by_key(s))) == crate::group::data_mset(
            records_of(s),
        ),
    decreases s.len(),
{
    if s.len() > 0 {
        lemma_sort_by_key_data_mset(s.drop_last());
        lemma_insert_sorted_data_mset(sort_by_key(s.drop_last()), s.last());
        lemma_records_of_drop_last(s);
    } else {
        assert(records_of(s) =~= Seq::<I>::empty());
    }
}

/// Sorts keyed records by key; records with equal keys keep their order.
pub fn sort_pairs<I>(v: &mut Vec<(u32, I)>)
    ensures
        final(v)@ == sort_by_key(old(v)@),
{
    let n = v.len();
    if n == 0 {
        proof {
            assert(v@ =~= sort_by_key(old(v)@));
        }
        return ;
    }
    let mut i: usize = 1;
    proof {
        let s1 = old(v)@.subrange(0, 1);
        assert(s1.drop_last() =~= Seq::empty());
        assert(sort_by_key(s1.drop_last()) =~= Seq::<(u32, I)>::empty());
        assert(sort_by_key(s1) == insert_sorted(Seq::<(u32, I)>::empty(), s1.last()));
        assert(sort_by_key(s1) =~= seq![old(v)@[0]]);
        assert(v@.subrange(0, 1) =~= seq![old(v)@[0]]);
    }
    while i < n
        invariant
            1 <= i <= n,
            v@.len() == n,
            old(v)@.len() == n,
            v@.subrange(0, i as int) == sort_by_key(old(v)@.subrange(0, i as int)),
            v@.subrange(i as int, n as int) == old(v)@.subrange(i as int, n as int),
        decreases n - i,
    {
        let ghost prefix = v@.subrange(0, i as int);
        proof {
            lemma_sort_by_key_sorted(old(v)@.subrange(0, i as int));
        }
        let key = v[i].0;
        let mut j: usize = i;
        while j > 0 && v[j - 1].0 > key
            invariant
                0 <= j <= i < n,
                v@.len() == n,
                v@.subrange(0, i as int) == prefix,
                key == v@[i as int].0,
                forall|m: int| j <= m < i ==> v@[m].0 > key,
            decreases j,
        {
            j = j - 1;
        }
        let ghost vb = v@;
        let x = v.remove(i);
        v.insert(j, x);
        proof {
            assert(x == vb[i as int]);
            assert(vb[i as int] == old(v)@[i as int]) by {
                assert(vb.subrange(i as int, n as int)[0] == old(v)@.subrange(i as int, n as int)[0]);
            }
            lemma_insert_sorted_at(prefix, x, j as int);
            assert(v@ == vb.remove(i as int).insert(j as int, x));
            assert forall|m: int| 0 <= m < n implies v@[m] == (if m < j {
                vb[m]
            } else if m == j {
                x
            } else if m <= i {
                vb[m - 1]
            } else {
                vb[m]
            }) by {
                assert(vb.remove(i as int).len() == n - 1);
            }
            assert(v@.subrange(0, i + 1) =~= prefix.take(j as int).push(x) + prefix.skip(j as int))
                by {
                assert(forall|m: int| 0 <= m < i ==> prefix[m] == vb[m]);
            }
            assert(old(v)@.subrange(0, i + 1).drop_last() =~= old(v)@.subrange(0, i as int));
            assert(old(v)@.subrange(0, i + 1).last() == old(v)@[i as int]);
            assert(v@.subrange(0, i + 1) == sort_by_key(old(v)@.subrange(0, i + 1)));
            assert(v@.subrange(i + 1, n as int) =~= old(v)@.subrange(i + 1, n as int)) by {
                assert(forall|m: int| i + 1 <= m < n ==> v@[m] == vb[m]);
                assert(forall|m: int|
                    i + 1 <= m < n ==> vb[m] == vb.subrange(i as int, n as int)[m - i]
                        && old(v)@[m] == old(v)@.subrange(i as int, n as int)[m - i]);
            }
        }
        i = i + 1;
    }
    proof {
        assert(v@.subrange(0, n as int) =~= v@);
        assert(old(v)@.subrange(0, n as int) =~= old(v)@);
    }
}

} // verus!
