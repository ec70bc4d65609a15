//! What a query over the whole week returns of payloads that were registered
//! one by one, each at an index of its own.

use crate::utils::MAX_TIME_INDEX;
use crate::week_schedule::{
    has_no_key, lemma_between_split, lemma_between_without_keys, payloads_at, payloads_between,
    query_result, registered,
};
use vstd::prelude::*;

verus! {

/// What a schedule holds after the payloads of `entries` have been registered
/// one after another, each at the index that stands beside it, in a schedule
/// that was empty.
pub open spec fn registered_all<T>(entries: Seq<(int, T)>) -> Map<int, Seq<T>>
    decreases entries.len(),
{
    if entries.len() == 0 {
        Map::empty()
    } else {
        registered(registered_all(entries.drop_last()), entries.last().0, entries.last().1)
    }
}

/// How many of `entries` have an index below `key`.
pub open spec fn keys_below<T>(entries: Seq<(int, T)>, key: int) -> nat
    decreases entries.len(),
{
    if entries.len() == 0 {
        0
    } else {
        keys_below(entries.drop_last(), key) + if entries.last().0 < key {
            1nat
        } else {
            0nat
        }
    }
}

/// Whether no two of `entries` have the same index.
pub open spec fn distinct_keys<T>(entries: Seq<(int, T)>) -> bool {
    forall|i: int, j: int|
        0 <= i < j < entries.len() ==> (#[trigger] entries[i]).0 != (#[trigger] entries[j]).0
}

/// One registration at `key` adds one payload to each range that `key` lies
/// in, and none to any other.
proof fn lemma_between_after_register<T>(m: Map<int, Seq<T>>, key: int, evnt: T, lo: int, hi: int)
    ensures
        payloads_between(registered(m, key, evnt), lo, hi).len() == payloads_between(
            m,
            lo,
            hi,
        ).len() + if lo <= key < hi {
            1int
        } else {
            0int
        },
    decreases hi - lo,
{
    if lo < hi {
        lemma_between_after_register(m, key, evnt, lo, hi - 1);
    }
}

/// A range that starts below every index of `entries` holds as many payloads
/// as there are entries below its end.
proof fn lemma_between_counts_keys<T>(entries: Seq<(int, T)>, lo: int, hi: int)
    requires
        forall|i: int| 0 <= i < entries.len() ==> (#[trigger] entries[i]).0 >= lo,
    ensures
        payloads_between(registered_all(entries), lo, hi).len() == keys_below(entries, hi),
    decreases entries.len(),
{
    if entries.len() == 0 {
        lemma_between_without_keys(registered_all(entries), lo, hi);
    } else {
        let rest = entries.drop_last();
        assert forall|i: int| 0 <= i < rest.len() implies (#[trigger] rest[i]).0 >= lo by {
            assert(rest[i] == entries[i]);
        }
        lemma_between_counts_keys(rest, lo, hi);
        assert(entries.last() == entries[entries.len() - 1]);
        lemma_between_after_register(
            registered_all(rest),
            entries.last().0,
            entries.last().1,
            lo,
            hi,
        );
    }
}

/// An index that none of `entries` has holds nothing.
proof fn lemma_unused_key_is_absent<T>(entries: Seq<(int, T)>, key: int)
    requires
        forall|i: int| 0 <= i < entries.len() ==> (#[trigger] entries[i]).0 != key,
    ensures
        !registered_all(entries).contains_key(key),
    decreases entries.len(),
{
    if entries.len() > 0 {
        let rest = entries.drop_last();
        assert forall|i: int| 0 <= i < rest.len() implies (#[trigger] rest[i]).0 != key by {
            assert(rest[i] == entries[i]);
        }
        lemma_unused_key_is_absent(rest, key);
        assert(entries.last() == entries[entries.len() - 1]);
    }
}

/// With an index of its own, each entry is the one payload at its index.
proof fn lemma_own_key_holds_one<T>(entries: Seq<(int, T)>, i: int)
    requires
        distinct_keys(entries),
        0 <= i < entries.len(),
    ensures
        registered_all(entries).contains_key(entries[i].0),
        payloads_at(registered_all(entries), entries[i].0) == seq![entries[i].1],
    decreases entries.len(),
{
    let rest = entries.drop_last();
    let n = entries.len() - 1;
    assert(entries.last() == entries[n]);
    assert forall|a: int, b: int| 0 <= a < b < rest.len() implies (#[trigger] rest[a]).0 != (
    #[trigger] rest[b]).0 by {
        assert(rest[a] == entries[a] && rest[b] == entries[b]);
    }
    if i == n {
        assert forall|k: int| 0 <= k < rest.len() implies (#[trigger] rest[k]).0
            != entries[n].0 by {
            assert(rest[k] == entries[k]);
        }
        lemma_unused_key_is_absent(rest, entries[n].0);
        assert(Seq::<T>::empty().push(entries[n].1) =~= seq![entries[n].1]);
    } else {
        assert(rest[i] == entries[i]);
        assert(entries[i].0 != entries[n].0);
        lemma_own_key_holds_one(rest, i);
    }
}

/// Where every index lies below `key`, all entries are counted.
proof fn lemma_all_keys_below<T>(entries: Seq<(int, T)>, key: int)
    requires
        forall|i: int| 0 <= i < entries.len() ==> (#[trigger] entries[i]).0 < key,
    ensures
        keys_below(entries, key) == entries.len(),
    decreases entries.len(),
{
    if entries.len() > 0 {
        let rest = entries.drop_last();
        assert forall|i: int| 0 <= i < rest.len() implies (#[trigger] rest[i]).0 < key by {
            assert(rest[i] == entries[i]);
        }
        lemma_all_keys_below(rest, key);
        assert(entries.last() == entries[entries.len() - 1]);
    }
}

/// Payloads registered each at an index of its own come back, all of them and
/// in ascending order of index, from a query that runs from the first second
/// of the week to the last: as many payloads are found as were registered,
/// each stands at the place that the number of smaller indices gives it, and
/// a smaller index has the earlier place.
///
/// The index 0, Monday 00:00:00, is set apart: it is the lower bound of that
/// query, and a lower bound is left out of what a query finds.
pub proof fn lemma_full_week_query_returns_all<T>(entries: Seq<(int, T)>)
    requires
        distinct_keys(entries),
        forall|i: int| 0 <= i < entries.len() ==> 0 < (#[trigger] entries[i]).0 <= MAX_TIME_INDEX,
    ensures
        query_result(registered_all(entries), 0, MAX_TIME_INDEX as int).len() == entries.len(),
        forall|i: int|
            0 <= i < entries.len() ==> keys_below(entries, (#[trigger] entries[i]).0)
                < entries.len() && query_result(
                registered_all(entries),
                0,
                MAX_TIME_INDEX as int,
            )[keys_below(entries, entries[i].0) as int] == entries[i].1,
        forall|i: int, j: int|
            0 <= i < entries.len() && 0 <= j < entries.len() && (#[trigger] entries[i]).0 < (
            #[trigger] entries[j]).0 ==> keys_below(entries, entries[i].0) < keys_below(
                entries,
                entries[j].0,
            ),
{
    let m = registered_all(entries);
    let end = MAX_TIME_INDEX as int + 1;
    let found = query_result(m, 0, MAX_TIME_INDEX as int);
    if entries.len() > 0 {
        lemma_own_key_holds_one(entries, 0);
        assert(!has_no_key(m));
    } else {
        lemma_between_without_keys(m, 1, end);
    }
    assert(found == payloads_between(m, 1, end));
    lemma_between_counts_keys(entries, 1, end);
    lemma_all_keys_below(entries, end);
    assert forall|i: int| 0 <= i < entries.len() implies keys_below(
        entries,
        (#[trigger] entries[i]).0,
    ) < entries.len() && found[keys_below(entries, entries[i].0) as int] == entries[i].1 by {
        let key = entries[i].0;
        lemma_own_key_holds_one(entries, i);
        lemma_between_counts_keys(entries, 1, key);
        lemma_between_split(m, 1, key, end);
        lemma_between_split(m, key, key + 1, end);
        assert(payloads_between(m, key, key) =~= Seq::<T>::empty());
        assert(payloads_between(m, key, key + 1) =~= payloads_at(m, key));
        let below = payloads_between(m, 1, key);
        let above = payloads_between(m, key + 1, end);
        assert(found == below + (seq![entries[i].1] + above));
        assert(found[below.len() as int] == entries[i].1);
    }
    assert forall|i: int, j: int|
        0 <= i < entries.len() && 0 <= j < entries.len() && (#[trigger] entries[i]).0 < (
        #[trigger] entries[j]).0 implies keys_below(entries, entries[i].0) < keys_below(
        entries,
        entries[j].0,
    ) by {
        let key = entries[i].0;
        let upper = entries[j].0;
        lemma_own_key_holds_one(entries, i);
        lemma_between_counts_keys(entries, 1, key);
        lemma_between_counts_keys(entries, 1, upper);
        lemma_between_split(m, 1, key, upper);
        lemma_between_split(m, key, key + 1, upper);
        assert(payloads_between(m, key, key) =~= Seq::<T>::empty());
        assert(payloads_between(m, key, key + 1) =~= payloads_at(m, key));
    }
}

} // verus!
