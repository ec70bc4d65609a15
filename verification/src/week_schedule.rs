//! The schedule: payloads kept by index of the week, in ascending order of
//! index and, under one index, in the order in which they were registered.

use crate::utils::{get_week_schedule_time_index, week_schedule_time_index};
use chrono::{NaiveTime, Weekday};
use vstd::prelude::*;

verus! {

/// The payloads registered at `key`, oldest first; none where the key is
/// absent.
pub open spec fn payloads_at<T>(m: Map<int, Seq<T>>, key: int) -> Seq<T> {
    if m.contains_key(key) {
        m[key]
    } else {
        Seq::empty()
    }
}

/// The payloads at the keys from `lo` up to, but without, `hi`, in ascending
/// order of key.
pub open spec fn payloads_between<T>(m: Map<int, Seq<T>>, lo: int, hi: int) -> Seq<T>
    decreases hi - lo,
{
    if lo >= hi {
        Seq::empty()
    } else {
        payloads_between(m, lo, hi - 1) + payloads_at(m, hi - 1)
    }
}

/// Whether `key` is the least key of `m`.
pub open spec fn is_first_key<T>(m: Map<int, Seq<T>>, key: int) -> bool {
    m.contains_key(key) && forall|k: int| m.contains_key(k) ==> key <= k
}

/// Whether `key` is the greatest key of `m`.
pub open spec fn is_last_key<T>(m: Map<int, Seq<T>>, key: int) -> bool {
    m.contains_key(key) && forall|k: int| m.contains_key(k) ==> k <= key
}

/// The least key of a map that has one.
pub open spec fn first_key<T>(m: Map<int, Seq<T>>) -> int {
    choose|key: int| is_first_key(m, key)
}

/// The greatest key of a map that has one.
pub open spec fn last_key<T>(m: Map<int, Seq<T>>) -> int {
    choose|key: int| is_last_key(m, key)
}

/// Whether `m` holds no key at all.
pub open spec fn has_no_key<T>(m: Map<int, Seq<T>>) -> bool {
    forall|k: int| !m.contains_key(k)
}

/// The schedule after one more payload has been registered at `key`: the
/// payload stands last among those of its key, and every other key is as it
/// was.
pub open spec fn registered<T>(m: Map<int, Seq<T>>, key: int, evnt: T) -> Map<int, Seq<T>> {
    m.insert(key, payloads_at(m, key).push(evnt))
}

/// What a query from `from_key` to `to_key` finds in `m`.
///
/// Where `from_key` is below `to_key`, these are the payloads at the keys
/// above `from_key` up to and with `to_key`. Otherwise the range runs over the
/// end of the week: first the payloads above `from_key` up to the greatest key
/// that is kept, then those from the least key that is kept up to and with
/// `to_key`. With `from_key` equal to `to_key` this second form applies: the
/// query then goes once round the week, from just after that point to the
/// point itself.
pub open spec fn query_result<T>(m: Map<int, Seq<T>>, from_key: int, to_key: int) -> Seq<T> {
    if has_no_key(m) {
        Seq::empty()
    } else if from_key < to_key {
        payloads_between(m, from_key + 1, to_key + 1)
    } else {
        payloads_between(m, from_key + 1, last_key(m) + 1) + payloads_between(
            m,
            first_key(m),
            to_key + 1,
        )
    }
}

/// Whether `dst` is `src` cloned item by item.
pub open spec fn clones_of<T: Clone>(src: Seq<T>, dst: Seq<T>) -> bool {
    grown_by_clones(Seq::empty(), src, dst)
}

/// Whether `after` is `before` followed by a clone of each item of `added`.
pub open spec fn grown_by_clones<T: Clone>(before: Seq<T>, added: Seq<T>, after: Seq<T>) -> bool {
    &&& after.len() == before.len() + added.len()
    &&& forall|k: int| 0 <= k < before.len() ==> #[trigger] after[k] == before[k]
    &&& forall|k: int| 0 <= k < added.len() ==> cloned(#[trigger] added[k], after[before.len() + k])
}

/// A range that no key of `m` lies in holds no payload.
pub proof fn lemma_between_without_keys<T>(m: Map<int, Seq<T>>, lo: int, hi: int)
    requires
        forall|k: int| lo <= k < hi ==> !m.contains_key(k),
    ensures
        payloads_between(m, lo, hi) == Seq::<T>::empty(),
    decreases hi - lo,
{
    if lo < hi {
        lemma_between_without_keys(m, lo, hi - 1);
        assert(Seq::<T>::empty() + payloads_at(m, hi - 1) =~= Seq::<T>::empty());
    }
}

/// A range is made of its part below `mid` and its part from `mid` on.
pub proof fn lemma_between_split<T>(m: Map<int, Seq<T>>, lo: int, mid: int, hi: int)
    requires
        lo <= mid <= hi,
    ensures
        payloads_between(m, lo, hi) == payloads_between(m, lo, mid) + payloads_between(
            m,
            mid,
            hi,
        ),
    decreases hi - mid,
{
    if mid == hi {
        assert(payloads_between(m, lo, mid) + Seq::<T>::empty() =~= payloads_between(m, lo, mid));
    } else {
        lemma_between_split(m, lo, mid, hi - 1);
        let a = payloads_between(m, lo, mid);
        let b = payloads_between(m, mid, hi - 1);
        let c = payloads_at(m, hi - 1);
        assert((a + b) + c =~= a + (b + c));
    }
}

/// A query of one schedule between the same two indices finds the same
/// whenever it is made: the results of two such queries are as long as each
/// other and hold, place by place, clones of the same kept payload. Where a
/// clone of a `T` is always equal to what it was made from, the two results
/// are equal.
pub proof fn lemma_query_twice_same<T: Clone>(
    m: Map<int, Seq<T>>,
    from_key: int,
    to_key: int,
    first: Seq<T>,
    second: Seq<T>,
)
    requires
        clones_of(query_result(m, from_key, to_key), first),
        clones_of(query_result(m, from_key, to_key), second),
    ensures
        first.len() == second.len(),
        forall|i: int|
            0 <= i < first.len() ==> cloned(
                #[trigger] query_result(m, from_key, to_key)[i],
                first[i],
            ) && cloned(query_result(m, from_key, to_key)[i], second[i]),
        (forall|a: T, b: T| #[trigger] cloned(a, b) ==> a == b) ==> first == second,
{
    let kept = query_result(m, from_key, to_key);
    assert forall|i: int| 0 <= i < first.len() implies cloned(#[trigger] kept[i], first[i])
        && cloned(kept[i], second[i]) by {
        assert(cloned(kept[i], first[0 + i]));
        assert(cloned(kept[i], second[0 + i]));
    }
    if forall|a: T, b: T| #[trigger] cloned(a, b) ==> a == b {
        assert forall|i: int| 0 <= i < first.len() implies first[i] == second[i] by {
            assert(cloned(kept[i], first[i]) && cloned(kept[i], second[i]));
        }
        assert(first =~= second);
    }
}

/// Whether the keys of `s` rise strictly.
spec fn rising<T>(s: Seq<(u32, Vec<T>)>) -> bool {
    forall|i: int, j: int| 0 <= i < j < s.len() ==> (#[trigger] s[i]).0 < (#[trigger] s[j]).0
}

/// Whether some slot of `s` has the key `key`.
spec fn has_slot<T>(s: Seq<(u32, Vec<T>)>, key: int) -> bool {
    exists|i: int| 0 <= i < s.len() && (#[trigger] s[i]).0 == key
}

/// A slot of `s` with the key `key`.
spec fn slot_of<T>(s: Seq<(u32, Vec<T>)>, key: int) -> int {
    choose|i: int| 0 <= i < s.len() && (#[trigger] s[i]).0 == key
}

/// The map that the slots of `s` stand for.
spec fn model<T>(s: Seq<(u32, Vec<T>)>) -> Map<int, Seq<T>> {
    Map::new(|key: int| has_slot(s, key), |key: int| s[slot_of(s, key)].1@)
}

/// The payloads of the slots from `i` up to, but without, `j`.
spec fn flat<T>(s: Seq<(u32, Vec<T>)>, i: int, j: int) -> Seq<T>
    decreases j - i,
{
    if i >= j {
        Seq::empty()
    } else {
        flat(s, i, j - 1) + s[j - 1].1@
    }
}

/// With rising keys, each slot is the one that its key is found in.
proof fn lemma_slot<T>(s: Seq<(u32, Vec<T>)>, i: int)
    requires
        rising(s),
        0 <= i < s.len(),
    ensures
        has_slot(s, s[i].0 as int),
        slot_of(s, s[i].0 as int) == i,
        model(s).contains_key(s[i].0 as int),
        model(s)[s[i].0 as int] == s[i].1@,
{
    let key = s[i].0 as int;
    assert(has_slot(s, key));
    let j = slot_of(s, key);
    assert(0 <= j < s.len() && s[j].0 == key);
    if j < i {
        assert(s[j].0 < s[i].0);
    }
    if i < j {
        assert(s[i].0 < s[j].0);
    }
}

/// Where the slots from `i` up to `j` are those with a key from `lo` up to
/// `hi`, their payloads are the payloads between `lo` and `hi`.
proof fn lemma_between_is_flat<T>(s: Seq<(u32, Vec<T>)>, lo: int, hi: int, i: int, j: int)
    requires
        rising(s),
        0 <= i <= j <= s.len(),
        forall|k: int| 0 <= k < i ==> (#[trigger] s[k]).0 < lo,
        forall|k: int| i <= k < j ==> lo <= (#[trigger] s[k]).0 < hi,
        forall|k: int| j <= k < s.len() ==> (#[trigger] s[k]).0 >= hi,
    ensures
        payloads_between(model(s), lo, hi) == flat(s, i, j),
    decreases hi - lo,
{
    let m = model(s);
    if lo >= hi {
        if i < j {
            assert(lo <= s[i].0 < hi);
        }
    } else if i < j && s[j - 1].0 == hi - 1 {
        lemma_slot(s, j - 1);
        assert forall|k: int| i <= k < j - 1 implies lo <= (#[trigger] s[k]).0 < hi - 1 by {
            assert(s[k].0 < s[j - 1].0);
        }
        lemma_between_is_flat(s, lo, hi - 1, i, j - 1);
    } else {
        if has_slot(s, hi - 1) {
            let k = slot_of(s, hi - 1);
            assert(0 <= k < s.len() && s[k].0 == hi - 1);
            if i <= k < j - 1 {
                assert(s[k].0 < s[j - 1].0);
            }
            assert(false);
        }
        assert(payloads_at(m, hi - 1) =~= Seq::<T>::empty());
        assert forall|k: int| i <= k < j implies lo <= (#[trigger] s[k]).0 < hi - 1 by {
            if k < j - 1 {
                assert(s[k].0 < s[j - 1].0);
            }
        }
        lemma_between_is_flat(s, lo, hi - 1, i, j);
        assert(payloads_between(m, lo, hi - 1) + Seq::<T>::empty() =~= flat(s, i, j));
    }
}

/// The first and last slots hold the least and the greatest key.
proof fn lemma_ends<T>(s: Seq<(u32, Vec<T>)>)
    requires
        rising(s),
        s.len() > 0,
    ensures
        !has_no_key(model(s)),
        is_first_key(model(s), first_key(model(s))),
        is_last_key(model(s), last_key(model(s))),
        first_key(model(s)) == s[0].0,
        last_key(model(s)) == s[s.len() - 1].0,
{
    let m = model(s);
    let n = s.len() as int;
    lemma_slot(s, 0);
    lemma_slot(s, n - 1);
    assert forall|k: int| m.contains_key(k) implies s[0].0 <= k <= s[n - 1].0 by {
        let i = slot_of(s, k);
        assert(0 <= i < n && s[i].0 == k);
        if 0 < i {
            assert(s[0].0 < s[i].0);
        }
        if i < n - 1 {
            assert(s[i].0 < s[n - 1].0);
        }
    }
    assert(is_first_key(m, s[0].0 as int));
    assert(is_last_key(m, s[n - 1].0 as int));
}

/// A weekly schedule of payloads of type `T`. Each payload is kept at the
/// index of the second of the week for which it was registered.
#[derive(Debug)]
pub struct WeekSchedule<T> {
    events: Vec<(u32, Vec<T>)>,
}

impl<T> View for WeekSchedule<T> {
    type V = Map<int, Seq<T>>;

    /// The schedule as a map from each index that holds a payload to the
    /// payloads registered there, oldest first.
    closed spec fn view(&self) -> Map<int, Seq<T>> {
        model(self.events@)
    }
}

impl<T> WeekSchedule<T> {
    /// Whether the schedule is in order within: every index is kept once, in
    /// ascending order, with at least one payload.
    pub closed spec fn wf(&self) -> bool {
        &&& rising(self.events@)
        &&& forall|i: int| 0 <= i < self.events@.len() ==> (#[trigger] self.events@[i]).1@.len() > 0
    }

    /// Every index that the schedule holds is a 32-bit number with at least
    /// one payload.
    pub proof fn lemma_keys_hold_payloads(&self)
        requires
            self.wf(),
        ensures
            self@.dom().finite(),
            forall|key: int| #[trigger]
                self@.contains_key(key) ==> 0 <= key <= u32::MAX && self@[key].len() > 0,
    {
        let s = self.events@;
        assert forall|key: int| #[trigger] self@.contains_key(key) implies 0 <= key <= u32::MAX
            && self@[key].len() > 0 by {
            let i = slot_of(s, key);
            assert(0 <= i < s.len() && s[i].0 == key);
        }
        let keys = Set::new(|key: int| 0 <= key <= u32::MAX);
        assert(keys =~= vstd::set_lib::set_int_range(0, u32::MAX + 1));
        vstd::set_lib::lemma_int_range(0, u32::MAX + 1);
        assert(self@.dom().subset_of(keys));
        vstd::set_lib::lemma_len_subset(self@.dom(), keys);
    }

    /// A range that runs over the end of the week can be read against any
    /// bounds that enclose every key of the schedule, in place of its least
    /// and greatest key: it is what lies above `from_key`, then what lies up
    /// to and with `to_key`.
    pub proof fn lemma_wrapping_query_by_outer_bounds(
        &self,
        from_key: int,
        to_key: int,
        lo: int,
        hi: int,
    )
        requires
            self.wf(),
            from_key >= to_key,
            forall|key: int| self@.contains_key(key) ==> lo <= key < hi,
        ensures
            query_result(self@, from_key, to_key) == payloads_between(self@, from_key + 1, hi)
                + payloads_between(self@, lo, to_key + 1),
    {
        let m = self@;
        let s = self.events@;
        if s.len() == 0 {
            assert(has_no_key(m));
            lemma_between_without_keys(m, from_key + 1, hi);
            lemma_between_without_keys(m, lo, to_key + 1);
            assert(Seq::<T>::empty() + Seq::<T>::empty() =~= Seq::<T>::empty());
        } else {
            lemma_ends(s);
            let first = first_key(m);
            let last = last_key(m);
            if from_key < last {
                lemma_between_split(m, from_key + 1, last + 1, hi);
                lemma_between_without_keys(m, last + 1, hi);
                assert(payloads_between(m, from_key + 1, last + 1) + Seq::<T>::empty()
                    =~= payloads_between(m, from_key + 1, last + 1));
            } else {
                lemma_between_without_keys(m, from_key + 1, hi);
                lemma_between_without_keys(m, from_key + 1, last + 1);
            }
            if first <= to_key {
                lemma_between_split(m, lo, first, to_key + 1);
                lemma_between_without_keys(m, lo, first);
                assert(Seq::<T>::empty() + payloads_between(m, first, to_key + 1)
                    =~= payloads_between(m, first, to_key + 1));
            } else {
                lemma_between_without_keys(m, lo, to_key + 1);
                lemma_between_without_keys(m, first, to_key + 1);
            }
        }
    }
}

impl<T: Clone> Clone for WeekSchedule<T> {
    /// A schedule with the same indices, and at each index a clone of each
    /// payload in the same order.
    fn clone(&self) -> (copy: Self)
        ensures
            self.wf() ==> copy.wf(),
            self.wf() ==> copy@.dom() == self@.dom(),
            self.wf() ==> forall|key: int| #[trigger]
                self@.contains_key(key) ==> clones_of(self@[key], copy@[key]),
    {
        let mut events: Vec<(u32, Vec<T>)> = Vec::new();
        let mut i: usize = 0;
        while i < self.events.len()
            invariant
                i <= self.events@.len(),
                events@.len() == i,
                forall|k: int|
                    0 <= k < i ==> (#[trigger] events@[k]).0 == self.events@[k].0 && clones_of(
                        self.events@[k].1@,
                        events@[k].1@,
                    ),
            decreases self.events@.len() - i,
        {
            let mut items: Vec<T> = Vec::new();
            items.extend_from_slice(self.events[i].1.as_slice());
            events.push((self.events[i].0, items));
            i = i + 1;
        }
        let copy = WeekSchedule { events };
        proof {
            if self.wf() {
                let s = self.events@;
                let c = copy.events@;
                assert forall|a: int, b: int| 0 <= a < b < c.len() implies (#[trigger] c[a]).0 < (
                #[trigger] c[b]).0 by {
                    assert(s[a].0 < s[b].0);
                }
                assert forall|k: int| 0 <= k < c.len() implies (#[trigger] c[k]).1@.len() > 0 by {
                    assert(s[k].1@.len() > 0);
                }
                assert forall|key: int| self@.contains_key(key) <==> copy@.contains_key(key) by {
                    if self@.contains_key(key) {
                        let k = slot_of(s, key);
                        assert(0 <= k < s.len() && s[k].0 == key);
                        assert(c[k].0 == key);
                    }
                    if copy@.contains_key(key) {
                        let k = slot_of(c, key);
                        assert(0 <= k < c.len() && c[k].0 == key);
                        assert(s[k].0 == key);
                    }
                }
                assert(copy@.dom() =~= self@.dom());
                assert forall|key: int| #[trigger] self@.contains_key(key) implies clones_of(
                    self@[key],
                    copy@[key],
                ) by {
                    let k = slot_of(s, key);
                    assert(0 <= k < s.len() && s[k].0 == key);
                    assert(c[k].0 == key);
                    lemma_slot(s, k);
                    lemma_slot(c, k);
                }
            }
        }
        copy
    }
}

impl<T: Clone> Default for WeekSchedule<T> {
    /// The empty schedule.
    fn default() -> (schedule: Self)
        ensures
            schedule.wf(),
            schedule@ == Map::<int, Seq<T>>::empty(),
    {
        let schedule = WeekSchedule { events: Vec::new() };
        assert(schedule@ =~= Map::<int, Seq<T>>::empty());
        schedule
    }
}

impl<T: Clone> WeekSchedule<T> {
    /// Whether nothing has been registered yet.
    pub fn is_empty(&self) -> (empty: bool)
        ensures
            empty == has_no_key(self@),
    {
        let empty: bool = self.events.len() == 0;
        proof {
            if empty {
                assert(has_no_key(self@));
            } else {
                assert(has_slot(self.events@, self.events@[0].0 as int));
                assert(self@.contains_key(self.events@[0].0 as int));
            }
        }
        empty
    }

    /// The first slot whose key is above `bound`, or the number of slots where
    /// there is none.
    fn first_above(&self, bound: u32) -> (idx: usize)
        requires
            self.wf(),
        ensures
            idx <= self.events@.len(),
            forall|k: int| 0 <= k < idx ==> (#[trigger] self.events@[k]).0 <= bound,
            forall|k: int| idx <= k < self.events@.len() ==> (#[trigger] self.events@[k]).0 > bound,
    {
        let mut lo: usize = 0;
        let mut hi: usize = self.events.len();
        while lo < hi
            invariant
                lo <= hi <= self.events@.len(),
                rising(self.events@),
                forall|k: int| 0 <= k < lo ==> (#[trigger] self.events@[k]).0 <= bound,
                forall|k: int| hi <= k < self.events@.len() ==> (#[trigger] self.events@[k]).0 > bound,
            decreases hi - lo,
        {
            let mid: usize = lo + (hi - lo) / 2;
            if self.events[mid].0 <= bound {
                assert forall|k: int| 0 <= k < mid + 1 implies (#[trigger] self.events@[k]).0
                    <= bound by {
                    if k < mid {
                        assert(self.events@[k].0 < self.events@[mid as int].0);
                    }
                }
                lo = mid + 1;
            } else {
                assert forall|k: int| mid <= k < self.events@.len() implies (
                #[trigger] self.events@[k]).0 > bound by {
                    if mid < k {
                        assert(self.events@[mid as int].0 < self.events@[k].0);
                    }
                }
                hi = mid;
            }
        }
        lo
    }

    /// Appends to `out` a clone of each payload of the slots from `start` on
    /// whose key is at most `upto`, and returns the slot at which it stopped.
    fn append_through(&self, out: &mut Vec<T>, start: usize, upto: u32) -> (end: usize)
        requires
            self.wf(),
            start <= self.events@.len(),
        ensures
            start <= end <= self.events@.len(),
            forall|k: int| start <= k < end ==> (#[trigger] self.events@[k]).0 <= upto,
            forall|k: int| end <= k < self.events@.len() ==> (#[trigger] self.events@[k]).0 > upto,
            grown_by_clones(old(out)@, flat(self.events@, start as int, end as int), final(out)@),
    {
        let ghost before = out@;
        let mut i: usize = start;
        while i < self.events.len() && self.events[i].0 <= upto
            invariant
                start <= i <= self.events@.len(),
                forall|k: int| start <= k < i ==> (#[trigger] self.events@[k]).0 <= upto,
                grown_by_clones(before, flat(self.events@, start as int, i as int), out@),
            decreases self.events@.len() - i,
        {
            let ghost seen = flat(self.events@, start as int, i as int);
            let ghost held = out@;
            out.extend_from_slice(self.events[i].1.as_slice());
            proof {
                let more = self.events@[i as int].1@;
                let next = flat(self.events@, start as int, i + 1);
                assert(next =~= seen + more);
                assert forall|k: int| 0 <= k < next.len() implies cloned(
                    #[trigger] next[k],
                    out@[before.len() + k],
                ) by {
                    if k < seen.len() {
                        assert(out@[before.len() + k] == held[before.len() + k]);
                        assert(cloned(seen[k], held[before.len() + k]));
                    } else {
                        assert(next[k] == more[k - seen.len()]);
                    }
                }
                assert forall|k: int| 0 <= k < before.len() implies #[trigger] out@[k]
                    == before[k] by {
                    assert(out@[k] == held[k]);
                }
            }
            i = i + 1;
        }
        proof {
            assert forall|k: int| i <= k < self.events@.len() implies (
            #[trigger] self.events@[k]).0 > upto by {
                if i < k {
                    assert(self.events@[i as int].0 < self.events@[k].0);
                }
            }
        }
        i
    }

    /// Registers `evnt` at the index `key`, behind the payloads that the index
    /// holds already.
    pub fn register_at(&mut self, evnt: T, key: u32)
        requires
            old(self).wf(),
        ensures
            final(self).wf(),
            final(self)@ == registered(old(self)@, key as int, evnt),
    {
        let ghost s0 = self.events@;
        let idx: usize = self.first_above(key);
        if idx > 0 && self.events[idx - 1].0 == key {
            self.events[idx - 1].1.push(evnt);
            proof {
                lemma_registered_in_place(s0, self.events@, idx - 1, key as int, evnt);
            }
        } else {
            let mut items: Vec<T> = Vec::new();
            items.push(evnt);
            self.events.insert(idx, (key, items));
            proof {
                assert forall|i: int| 0 <= i < idx implies (#[trigger] s0[i]).0 < key by {
                    if i < idx - 1 {
                        assert(s0[i].0 < s0[idx - 1].0);
                    }
                }
                lemma_registered_in_new_slot(s0, self.events@, idx as int, key as int, evnt);
            }
        }
    }

    /// The payloads between two indices of the week, as `query_result` lays
    /// them out: each a clone of the payload that is kept.
    pub fn query_range(&self, from_key: u32, to_key: u32) -> (found: Vec<T>)
        requires
            self.wf(),
        ensures
            clones_of(query_result(self@, from_key as int, to_key as int), found@),
    {
        let mut found: Vec<T> = Vec::new();
        if self.is_empty() {
            return found;
        }
        let n: usize = self.events.len();
        let ghost s = self.events@;
        proof {
            lemma_ends(s);
        }
        let start: usize = self.first_above(from_key);
        if from_key < to_key {
            let end: usize = self.append_through(&mut found, start, to_key);
            proof {
                lemma_between_is_flat(s, from_key + 1, to_key + 1, start as int, end as int);
            }
            return found;
        }
        let last_key: u32 = self.events[n - 1].0;
        let end: usize = self.append_through(&mut found, start, last_key);
        let ghost upper = flat(s, start as int, end as int);
        let ghost held = found@;
        proof {
            assert(end == n) by {
                if end < n {
                    assert(s[end as int].0 > last_key);
                    if end < n - 1 {
                        assert(s[end as int].0 < s[n - 1].0);
                    }
                }
            }
            assert forall|k: int| start <= k < end implies from_key + 1 <= (#[trigger] s[k]).0
                < last_key + 1 by {}
            lemma_between_is_flat(s, from_key + 1, last_key + 1, start as int, end as int);
        }
        let stop: usize = self.append_through(&mut found, 0, to_key);
        proof {
            let lower = flat(s, 0, stop as int);
            assert forall|k: int| 0 <= k < stop implies s[0].0 <= (#[trigger] s[k]).0 < to_key
                + 1 by {
                if 0 < k {
                    assert(s[0].0 < s[k].0);
                }
            }
            lemma_between_is_flat(s, s[0].0 as int, to_key + 1, 0, stop as int);
            let both = upper + lower;
            assert(held.len() == upper.len());
            assert forall|k: int| 0 <= k < both.len() implies cloned(
                #[trigger] both[k],
                found@[k],
            ) by {
                if k < upper.len() {
                    assert(found@[k] == held[k]);
                    assert(cloned(upper[k], held[k]));
                } else {
                    assert(both[k] == lower[k - upper.len()]);
                    assert(cloned(lower[k - upper.len()], found@[held.len() + (k - upper.len())]));
                }
            }
            assert(query_result(self@, from_key as int, to_key as int) == both);
        }
        found
    }

    /// Registers `evnt` at the given weekday and time of day, behind the
    /// payloads registered there before.
    pub fn register_event(&mut self, evnt: T, week: Weekday, time: NaiveTime)
        requires
            old(self).wf(),
        ensures
            final(self).wf(),
            final(self)@ == registered(
                old(self)@,
                week_schedule_time_index(week, time) as int,
                evnt,
            ),
    {
        let indx: u32 = get_week_schedule_time_index(week, time);
        self.register_at(evnt, indx);
    }

    /// The payloads registered after the first point of the week up to and
    /// with the second, in the order of the week; where the first point is not
    /// before the second, the range runs over the end of the week.
    pub fn query(
        &self,
        from_week: Weekday,
        from_time: NaiveTime,
        to_week: Weekday,
        to_time: NaiveTime,
    ) -> (found: Vec<T>)
        requires
            self.wf(),
        ensures
            clones_of(
                query_result(
                    self@,
                    week_schedule_time_index(from_week, from_time) as int,
                    week_schedule_time_index(to_week, to_time) as int,
                ),
                found@,
            ),
    {
        let from_index: u32 = get_week_schedule_time_index(from_week, from_time);
        let to_index: u32 = get_week_schedule_time_index(to_week, to_time);
        self.query_range(from_index, to_index)
    }
}

/// Where the slot `at` has the key `key` and gains `evnt` at its end, and all
/// else stays, the slots stand for the map with `evnt` registered at `key`.
proof fn lemma_registered_in_place<T>(
    s0: Seq<(u32, Vec<T>)>,
    s1: Seq<(u32, Vec<T>)>,
    at: int,
    key: int,
    evnt: T,
)
    requires
        rising(s0),
        0 <= at < s0.len(),
        s1.len() == s0.len(),
        s0[at].0 == key,
        s1[at].0 == key,
        s1[at].1@ == s0[at].1@.push(evnt),
        forall|i: int| 0 <= i < s1.len() && i != at ==> #[trigger] s1[i] == s0[i],
    ensures
        rising(s1),
        model(s1) == registered(model(s0), key, evnt),
{
    assert forall|i: int, j: int| 0 <= i < j < s1.len() implies (#[trigger] s1[i]).0 < (
    #[trigger] s1[j]).0 by {
        assert(s0[i].0 < s0[j].0);
    }
    let m0 = model(s0);
    let m1 = model(s1);
    let want = registered(m0, key, evnt);
    lemma_slot(s0, at);
    lemma_slot(s1, at);
    assert forall|k: int| m1.contains_key(k) <==> want.contains_key(k) by {
        if m1.contains_key(k) {
            let i = slot_of(s1, k);
            assert(0 <= i < s1.len() && s1[i].0 == k);
            assert(s0[i].0 == k);
        }
        if m0.contains_key(k) {
            let i = slot_of(s0, k);
            assert(0 <= i < s0.len() && s0[i].0 == k);
            assert(s1[i].0 == k);
        }
    }
    assert forall|k: int| m1.contains_key(k) implies m1[k] == want[k] by {
        let i = slot_of(s1, k);
        assert(0 <= i < s1.len() && s1[i].0 == k);
        lemma_slot(s1, i);
        lemma_slot(s0, i);
    }
    assert(m1 =~= want);
}

/// Where a slot with the new key `key` and the one payload `evnt` is set in
/// at `at`, between the smaller keys and the greater, the slots stand for the
/// map with `evnt` registered at `key`.
proof fn lemma_registered_in_new_slot<T>(
    s0: Seq<(u32, Vec<T>)>,
    s1: Seq<(u32, Vec<T>)>,
    at: int,
    key: int,
    evnt: T,
)
    requires
        rising(s0),
        0 <= at <= s0.len(),
        s1.len() == s0.len() + 1,
        s1[at].0 == key,
        s1[at].1@ == Seq::<T>::empty().push(evnt),
        forall|i: int| 0 <= i < at ==> #[trigger] s1[i] == s0[i],
        forall|i: int| at <= i < s0.len() ==> #[trigger] s0[i] == s1[i + 1],
        forall|i: int| 0 <= i < at ==> (#[trigger] s0[i]).0 < key,
        forall|i: int| at <= i < s0.len() ==> (#[trigger] s0[i]).0 > key,
    ensures
        rising(s1),
        model(s1) == registered(model(s0), key, evnt),
{
    assert forall|i: int, j: int| 0 <= i < j < s1.len() implies (#[trigger] s1[i]).0 < (
    #[trigger] s1[j]).0 by {
        if i < at {
            assert(s1[i] == s0[i]);
        } else if i > at {
            assert(s0[i - 1] == s1[i]);
        }
        if j < at {
            assert(s1[j] == s0[j]);
        } else if j > at {
            assert(s0[j - 1] == s1[j]);
        }
        if j < at {
            assert(s0[i].0 < s0[j].0);
        } else if i > at {
            assert(s0[i - 1].0 < s0[j - 1].0);
        }
    }
    let m0 = model(s0);
    let m1 = model(s1);
    let want = registered(m0, key, evnt);
    lemma_slot(s1, at);
    if m0.contains_key(key) {
        let i = slot_of(s0, key);
        assert(0 <= i < s0.len() && s0[i].0 == key);
        assert(false);
    }
    assert forall|k: int| m1.contains_key(k) <==> want.contains_key(k) by {
        if m1.contains_key(k) && k != key {
            let i = slot_of(s1, k);
            assert(0 <= i < s1.len() && s1[i].0 == k);
            if i < at {
                assert(s1[i] == s0[i]);
            } else {
                assert(s0[i - 1] == s1[i]);
            }
        }
        if m0.contains_key(k) {
            let i = slot_of(s0, k);
            assert(0 <= i < s0.len() && s0[i].0 == k);
            if i < at {
                assert(s1[i] == s0[i]);
            } else {
                assert(s0[i] == s1[i + 1]);
            }
        }
    }
    assert forall|k: int| m1.contains_key(k) implies m1[k] == want[k] by {
        let i = slot_of(s1, k);
        assert(0 <= i < s1.len() && s1[i].0 == k);
        lemma_slot(s1, i);
        if i < at {
            assert(s1[i] == s0[i]);
            lemma_slot(s0, i);
        } else if i > at {
            assert(s0[i - 1] == s1[i]);
            lemma_slot(s0, i - 1);
        }
    }
    assert(m1 =~= want);
}

} // verus!
