//! The time-ordered buffer itself.

use std::collections::VecDeque;

use vstd::prelude::*;

use crate::timestamp::Timestamp;

verus! {

broadcast use vstd::std_specs::vecdeque::group_vec_dequeue_axioms;

/// An entire sequence of timestamped entries is in chronological order:
/// timestamps are non-decreasing from front to back (ties permitted).
pub open spec fn entries_ordered<T>(s: Seq<(Timestamp, T)>) -> bool {
    forall|i: int, j: int|
        #![trigger s[i], s[j]]
        0 <= i <= j < s.len() ==> s[i].0.le_spec(s[j].0)
}

/// Ordering law: appending an entry whose timestamp is at or after the last
/// entry's keeps a chronologically ordered sequence ordered.
pub proof fn lemma_append_in_order_preserves_order<T>(s: Seq<(Timestamp, T)>, t: Timestamp, v: T)
    requires
        entries_ordered(s),
        s.len() > 0 ==> s[s.len() - 1].0.le_spec(t),
    ensures
        entries_ordered(s.push((t, v))),
{
    let p = s.push((t, v));
    assert forall|i: int, j: int|
        #![trigger p[i], p[j]]
        0 <= i <= j < p.len() implies p[i].0.le_spec(p[j].0) by {
        if j < s.len() {
            assert(s[i].0.le_spec(s[j].0));
        } else if i < s.len() {
            assert(s[i].0.le_spec(s[s.len() - 1].0));
        }
    }
}

/// The number of leading entries of `s` whose timestamp is strictly before
/// `cutoff`. In a chronologically ordered sequence these are exactly the
/// entries that `prune_before(cutoff)` discards.
pub open spec fn older_prefix_len<T>(s: Seq<(Timestamp, T)>, cutoff: Timestamp) -> nat
    decreases s.len(),
{
    if s.len() == 0 {
        0
    } else if s[0].0.lt_spec(cutoff) {
        (1 + older_prefix_len(s.skip(1), cutoff)) as nat
    } else {
        0
    }
}

/// `older_prefix_len(s, cutoff)` never exceeds the length of `s`, every entry
/// before it is strictly older than the cutoff, and the entry at it (if any)
/// is not.
pub proof fn lemma_older_prefix_len_bounds<T>(s: Seq<(Timestamp, T)>, cutoff: Timestamp)
    ensures
        older_prefix_len(s, cutoff) <= s.len(),
        forall|i: int|
            0 <= i < older_prefix_len(s, cutoff) ==> (#[trigger] s[i]).0.lt_spec(cutoff),
        older_prefix_len(s, cutoff) < s.len() ==> !s[older_prefix_len(
            s,
            cutoff,
        ) as int].0.lt_spec(cutoff),
    decreases s.len(),
{
    if s.len() > 0 && s[0].0.lt_spec(cutoff) {
        let tail = s.skip(1);
        lemma_older_prefix_len_bounds(tail, cutoff);
        assert forall|i: int|
            0 <= i < older_prefix_len(s, cutoff) implies (#[trigger] s[i]).0.lt_spec(cutoff) by {
            if i > 0 {
                assert(tail[i - 1] == s[i]);
            }
        }
        if older_prefix_len(s, cutoff) < s.len() {
            assert(tail[older_prefix_len(tail, cutoff) as int] == s[older_prefix_len(
                s,
                cutoff,
            ) as int]);
        }
    }
}

/// The boundary is determined: if every entry before position `k` is strictly
/// older than the cutoff and the entry at `k` (if any) is not, then `k` is
/// exactly `older_prefix_len(s, cutoff)`.
pub proof fn lemma_older_prefix_len_unique<T>(s: Seq<(Timestamp, T)>, cutoff: Timestamp, k: int)
    requires
        0 <= k <= s.len(),
        forall|i: int| 0 <= i < k ==> (#[trigger] s[i]).0.lt_spec(cutoff),
        k < s.len() ==> !s[k].0.lt_spec(cutoff),
    ensures
        older_prefix_len(s, cutoff) == k,
    decreases s.len(),
{
    if k > 0 {
        let tail = s.skip(1);
        assert(s[0].0.lt_spec(cutoff));
        assert forall|i: int| 0 <= i < k - 1 implies (#[trigger] tail[i]).0.lt_spec(cutoff) by {
            assert(tail[i] == s[i + 1]);
        }
        if k - 1 < tail.len() {
            assert(tail[k - 1] == s[k]);
        }
        lemma_older_prefix_len_unique(tail, cutoff, k - 1);
    }
}

/// Removing entries from the front keeps a chronologically ordered sequence
/// ordered.
pub proof fn lemma_ordered_skip<T>(s: Seq<(Timestamp, T)>, k: int)
    requires
        entries_ordered(s),
        0 <= k <= s.len(),
    ensures
        entries_ordered(s.skip(k)),
{
    let t = s.skip(k);
    assert forall|i: int, j: int|
        #![trigger t[i], t[j]]
        0 <= i <= j < t.len() implies t[i].0.le_spec(t[j].0) by {
        assert(t[i] == s[i + k]);
        assert(t[j] == s[j + k]);
    }
}

/// Prune law: in a chronologically ordered sequence, every entry before the
/// older-prefix boundary is strictly before the cutoff and every entry from
/// the boundary on is at or after it.
pub proof fn lemma_older_prefix_partitions<T>(s: Seq<(Timestamp, T)>, cutoff: Timestamp)
    requires
        entries_ordered(s),
    ensures
        older_prefix_len(s, cutoff) <= s.len(),
        forall|i: int|
            0 <= i < older_prefix_len(s, cutoff) ==> (#[trigger] s[i]).0.lt_spec(cutoff),
        forall|i: int|
            older_prefix_len(s, cutoff) <= i < s.len() ==> cutoff.le_spec((#[trigger] s[i]).0),
{
    lemma_older_prefix_len_bounds(s, cutoff);
    let k = older_prefix_len(s, cutoff) as int;
    assert forall|i: int| k <= i < s.len() implies cutoff.le_spec((#[trigger] s[i]).0) by {
        assert(s[k].0.le_spec(s[i].0));
    }
}

/// Prune law: pruning is idempotent. After one prune at a cutoff, a second
/// prune at the same cutoff finds nothing older left to discard.
pub proof fn lemma_prune_idempotent<T>(s: Seq<(Timestamp, T)>, cutoff: Timestamp)
    requires
        entries_ordered(s),
    ensures
        older_prefix_len(s.skip(older_prefix_len(s, cutoff) as int), cutoff) == 0,
{
    lemma_older_prefix_len_bounds(s, cutoff);
    let k = older_prefix_len(s, cutoff) as int;
    let rest = s.skip(k);
    if rest.len() > 0 {
        assert(rest[0] == s[k]);
    }
    lemma_older_prefix_len_unique(rest, cutoff, 0);
}

/// An ordered container of `(Timestamp, T)` pairs, sorted by timestamp in
/// non-decreasing order. Grows only at the back (`add_item`), shrinks only at
/// the front (`prune_before`).
#[derive(Debug)]
pub struct TimewiseDeque<T> {
    queue: VecDeque<(Timestamp, T)>,
}

impl<T> View for TimewiseDeque<T> {
    type V = Seq<(Timestamp, T)>;

    closed spec fn view(&self) -> Seq<(Timestamp, T)> {
        self.queue@
    }
}

impl<T> TimewiseDeque<T> {
    /// The buffer's invariant: its entries stand in chronological order.
    pub open spec fn wf(&self) -> bool {
        entries_ordered(self@)
    }

    /// Returns an empty buffer.
    pub fn new() -> (r: Self)
        ensures
            r@ == Seq::<(Timestamp, T)>::empty(),
            r.wf(),
    {
        Self { queue: VecDeque::new() }
    }

    /// How many items the buffer currently holds.
    pub fn len(&self) -> (r: usize)
        ensures
            r == self@.len(),
    {
        self.queue.len()
    }

    /// Appends `(timestamp, item)` at the back of the buffer. The timestamp
    /// must be at or after the most recently added one: inserting out of
    /// chronological order is a caller error, ruled out by the precondition,
    /// so the buffer never silently reorders.
    pub fn add_item(&mut self, timestamp: Timestamp, item: T)
        requires
            old(self).wf(),
            old(self)@.len() > 0 ==> old(self)@[old(self)@.len() - 1].0.le_spec(timestamp),
        ensures
            final(self)@ == old(self)@.push((timestamp, item)),
            final(self).wf(),
    {
        proof {
            lemma_append_in_order_preserves_order(self@, timestamp, item);
        }
        self.queue.push_back((timestamp, item));
    }

    /// Checked insertion: appends `(timestamp, item)` when `timestamp` is at
    /// or after the newest entry's, and otherwise rejects the pair, handing
    /// it back unchanged. A caller outside verified code can use this to keep
    /// the never-silently-reorder guarantee at run time.
    pub fn try_add_item(&mut self, timestamp: Timestamp, item: T) -> (r: Result<
        (),
        (Timestamp, T),
    >)
        requires
            old(self).wf(),
        ensures
            final(self).wf(),
            match r {
                Ok(_) => {
                    &&& old(self)@.len() > 0 ==> old(self)@[old(self)@.len() - 1].0.le_spec(
                        timestamp,
                    )
                    &&& final(self)@ == old(self)@.push((timestamp, item))
                },
                Err(p) => {
                    &&& old(self)@.len() > 0
                    &&& !old(self)@[old(self)@.len() - 1].0.le_spec(timestamp)
                    &&& p == (timestamp, item)
                    &&& final(self)@ == old(self)@
                },
            },
    {
        let n = self.queue.len();
        if n > 0 && !self.queue[n - 1].0.le(&timestamp) {
            Err((timestamp, item))
        } else {
            self.add_item(timestamp, item);
            Ok(())
        }
    }

    /// Removes every entry whose timestamp is strictly before `timestamp`,
    /// popping from the front until the front entry (if any) is at or after
    /// the cutoff. Pruning an empty buffer, or with a cutoff at or before
    /// everything stored, is a no-op.
    #[verifier::loop_isolation(false)]
    pub fn prune_before(&mut self, timestamp: &Timestamp)
        requires
            old(self).wf(),
        ensures
            final(self)@ == old(self)@.skip(older_prefix_len(old(self)@, *timestamp) as int),
            final(self).wf(),
    {
        let ghost full = self@;
        let ghost mut n: int = 0;
        while self.queue.len() > 0 && self.queue[0].0.lt(timestamp)
            invariant
                0 <= n <= full.len(),
                self@ == full.skip(n),
                forall|i: int| 0 <= i < n ==> (#[trigger] full[i]).0.lt_spec(*timestamp),
            decreases full.len() - n,
        {
            proof {
                assert(full.skip(n)[0] == full[n]);
            }
            let _ = self.queue.pop_front();
            proof {
                assert(full.skip(n).subrange(1, full.skip(n).len() as int) =~= full.skip(n + 1));
                n = n + 1;
            }
        }
        proof {
            if self@.len() > 0 {
                assert(self@[0] == full[n]);
            }
            lemma_older_prefix_len_unique(full, *timestamp, n);
            lemma_ordered_skip(full, n);
        }
    }

    /// Returns references to the stored entries whose timestamp is at or
    /// after `timestamp`, in chronological order: the scan skips the leading
    /// strictly older entries and keeps the whole remaining suffix. If no
    /// entry qualifies, the result is empty.
    #[verifier::loop_isolation(false)]
    pub fn fetch_items_since(&self, timestamp: Timestamp) -> (r: Vec<&(Timestamp, T)>)
        requires
            self.wf(),
        ensures
            r@.len() == self@.len() - older_prefix_len(self@, timestamp),
            forall|i: int|
                0 <= i < r@.len() ==> *(#[trigger] r@[i]) == self@[older_prefix_len(
                    self@,
                    timestamp,
                ) + i],
    {
        let mut idx: usize = 0;
        while idx < self.queue.len() && self.queue[idx].0.lt(&timestamp)
            invariant
                0 <= idx <= self@.len(),
                forall|i: int| 0 <= i < idx ==> (#[trigger] self@[i]).0.lt_spec(timestamp),
            decreases self@.len() - idx,
        {
            idx = idx + 1;
        }
        proof {
            lemma_older_prefix_len_unique(self@, timestamp, idx as int);
        }
        let mut out: Vec<&(Timestamp, T)> = Vec::new();
        let mut j: usize = idx;
        while j < self.queue.len()
            invariant
                idx <= j <= self@.len(),
                out@.len() == j - idx,
                forall|i: int| 0 <= i < out@.len() ==> *(#[trigger] out@[i]) == self@[idx + i],
            decreases self@.len() - j,
        {
            out.push(&self.queue[j]);
            j = j + 1;
        }
        out
    }
}

impl<T> Default for TimewiseDeque<T> {
    /// An empty buffer, the same as `new` returns.
    fn default() -> (r: Self)
        ensures
            r@ == Seq::<(Timestamp, T)>::empty(),
            r.wf(),
    {
        Self::new()
    }
}

/// The entries of `s` whose timestamp is at or after `t`, in their original
/// order.
pub open spec fn entries_since<T>(s: Seq<(Timestamp, T)>, t: Timestamp) -> Seq<(Timestamp, T)> {
    s.filter(|p: (Timestamp, T)| t.le_spec(p.0))
}

/// Removing entries from the back keeps a chronologically ordered sequence
/// ordered.
pub proof fn lemma_ordered_take<T>(s: Seq<(Timestamp, T)>, k: int)
    requires
        entries_ordered(s),
        0 <= k <= s.len(),
    ensures
        entries_ordered(s.take(k)),
{
    let t = s.take(k);
    assert forall|i: int, j: int|
        #![trigger t[i], t[j]]
        0 <= i <= j < t.len() implies t[i].0.le_spec(t[j].0) by {
        assert(t[i] == s[i]);
        assert(t[j] == s[j]);
    }
}

/// Fetch law: in a chronologically ordered sequence, dropping the leading
/// entries strictly older than `t` leaves exactly the subsequence of entries
/// whose timestamp is at or after `t`, in their original order.
pub proof fn lemma_suffix_since_is_filter<T>(s: Seq<(Timestamp, T)>, t: Timestamp)
    requires
        entries_ordered(s),
    ensures
        s.skip(older_prefix_len(s, t) as int) == entries_since(s, t),
    decreases s.len(),
{
    reveal(Seq::filter);
    lemma_older_prefix_len_bounds(s, t);
    let k = older_prefix_len(s, t) as int;
    if s.len() == 0 {
        assert(s.skip(0) =~= entries_since(s, t));
    } else {
        let front = s.drop_last();
        let last = s.last();
        assert(front =~= s.take(s.len() - 1));
        lemma_ordered_take(s, s.len() - 1);
        if t.le_spec(last.0) {
            // the last entry qualifies, so the boundary lies within `front`
            assert(k < s.len());
            assert forall|i: int| 0 <= i < k implies (#[trigger] front[i]).0.lt_spec(t) by {
                assert(s[i].0.lt_spec(t));
            }
            if k < front.len() {
                assert(front[k] == s[k]);
            }
            lemma_older_prefix_len_unique(front, t, k);
            lemma_suffix_since_is_filter(front, t);
            assert(entries_since(s, t) == entries_since(front, t).push(last));
            assert(s.skip(k) =~= front.skip(k).push(last));
        } else {
            // the last entry is strictly older, so by ordering every entry is
            assert forall|i: int| 0 <= i < s.len() implies (#[trigger] s[i]).0.lt_spec(t) by {
                assert(s[i].0.le_spec(s[s.len() - 1].0));
            }
            lemma_older_prefix_len_unique(s, t, s.len() as int);
            assert forall|i: int| 0 <= i < front.len() implies (#[trigger] front[i]).0.lt_spec(
                t,
            ) by {
                assert(s[i].0.lt_spec(t));
            }
            lemma_older_prefix_len_unique(front, t, front.len() as int);
            lemma_suffix_since_is_filter(front, t);
            assert(entries_since(s, t) == entries_since(front, t));
            assert(front.skip(front.len() as int) =~= s.skip(s.len() as int));
        }
    }
}

/// Fetch law: a query time strictly after every stored entry selects nothing.
pub proof fn lemma_since_after_everything_is_empty<T>(s: Seq<(Timestamp, T)>, t: Timestamp)
    requires
        forall|i: int| 0 <= i < s.len() ==> (#[trigger] s[i]).0.lt_spec(t),
    ensures
        older_prefix_len(s, t) == s.len(),
{
    lemma_older_prefix_len_unique(s, t, s.len() as int);
}

} // verus!
