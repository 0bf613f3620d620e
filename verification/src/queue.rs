//! The worklist: states kept in one bucket per cost and handed out from the
//! cheapest bucket on, each bucket first in, first out.
//!
//! A queue is read in one of two ways. [`Queue::pop_remove`] takes the first
//! state out of the current bucket. [`Queue::pop`] leaves the states where
//! they are and counts how many of the current bucket it has handed out.
use vstd::prelude::*;
use crate::state::{State, StateView};

verus! {

/// What a [`Queue`] holds, as plain values: the buckets by cost, and the
/// place from which the next state is handed out.
pub struct QueueView {
    /// The states of each cost, in the order in which they were pushed.
    pub buckets: Seq<Seq<StateView>>,
    /// The bucket that is being handed out.
    pub cost: nat,
    /// How many states at the start of that bucket were handed out and kept.
    pub index: nat,
}

/// The first bucket at or after `from` that holds a state; the number of
/// buckets if none does.
pub open spec fn first_filled(buckets: Seq<Seq<StateView>>, from: nat) -> nat
    decreases buckets.len() - from,
{
    if from >= buckets.len() {
        buckets.len()
    } else if buckets[from as int].len() > 0 {
        from
    } else {
        first_filled(buckets, from + 1)
    }
}

impl QueueView {
    /// The place is within the buckets, and each bucket holds states of its
    /// own cost only.
    pub open spec fn wf(self) -> bool {
        &&& self.cost <= self.buckets.len()
        &&& self.cost < self.buckets.len() ==> self.index <= self.buckets[self.cost as int].len()
        &&& self.cost == self.buckets.len() ==> self.index == 0
        &&& forall|c: int, k: int|
            0 <= c < self.buckets.len() && 0 <= k < self.buckets[c].len() ==>
                (#[trigger] self.buckets[c][k]).cost
                == c
    }

    /// Bucket and offset of the state that is handed out next: the one at the
    /// current place, or else the first of the next bucket that holds any.
    pub open spec fn next_slot(self) -> Option<(nat, nat)> {
        if self.cost < self.buckets.len() && self.index < self.buckets[self.cost as int].len() {
            Some((self.cost, self.index))
        } else {
            let c = first_filled(self.buckets, self.cost + 1);
            if c < self.buckets.len() {
                Some((c, 0nat))
            } else {
                None
            }
        }
    }

    /// The state that is handed out next.
    pub open spec fn next_state(self) -> Option<StateView> {
        match self.next_slot() {
            Some((c, k)) => Some(self.buckets[c as int][k as int]),
            None => None,
        }
    }

    /// The queue after its next state was handed out and kept.
    pub open spec fn after_pop(self) -> QueueView {
        match self.next_slot() {
            Some((c, k)) => QueueView { buckets: self.buckets, cost: c, index: k + 1 },
            None => self,
        }
    }

    /// The bucket whose first state is removed next: the current bucket if it
    /// holds a state, or else the next one that does.
    pub open spec fn front_bucket(self) -> Option<nat> {
        let c = first_filled(self.buckets, self.cost);
        if c < self.buckets.len() {
            Some(c)
        } else {
            None
        }
    }

    /// The state that is removed next: the first of the front bucket.
    pub open spec fn front_state(self) -> Option<StateView> {
        match self.front_bucket() {
            Some(c) => Some(self.buckets[c as int][0]),
            None => None,
        }
    }

    /// The queue after the first state of its front bucket was removed. The
    /// rest of that bucket keeps its order and every other bucket stays. The
    /// front bucket becomes the current one. Where the state removed is one
    /// that was handed out and kept before, the count of the kept states
    /// goes down by one, so that what is handed out and kept next stays the
    /// same.
    pub open spec fn after_pop_remove(self) -> QueueView {
        match self.front_bucket() {
            Some(c) => QueueView {
                buckets: self.buckets.update(c as int, self.buckets[c as int].remove(0)),
                cost: c,
                index: if c == self.cost && self.index > 0 {
                    (self.index - 1) as nat
                } else {
                    0
                },
            },
            None => self,
        }
    }

    /// The queue after `s` was pushed.
    pub open spec fn after_push(self, s: StateView) -> QueueView {
        QueueView {
            buckets: self.buckets.update(s.cost as int, self.buckets[s.cost as int].push(s)),
            cost: self.cost,
            index: self.index,
        }
    }

    /// The state at place `k` of bucket `c` is still to be handed out.
    pub open spec fn pending(self, c: int, k: int) -> bool {
        &&& 0 <= c < self.buckets.len()
        &&& 0 <= k < self.buckets[c].len()
        &&& (c > self.cost || (c == self.cost && k >= self.index))
    }

    /// No state lies in a bucket cheaper than the current one.
    pub open spec fn cheaper_empty(self) -> bool {
        forall|c: int|
            0 <= c < self.cost && c < self.buckets.len() ==> (#[trigger] self.buckets[c]).len() == 0
    }

    /// No state that is still to be handed out costs less than `cost`.
    pub open spec fn none_pending_below(self, cost: nat) -> bool {
        forall|c: int, k: int| self.pending(c, k) ==> cost <= (#[trigger] self.buckets[c][k]).cost
    }

    /// No state in the queue costs less than `cost`.
    pub open spec fn none_below(self, cost: nat) -> bool {
        forall|c: int, k: int|
            0 <= c < self.buckets.len() && 0 <= k < self.buckets[c].len() ==> cost <= (
            #[trigger] self.buckets[c][k]).cost
    }

    /// No bucket holds a state.
    pub open spec fn all_empty(self) -> bool {
        forall|c: int| 0 <= c < self.buckets.len() ==> (#[trigger] self.buckets[c]).len() == 0
    }
}

/// States in buckets by cost.
pub struct Queue {
    q: Vec<Vec<State>>,
    cost: usize,
    index: usize,
}

impl View for Queue {
    type V = QueueView;

    closed spec fn view(&self) -> QueueView {
        QueueView {
            buckets: Seq::new(self.q@.len(), |c: int| Seq::new(self.q@[c]@.len(), |k: int| self.q@[c]@[k]@)),
            cost: self.cost as nat,
            index: self.index as nat,
        }
    }
}

/// Nothing at or after `from` holds a state, up to `to`.
proof fn lemma_first_filled_skip(buckets: Seq<Seq<StateView>>, from: nat, to: nat)
    requires
        from <= to <= buckets.len(),
        forall|c: int| from <= c < to ==> (#[trigger] buckets[c]).len() == 0,
    ensures
        first_filled(buckets, from) == first_filled(buckets, to),
    decreases to - from,
{
    if from < to {
        lemma_first_filled_skip(buckets, from + 1, to);
    }
}

/// The next state to be handed out stands in a bucket at or after the current
/// one, and its cost is that bucket's.
pub proof fn lemma_next_slot(v: QueueView)
    requires
        v.wf(),
    ensures
        match v.next_slot() {
            Some((c, k)) => v.cost <= c < v.buckets.len() && k < v.buckets[c as int].len()
                && v.buckets[c as int][k as int].cost == c && (c == v.cost ==> k == v.index) && (c
                != v.cost ==> k == 0),
            None => true,
        },
{
    lemma_first_filled_bounds(v.buckets, v.cost + 1);
}

/// `first_filled` returns a bucket that holds a state, or the number of
/// buckets.
pub proof fn lemma_first_filled_bounds(buckets: Seq<Seq<StateView>>, from: nat)
    ensures
        from <= first_filled(buckets, from) || first_filled(buckets, from) == buckets.len(),
        first_filled(buckets, from) <= buckets.len(),
        first_filled(buckets, from) < buckets.len() ==>
            buckets[first_filled(buckets, from) as int].len() > 0,
    decreases buckets.len() - from,
{
    if from < buckets.len() && buckets[from as int].len() == 0 {
        lemma_first_filled_bounds(buckets, from + 1);
    }
}

/// The front bucket is the first at or after the current one that holds a
/// state, and its first state costs what the bucket stands for.
pub proof fn lemma_front(v: QueueView)
    requires
        v.wf(),
    ensures
        match v.front_bucket() {
            Some(c) => v.cost <= c < v.buckets.len() && v.buckets[c as int].len() > 0
                && v.buckets[c as int][0].cost == c && forall|b: int|
                v.cost <= b < c ==> (#[trigger] v.buckets[b]).len() == 0,
            None => forall|b: int| v.cost <= b < v.buckets.len() ==> (#[trigger] v.buckets[b]).len() == 0,
        },
{
    lemma_first_filled_bounds(v.buckets, v.cost);
    let c = first_filled(v.buckets, v.cost);
    assert forall|b: int| v.cost <= b < c && b < v.buckets.len() implies (#[trigger] v.buckets[b]).len()
        == 0 by {
        if v.buckets[b].len() > 0 {
            lemma_first_filled_least(v.buckets, v.cost, b);
        }
    }
}

/// Handing out a state, kept or removed, leaves the queue well formed and
/// does not move its place back to a cheaper bucket.
pub proof fn lemma_place_moves_on(q: QueueView)
    requires
        q.wf(),
    ensures
        q.after_pop().wf(),
        q.after_pop_remove().wf(),
        q.cost <= q.after_pop().cost,
        q.cost <= q.after_pop_remove().cost,
{
    lemma_next_slot(q);
    lemma_front(q);
    match q.front_bucket() {
        Some(c) => {
            let r = q.after_pop_remove();
            assert forall|b: int, j: int| 0 <= b < r.buckets.len()
                && 0 <= j < r.buckets[b].len() implies (#[trigger] r.buckets[b][j]).cost
                == b by {
                if b == c {
                    assert(r.buckets[b][j] == q.buckets[b][j + 1]);
                } else {
                    assert(r.buckets[b][j] == q.buckets[b][j]);
                }
            }
        },
        None => {},
    }
}

/// Pushing a state leaves the queue well formed and its place where it is.
pub proof fn lemma_push_keeps_place(q: QueueView, s: StateView)
    requires
        q.wf(),
        s.cost < q.buckets.len(),
    ensures
        q.after_push(s).wf(),
        q.after_push(s).cost == q.cost,
        q.after_push(s).index == q.index,
        q.cheaper_empty() && q.cost <= s.cost ==> q.after_push(s).cheaper_empty(),
{
    let r = q.after_push(s);
    assert forall|b: int, j: int| 0 <= b < r.buckets.len()
        && 0 <= j < r.buckets[b].len() implies (#[trigger] r.buckets[b][j]).cost
        == b by {
        if b == s.cost && j == q.buckets[b].len() {
        } else {
            assert(r.buckets[b][j] == q.buckets[b][j]);
        }
    }
}

/// `first_filled` returns the first bucket that holds a state: no bucket
/// between `from` and it holds one.
pub proof fn lemma_first_filled_least(buckets: Seq<Seq<StateView>>, from: nat, c: int)
    requires
        from <= c < buckets.len(),
        buckets[c].len() > 0,
    ensures
        first_filled(buckets, from) <= c,
    decreases buckets.len() - from,
{
    if from < c && buckets[from as int].len() == 0 {
        lemma_first_filled_least(buckets, from + 1, c);
    }
}

/// Where no state lies in a cheaper bucket, no state of the queue costs less
/// than the bucket that is being handed out.
pub proof fn lemma_nothing_cheaper(q: QueueView)
    requires
        q.wf(),
        q.cheaper_empty(),
    ensures
        q.none_below(q.cost),
{
    assert forall|c: int, k: int| 0 <= c < q.buckets.len() && 0 <= k < q.buckets[c].len() implies q.cost
        <= (#[trigger] q.buckets[c][k]).cost by {
        if c < q.cost {
            assert(q.buckets[c].len() == 0);
        }
    }
}

/// The state that is handed out and kept costs no more than any state that
/// is still to be handed out.
pub proof fn lemma_cheapest_kept(q: QueueView)
    requires
        q.wf(),
        q.next_state() is Some,
    ensures
        q.after_pop().none_pending_below(q.next_state()->0.cost),
{
    lemma_next_slot(q);
    let slot = q.next_slot()->0;
    let c0 = slot.0 as int;
    let kept = q.after_pop();
    assert forall|c: int, k: int| kept.pending(c, k) implies c0 <= (#[trigger] kept.buckets[c][k]).cost by {
        assert(kept.buckets[c][k] == q.buckets[c][k]);
    }
}

/// The cheapest first: where no state lies in a cheaper bucket, the state
/// that is removed costs no more than any state left in the queue, and again
/// no state lies in a cheaper bucket. Nothing is removed only from a queue
/// that holds no state.
pub proof fn lemma_cheapest_first(q: QueueView)
    requires
        q.wf(),
        q.cheaper_empty(),
    ensures
        q.after_pop_remove().cheaper_empty(),
        q.front_state() is None <==> q.all_empty(),
        q.front_state() is Some ==> q.after_pop_remove().none_below(q.front_state()->0.cost),
{
    lemma_front(q);
    lemma_place_moves_on(q);
    let gone = q.after_pop_remove();
    if q.front_bucket() is Some {
        let c0 = q.front_bucket()->0 as int;
        assert(q.buckets[c0].len() > 0);
        assert forall|c: int| 0 <= c < gone.cost && c < gone.buckets.len() implies (
        #[trigger] gone.buckets[c]).len() == 0 by {
            assert(gone.buckets[c] == q.buckets[c]);
        }
        lemma_nothing_cheaper(gone);
    } else {
        assert forall|c: int| 0 <= c < q.buckets.len() implies (#[trigger] q.buckets[c]).len() == 0 by {}
    }
}

/// States are handed out in the order of their costs: a state handed out
/// costs no more than any state handed out at a later time, whatever was
/// pushed in between. This holds of states that are kept and of states that
/// are removed.
pub proof fn lemma_dequeue_order(q: QueueView, later: QueueView)
    requires
        q.wf(),
        later.wf(),
    ensures
        q.next_state() is Some && later.next_state() is Some && q.after_pop().cost <= later.cost
            ==> q.next_state()->0.cost <= later.next_state()->0.cost,
        q.front_state() is Some && later.front_state() is Some && q.after_pop_remove().cost
            <= later.cost ==> q.front_state()->0.cost <= later.front_state()->0.cost,
{
    lemma_next_slot(q);
    lemma_next_slot(later);
    lemma_front(q);
    lemma_front(later);
}

impl Queue {
    /// A queue of `max_cost` empty buckets, for the costs below `max_cost`.
    pub fn new(max_cost: usize) -> (r: Queue)
        ensures
            r@.wf(),
            r@.buckets.len() == max_cost,
            r@.all_empty(),
            r@.cost == 0,
            r@.index == 0,
    {
        let mut q: Vec<Vec<State>> = Vec::new();
        let mut i: usize = 0;
        while i < max_cost
            invariant
                i <= max_cost,
                q@.len() == i,
                forall|c: int| 0 <= c < i ==> (#[trigger] q@[c])@.len() == 0,
            decreases max_cost - i,
        {
            q.push(Vec::new());
            i += 1;
        }
        Queue { q, cost: 0, index: 0 }
    }

    /// Number of buckets: the costs that the queue has room for are those
    /// below it.
    pub fn capacity(&self) -> (n: usize)
        ensures
            n == self@.buckets.len(),
    {
        self.q.len()
    }

    /// The cost of the bucket that is being handed out.
    pub fn current_cost(&self) -> (c: usize)
        ensures
            c == self@.cost,
    {
        self.cost
    }

    /// Moves the place to the next state to hand out, if there is one.
    fn seek(&mut self) -> (found: bool)
        requires
            old(self)@.wf(),
        ensures
            final(self)@.wf(),
            final(self)@.buckets == old(self)@.buckets,
            match old(self)@.next_slot() {
                Some((c, k)) => found && final(self)@.cost == c && final(self)@.index == k,
                None => !found && final(self)@ == old(self)@,
            },
    {
        let n: usize = self.q.len();
        if self.cost < n && self.index < self.q[self.cost].len() {
            return true;
        }
        if self.cost >= n {
            proof {
                lemma_first_filled_bounds(self@.buckets, self@.cost + 1);
            }
            return false;
        }
        let ghost v = self@;
        let mut c: usize = self.cost + 1;
        while c < n
            invariant
                self@ == v,
                v == old(self)@,
                v.wf(),
                n == self.q@.len(),
                n == v.buckets.len(),
                v.cost < c <= n,
                !(v.index < v.buckets[v.cost as int].len()),
                forall|b: int| v.cost + 1 <= b < c ==> (#[trigger] v.buckets[b]).len() == 0,
            decreases n - c,
        {
            if self.q[c].len() > 0 {
                proof {
                    lemma_first_filled_skip(v.buckets, v.cost + 1, c as nat);
                }
                self.cost = c;
                self.index = 0;
                proof {
                    assert(self@.buckets =~~= v.buckets);
                    assert(v.buckets[c as int].len() > 0);
                    assert(first_filled(v.buckets, c as nat) == c);
                }
                return true;
            }
            c += 1;
        }
        proof {
            lemma_first_filled_skip(v.buckets, v.cost + 1, n as nat);
        }
        false
    }

    /// Hands out a copy of the next state and keeps the state in its bucket.
    /// The next state is the one after the last that was handed out from the
    /// current bucket, or else the first of the next bucket that holds any;
    /// with none left the queue stays as it is. The state costs no more than
    /// any state that is still to be handed out.
    pub fn pop(&mut self) -> (r: Option<State>)
        requires
            old(self)@.wf(),
        ensures
            final(self)@.wf(),
            final(self)@ == old(self)@.after_pop(),
            match r {
                Some(s) => old(self)@.next_state() == Some(s@) && s@.cost == final(self)@.cost
                    && final(self)@.none_pending_below(s@.cost),
                None => old(self)@.next_state() is None,
            },
            old(self)@.cost <= final(self)@.cost,
    {
        proof {
            lemma_next_slot(self@);
            if self@.next_state() is Some {
                lemma_cheapest_kept(self@);
            }
        }
        let ghost before = self@;
        if self.seek() {
            assert(before.next_slot() is Some);
            assert(self@.index < before.buckets[self@.cost as int].len());
            assert(self@.buckets[self.cost as int].len() == self.q@[self.cost as int]@.len());
            let held: usize = self.q[self.cost].len();
            let item: State = self.q[self.cost][self.index].clone();
            assert(self.index < held);
            self.index += 1;
            Some(item)
        } else {
            None
        }
    }

    /// The front bucket: the current one if it holds a state, or else the
    /// next one that does.
    fn front(&self) -> (r: Option<usize>)
        requires
            self@.wf(),
        ensures
            match r {
                Some(c) => self@.front_bucket() == Some(c as nat),
                None => self@.front_bucket() is None,
            },
    {
        let n: usize = self.q.len();
        let mut c: usize = self.cost;
        proof {
            lemma_first_filled_bounds(self@.buckets, self@.cost);
        }
        while c < n
            invariant
                n == self.q@.len(),
                n == self@.buckets.len(),
                self@.cost <= c <= n,
                forall|b: int| self@.cost <= b < c ==> (#[trigger] self@.buckets[b]).len() == 0,
            decreases n - c,
        {
            if self.q[c].len() > 0 {
                proof {
                    lemma_first_filled_skip(self@.buckets, self@.cost, c as nat);
                    assert(self@.buckets[c as int].len() > 0);
                    assert(first_filled(self@.buckets, c as nat) == c);
                }
                return Some(c);
            }
            c += 1;
        }
        proof {
            lemma_first_filled_skip(self@.buckets, self@.cost, n as nat);
        }
        None
    }

    /// Removes and hands out the first state of the front bucket: of the
    /// current bucket if it holds a state, or else of the next one that does.
    /// The rest of that bucket keeps its order, and every other bucket stays
    /// as it is. Where no state lies in a cheaper bucket, the state costs no
    /// more than any state left in the queue, and nothing is handed out only
    /// when the queue holds no state.
    pub fn pop_remove(&mut self) -> (r: Option<State>)
        requires
            old(self)@.wf(),
        ensures
            final(self)@.wf(),
            final(self)@ == old(self)@.after_pop_remove(),
            match r {
                Some(s) => old(self)@.front_state() == Some(s@) && s@.cost == final(self)@.cost && (
                old(self)@.cheaper_empty() ==> final(self)@.none_below(s@.cost)),
                None => old(self)@.front_state() is None && (old(self)@.cheaper_empty() ==> old(
                    self,
                )@.all_empty()),
            },
            old(self)@.cost <= final(self)@.cost,
            old(self)@.cheaper_empty() ==> final(self)@.cheaper_empty(),
    {
        let ghost before = self@;
        proof {
            lemma_front(before);
            lemma_place_moves_on(before);
            if before.cheaper_empty() {
                lemma_cheapest_first(before);
            }
        }
        match self.front() {
            Some(c) => {
                assert(before.buckets[c as int].len() == self.q@[c as int]@.len());
                let item: State = self.q[c].remove(0);
                if c == self.cost && self.index > 0 {
                    self.index -= 1;
                } else {
                    self.index = 0;
                }
                self.cost = c;
                proof {
                    assert(self@.buckets =~~= before.buckets.update(
                        c as int,
                        before.buckets[c as int].remove(0),
                    ));
                }
                Some(item)
            },
            None => None,
        }
    }

    /// Puts `s` at the end of the bucket of its cost.
    pub fn push(&mut self, s: State)
        requires
            old(self)@.wf(),
            s@.cost < old(self)@.buckets.len(),
        ensures
            final(self)@.wf(),
            final(self)@ == old(self)@.after_push(s@),
            old(self)@.cheaper_empty() && old(self)@.cost <= s@.cost ==> final(self)@.cheaper_empty(),
    {
        let ghost before = self@;
        let c: usize = s.cost;
        self.q[c].push(s);
        proof {
            assert(self@.buckets =~~= before.buckets.update(c as int, before.buckets[c as int].push(s@)));
        }
    }

    /// Whether no bucket holds a state.
    pub fn is_empty(&self) -> (b: bool)
        ensures
            b == self@.all_empty(),
    {
        let n: usize = self.q.len();
        let mut c: usize = 0;
        while c < n
            invariant
                n == self.q@.len(),
                c <= n,
                forall|b: int| 0 <= b < c ==> (#[trigger] self@.buckets[b]).len() == 0,
            decreases n - c,
        {
            if self.q[c].len() > 0 {
                assert(self@.buckets[c as int].len() > 0);
                return false;
            }
            c += 1;
        }
        true
    }
}

} // verus!
