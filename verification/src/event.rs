//! Simulated time and the queue of pending wake-ups.

use vstd::prelude::*;
use crate::data::Object;
use crate::prelude::Fault;

verus! {

/// An absolute simulated time. It is held as an integer key: a later time has
/// a larger key, and two keys are equal exactly when the times are.
#[derive(Clone, Copy, PartialEq, Eq, Structural, Debug)]
pub struct Time {
    pub key: u64,
}

/// What an object keeps of its pending wake-up: when it is due and the
/// identifier under which the queue holds it.
#[derive(Clone, Copy, PartialEq, Eq, Structural, Debug)]
pub struct EventHandle(pub Time, pub usize);

/// A wake-up: the object to resume, the algorithm to resume it in, and the
/// program counter at which it goes on.
#[derive(Debug)]
pub struct Event {
    pub object: Object,
    pub action_name: String,
    pub pc: usize,
}

pub struct EventView {
    pub object: Object,
    pub action_name: Seq<char>,
    pub pc: usize,
}

impl View for Event {
    type V = EventView;

    open spec fn view(&self) -> EventView {
        EventView { object: self.object, action_name: self.action_name@, pc: self.pc }
    }
}

/// A pending wake-up with the time at which it is due and its identifier.
#[derive(Debug)]
pub struct Pending {
    pub time: Time,
    pub id: usize,
    pub event: Event,
}

pub struct PendingView {
    pub time: Time,
    pub id: usize,
    pub event: EventView,
}

impl View for Pending {
    type V = PendingView;

    open spec fn view(&self) -> PendingView {
        PendingView { time: self.time, id: self.id, event: self.event@ }
    }
}

/// The queue as a value: the current time, the identifier that the next
/// wake-up will get, and the pending wake-ups, the next one to fire first.
pub struct QueueView {
    pub now: Time,
    pub next_id: usize,
    pub pending: Seq<PendingView>,
}

/// Whether `a` fires before `b`: earlier time first, and at equal times the
/// one that was put in first.
pub open spec fn fires_before(a: PendingView, b: PendingView) -> bool {
    a.time.key < b.time.key || (a.time.key == b.time.key && a.id < b.id)
}

/// Number of wake-ups of `p` that are due at `t` or before: the place where
/// a new wake-up for `t` goes in.
pub open spec fn queue_slot(p: Seq<PendingView>, t: Time) -> int
    decreases p.len(),
{
    if p.len() == 0 {
        0
    } else if p.last().time.key <= t.key {
        p.len() as int
    } else {
        queue_slot(p.drop_last(), t)
    }
}

/// Index of the pending wake-up with identifier `id`.
pub open spec fn queue_find(p: Seq<PendingView>, id: usize) -> Option<int>
    decreases p.len(),
{
    if p.len() == 0 {
        None
    } else if p.last().id == id && queue_find(p.drop_last(), id) is None {
        Some(p.len() - 1)
    } else {
        queue_find(p.drop_last(), id)
    }
}

impl QueueView {
    /// The wake-ups are in firing order, none is due before now, no two
    /// have the same identifier, and every identifier in use lies below the
    /// next one to be given.
    pub open spec fn wf(self) -> bool {
        &&& forall|i: int, j: int|
            #![trigger self.pending[i], self.pending[j]]
            0 <= i < j < self.pending.len() ==> fires_before(self.pending[i], self.pending[j])
                && self.pending[i].id != self.pending[j].id
        &&& forall|i: int|
            0 <= i < self.pending.len() ==> (#[trigger] self.pending[i]).id < self.next_id
                && self.now.key <= self.pending[i].time.key
    }

    /// Whether a wake-up with identifier `id` is pending.
    pub open spec fn holds(self, id: usize) -> bool {
        exists|i: int| 0 <= i < self.pending.len() && (#[trigger] self.pending[i]).id == id
    }

    /// The queue after `event` was put in for time `time`.
    pub open spec fn enqueue(self, event: EventView, time: Time) -> QueueView {
        let due = if time.key < self.now.key {
            self.now
        } else {
            time
        };
        QueueView {
            now: self.now,
            next_id: (self.next_id + 1) as usize,
            pending: self.pending.insert(
                queue_slot(self.pending, due),
                PendingView { time: due, id: self.next_id, event },
            ),
        }
    }

    /// Index of the wake-up that `cancel` takes out for `(time, id)`.
    pub open spec fn target(self, time: Time, id: usize) -> Option<int> {
        match queue_find(self.pending, id) {
            Some(i) => if self.pending[i].time == time {
                Some(i)
            } else {
                None
            },
            None => None,
        }
    }

    /// The queue after the wake-up `(time, id)` was cancelled.
    pub open spec fn cancel(self, time: Time, id: usize) -> QueueView {
        match self.target(time, id) {
            Some(i) => QueueView { pending: self.pending.remove(i), ..self },
            None => self,
        }
    }

    /// The queue after its first wake-up fired: time has moved on to it.
    pub open spec fn advance(self) -> QueueView {
        if self.pending.len() == 0 {
            self
        } else {
            QueueView {
                now: if self.now.key < self.pending[0].time.key {
                    self.pending[0].time
                } else {
                    self.now
                },
                next_id: self.next_id,
                pending: self.pending.remove(0),
            }
        }
    }
}

pub proof fn lemma_queue_find(p: Seq<PendingView>, id: usize)
    ensures
        match queue_find(p, id) {
            Some(i) => 0 <= i < p.len() && p[i].id == id && forall|j: int|
                0 <= j < i ==> (#[trigger] p[j]).id != id,
            None => forall|j: int| 0 <= j < p.len() ==> (#[trigger] p[j]).id != id,
        },
    decreases p.len(),
{
    if p.len() > 0 {
        let t = p.drop_last();
        lemma_queue_find(t, id);
        assert(forall|j: int| 0 <= j < t.len() ==> t[j] == p[j]);
    }
}

/// In a queue in firing order, `queue_slot` is the boundary between the
/// wake-ups due at `t` or before and those due later.
pub proof fn lemma_queue_slot(p: Seq<PendingView>, t: Time)
    requires
        forall|i: int, j: int| 0 <= i < j < p.len() ==> fires_before(p[i], p[j]),
    ensures
        0 <= queue_slot(p, t) <= p.len(),
        forall|j: int| 0 <= j < queue_slot(p, t) ==> (#[trigger] p[j]).time.key <= t.key,
        forall|j: int| queue_slot(p, t) <= j < p.len() ==> (#[trigger] p[j]).time.key > t.key,
    decreases p.len(),
{
    if p.len() > 0 {
        let q = p.drop_last();
        assert(forall|j: int| 0 <= j < q.len() ==> q[j] == p[j]);
        if p.last().time.key <= t.key {
            assert forall|j: int| 0 <= j < p.len() implies (#[trigger] p[j]).time.key
                <= t.key by {
                if j < p.len() - 1 {
                    assert(fires_before(p[j], p[p.len() - 1]));
                }
            }
        } else {
            lemma_queue_slot(q, t);
        }
    }
}

/// The pending wake-ups, ordered by time and, at equal times, by the order in
/// which they were put in.
#[derive(Debug)]
pub struct EventQueue {
    pub now: Time,
    pub next_id: usize,
    pub pending: Vec<Pending>,
}

impl View for EventQueue {
    type V = QueueView;

    open spec fn view(&self) -> QueueView {
        QueueView {
            now: self.now,
            next_id: self.next_id,
            pending: Seq::new(self.pending@.len(), |i: int| self.pending@[i]@),
        }
    }
}

impl EventQueue {
    /// An empty queue whose clock stands at `now`.
    pub fn new(now: Time) -> (r: Self)
        ensures
            r@ == (QueueView { now, next_id: 0, pending: Seq::empty() }),
            r@.wf(),
    {
        let r = EventQueue { now, next_id: 0, pending: Vec::new() };
        assert(r@.pending =~= Seq::empty());
        r
    }

    /// The current simulated time.
    pub fn now(&self) -> (t: Time)
        ensures
            t == self@.now,
    {
        self.now
    }

    pub fn is_empty(&self) -> (r: bool)
        ensures
            r == (self@.pending.len() == 0),
    {
        self.pending.len() == 0
    }

    pub fn len(&self) -> (n: usize)
        ensures
            n == self@.pending.len(),
    {
        self.pending.len()
    }

    /// Puts `event` in for the absolute time `time` (for now, where `time`
    /// lies in the past) and returns the identifier to cancel it by. Fails
    /// when no identifier is left.
    pub fn enqueue_absolute(&mut self, event: Event, time: Time) -> (r: Result<usize, Fault>)
        requires
            old(self)@.wf(),
        ensures
            match r {
                Ok(id) => id == old(self)@.next_id && old(self)@.next_id < usize::MAX && final(self)@ == old(self)@.enqueue(event@, time),
                Err(e) => e == Fault::LimitReached && old(self)@.next_id == usize::MAX && final(self)@ == old(self)@,
            },
            final(self)@.wf(),
    {
        if self.next_id == usize::MAX {
            return Err(Fault::LimitReached);
        }
        let due = if time.key < self.now.key {
            self.now
        } else {
            time
        };
        let id = self.next_id;
        let n = self.pending.len();
        let ghost before = self@;
        let mut slot: usize = n;
        proof {
            lemma_queue_slot(before.pending, due);
        }
        while slot > 0 && self.pending[slot - 1].time.key > due.key
            invariant
                self@ == before,
                n == self.pending@.len(),
                slot <= n,
                forall|j: int| slot <= j < n ==> (#[trigger] before.pending[j]).time.key > due.key,
            decreases slot,
        {
            assert(before.pending[slot - 1] == self.pending@[slot - 1]@);
            slot -= 1;
        }
        proof {
            if slot > 0 {
                assert(before.pending[slot - 1] == self.pending@[slot - 1]@);
            }
            assert(slot == queue_slot(before.pending, due)) by {
                let k = queue_slot(before.pending, due);
                if k < slot {
                    assert(before.pending[slot - 1].time.key > due.key);
                }
                if k > slot {
                    assert(before.pending[slot as int].time.key <= due.key);
                }
            }
        }
        self.pending.insert(slot, Pending { time: due, id, event });
        self.next_id = id + 1;
        proof {
            let entry = PendingView { time: due, id, event: event@ };
            assert(self@.pending =~= before.pending.insert(slot as int, entry));
            lemma_enqueue_wf(before, event@, time);
        }
        Ok(id)
    }

    /// Takes the wake-up `(time, id)` out and says whether it was pending.
    pub fn cancel_event(&mut self, time: Time, id: usize) -> (r: bool)
        requires
            old(self)@.wf(),
        ensures
            final(self)@ == old(self)@.cancel(time, id),
            r == old(self)@.target(time, id).is_some(),
            final(self)@.wf(),
    {
        let n = self.pending.len();
        let ghost before = self@;
        let mut i: usize = 0;
        proof {
            lemma_queue_find(before.pending, id);
        }
        while i < n
            invariant
                self@ == before,
                before == old(self)@,
                before.wf(),
                n == self.pending@.len(),
                i <= n,
                forall|j: int| 0 <= j < i ==> (#[trigger] before.pending[j]).id != id,
            decreases n - i,
        {
            if self.pending[i].id == id {
                assert(before.pending[i as int] == self.pending@[i as int]@);
                proof {
                    lemma_queue_find(before.pending, id);
                }
                if self.pending[i].time.key == time.key {
                    let _ = self.pending.remove(i);
                    proof {
                        assert(self@.pending =~= before.pending.remove(i as int));
                        lemma_cancel_wf(before, time, id);
                    }
                    return true;
                } else {
                    return false;
                }
            }
            assert(before.pending[i as int] == self.pending@[i as int]@);
            i += 1;
        }
        false
    }

    /// Takes the next wake-up out, moves the clock on to its time and returns
    /// it; `None`, and nothing changed, where none is pending.
    pub fn pop(&mut self) -> (r: Option<Event>)
        requires
            old(self)@.wf(),
        ensures
            final(self)@ == old(self)@.advance(),
            match r {
                Some(e) => old(self)@.pending.len() > 0 && e@ == old(self)@.pending[0].event,
                None => old(self)@.pending.len() == 0,
            },
            final(self)@.wf(),
    {
        if self.pending.len() == 0 {
            return None;
        }
        let ghost before = self@;
        let first = self.pending.remove(0);
        assert(first@ == before.pending[0]);
        if self.now.key < first.time.key {
            self.now = first.time;
        }
        proof {
            assert(self@.pending =~= before.pending.remove(0));
            lemma_advance_wf(before);
        }
        Some(first.event)
    }
}

/// Putting a wake-up in keeps the queue well formed.
pub proof fn lemma_enqueue_wf(q: QueueView, event: EventView, time: Time)
    requires
        q.wf(),
        q.next_id < usize::MAX,
    ensures
        q.enqueue(event, time).wf(),
{
    let due = if time.key < q.now.key {
        q.now
    } else {
        time
    };
    lemma_queue_slot(q.pending, due);
    let k = queue_slot(q.pending, due);
    let entry = PendingView { time: due, id: q.next_id, event };
    let r = q.enqueue(event, time);
    assert forall|i: int, j: int| 0 <= i < j < r.pending.len() implies fires_before(
        r.pending[i],
        r.pending[j],
    ) && r.pending[i].id != r.pending[j].id by {
        if i < k && j > k {
            assert(fires_before(q.pending[i], q.pending[j - 1]));
        } else if i < k && j == k {
            assert(q.pending[i].time.key <= due.key);
            assert(q.pending[i].id < q.next_id);
        } else if i == k {
            assert(q.pending[j - 1].time.key > due.key);
            assert(q.pending[j - 1].id < q.next_id);
        } else if i > k {
            assert(fires_before(q.pending[i - 1], q.pending[j - 1]));
        } else {
            assert(fires_before(q.pending[i], q.pending[j]));
        }
    }
    assert forall|i: int| 0 <= i < r.pending.len() implies (#[trigger] r.pending[i]).id
        < r.next_id && r.now.key <= r.pending[i].time.key by {
        if i < k {
            assert(q.pending[i].id < q.next_id);
        } else if i > k {
            assert(q.pending[i - 1].id < q.next_id);
        }
    }
}

/// Cancelling keeps the queue well formed.
pub proof fn lemma_cancel_wf(q: QueueView, time: Time, id: usize)
    requires
        q.wf(),
    ensures
        q.cancel(time, id).wf(),
{
    lemma_queue_find(q.pending, id);
    match q.target(time, id) {
        Some(k) => {
            let r = q.cancel(time, id);
            assert forall|i: int, j: int| 0 <= i < j < r.pending.len() implies fires_before(
                r.pending[i],
                r.pending[j],
            ) && r.pending[i].id != r.pending[j].id by {
                let a = if i < k {
                    i
                } else {
                    i + 1
                };
                let b = if j < k {
                    j
                } else {
                    j + 1
                };
                assert(fires_before(q.pending[a], q.pending[b]));
            }
            assert forall|i: int| 0 <= i < r.pending.len() implies (#[trigger] r.pending[i]).id
                < r.next_id && r.now.key <= r.pending[i].time.key by {
                let a = if i < k {
                    i
                } else {
                    i + 1
                };
                assert(q.pending[a].id < q.next_id);
            }
        },
        None => {},
    }
}

/// Firing the first wake-up keeps the queue well formed.
pub proof fn lemma_advance_wf(q: QueueView)
    requires
        q.wf(),
    ensures
        q.advance().wf(),
{
    if q.pending.len() > 0 {
        let r = q.advance();
        assert(q.pending[0].id < q.next_id);
        assert forall|i: int, j: int| 0 <= i < j < r.pending.len() implies fires_before(
            r.pending[i],
            r.pending[j],
        ) && r.pending[i].id != r.pending[j].id by {
            assert(fires_before(q.pending[i + 1], q.pending[j + 1]) && q.pending[i + 1].id
                != q.pending[j + 1].id);
            assert(r.pending[i] == q.pending[i + 1]);
            assert(r.pending[j] == q.pending[j + 1]);
        }
        assert forall|i: int| 0 <= i < r.pending.len() implies (#[trigger] r.pending[i]).id
            < r.next_id && r.now.key <= r.pending[i].time.key by {
            assert(q.pending[i + 1].id < q.next_id);
            assert(fires_before(q.pending[0], q.pending[i + 1]));
        }
    }
}

/// A wake-up that is put in and then cancelled by its handle leaves the
/// pending wake-ups as they were: it was pending exactly once in between, at
/// the time asked for, and is pending no more.
pub proof fn law_enqueue_cancel(q: QueueView, event: EventView, time: Time)
    requires
        q.wf(),
        q.next_id < usize::MAX,
        q.now.key <= time.key,
    ensures
        ({
            let id = q.next_id;
            let put = q.enqueue(event, time);
            let back = put.cancel(time, id);
            &&& put.pending.len() == q.pending.len() + 1
            &&& put.target(time, id) is Some
            &&& put.pending[put.target(time, id).unwrap()] == (PendingView { time, id, event })
            &&& forall|i: int|
                0 <= i < put.pending.len() && (#[trigger] put.pending[i]).id == id ==> Some(i)
                    == put.target(time, id)
            &&& back.pending == q.pending
            &&& back.now == q.now
            &&& !back.holds(id)
        }),
{
    let id = q.next_id;
    let put = q.enqueue(event, time);
    lemma_queue_slot(q.pending, time);
    let k = queue_slot(q.pending, time);
    lemma_queue_find(put.pending, id);
    assert(put.pending[k].id == id);
    assert forall|i: int| 0 <= i < put.pending.len() && i != k implies (
    #[trigger] put.pending[i]).id != id by {
        if i < k {
            assert(q.pending[i].id < q.next_id);
        } else {
            assert(q.pending[i - 1].id < q.next_id);
        }
    }
    assert(queue_find(put.pending, id) == Some(k));
    assert(put.pending.remove(k) =~= q.pending);
    let back = put.cancel(time, id);
    assert forall|i: int| 0 <= i < back.pending.len() implies (#[trigger] back.pending[i]).id
        != id by {
        assert(q.pending[i].id < q.next_id);
    }
}

/// A wake-up that is not pending, under an identifier that was given out
/// before, never becomes pending again and never fires: whatever is put in,
/// cancelled or fired next, the queue does not hold it, and the wake-up that
/// fires next is another one.
pub proof fn law_cancelled_never_fires(
    q: QueueView,
    gone: usize,
    event: EventView,
    time: Time,
    id: usize,
)
    requires
        q.wf(),
        gone < q.next_id,
        !q.holds(gone),
    ensures
        q.next_id < usize::MAX ==> !q.enqueue(event, time).holds(gone) && gone < q.enqueue(
            event,
            time,
        ).next_id,
        !q.cancel(time, id).holds(gone),
        !q.advance().holds(gone),
        q.pending.len() > 0 ==> q.pending[0].id != gone,
{
    if q.next_id < usize::MAX {
        let due = if time.key < q.now.key {
            q.now
        } else {
            time
        };
        lemma_queue_slot(q.pending, due);
        let k = queue_slot(q.pending, due);
        let r = q.enqueue(event, time);
        assert forall|i: int| 0 <= i < r.pending.len() implies (#[trigger] r.pending[i]).id
            != gone by {
            if i < k {
                assert(q.pending[i].id != gone);
            } else if i > k {
                assert(q.pending[i - 1].id != gone);
            }
        }
    }
    lemma_queue_find(q.pending, id);
    match q.target(time, id) {
        Some(k) => {
            let r = q.cancel(time, id);
            assert forall|i: int| 0 <= i < r.pending.len() implies (#[trigger] r.pending[i]).id
                != gone by {
                if i < k {
                    assert(q.pending[i].id != gone);
                } else {
                    assert(q.pending[i + 1].id != gone);
                }
            }
        },
        None => {},
    }
    if q.pending.len() > 0 {
        let r = q.advance();
        assert(q.pending[0].id != gone);
        assert forall|i: int| 0 <= i < r.pending.len() implies (#[trigger] r.pending[i]).id
            != gone by {
            assert(q.pending[i + 1].id != gone);
        }
    }
}

/// In a well-formed queue two pending wake-ups have different identifiers.
pub proof fn lemma_distinct_ids(q: QueueView, i: int, j: int)
    requires
        q.wf(),
        0 <= i < q.pending.len(),
        0 <= j < q.pending.len(),
        i != j,
    ensures
        q.pending[i].id != q.pending[j].id,
{
    if i < j {
        assert(fires_before(q.pending[i], q.pending[j]));
    } else {
        assert(fires_before(q.pending[j], q.pending[i]));
    }
}

} // verus!
