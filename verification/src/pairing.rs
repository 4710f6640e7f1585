//! Wake-ups and their handles: every pending wake-up is the one that its
//! object holds the handle of, so no object has two.

use vstd::prelude::*;
use crate::data::{DataView, Object, ObjectDataView, OutputView, TotemView};
use crate::event::{
    lemma_advance_wf, lemma_cancel_wf, lemma_distinct_ids, lemma_enqueue_wf, lemma_queue_find,
    lemma_queue_slot,
    queue_find, queue_slot, EventHandle, EventView, PendingView, QueueView, Time,
};
use crate::frame::{kept_by_store, law_resume_keeps, Property};
use crate::instance::Flop;
use crate::item::TypesView;
use crate::semantics::{pump, resume, Limits, World};

verus! {

/// The handle under which a pending wake-up can be cancelled.
pub open spec fn handle_of(p: PendingView) -> EventHandle {
    EventHandle(p.time, p.id)
}

/// Whether wake-ups and handles are paired: the queue is well formed, every
/// pending wake-up is for an object of the store that holds its handle, and
/// every handle that an object holds is that of a pending wake-up for it.
pub open spec fn paired(t: TotemView) -> bool {
    &&& t.queue.wf()
    &&& forall|i: int|
        0 <= i < t.queue.pending.len() ==> t.has((#[trigger] t.queue.pending[i]).event.object)
            && t.objects[t.queue.pending[i].event.object as int].event == Some(
            handle_of(t.queue.pending[i]),
        )
    &&& forall|x: int|
        0 <= x < t.objects.len() && (#[trigger] t.objects[x]).event is Some ==> exists|i: int|
            0 <= i < t.queue.pending.len() && #[trigger] handle_of(t.queue.pending[i])
                == t.objects[x].event->Some_0 && t.queue.pending[i].event.object == x
}

/// Pairing as a property of stores.
pub open spec fn pairing() -> Property {
    |t: TotemView| paired(t)
}

/// In a well-formed queue the handle of a pending wake-up leads to it.
pub proof fn lemma_target(q: QueueView, i: int)
    requires
        q.wf(),
        0 <= i < q.pending.len(),
    ensures
        q.target(q.pending[i].time, q.pending[i].id) == Some(i),
{
    lemma_queue_find(q.pending, q.pending[i].id);
    let k = queue_find(q.pending, q.pending[i].id).unwrap();
    if k != i {
        lemma_distinct_ids(q, k, i);
    }
}

/// No object has two pending wake-ups.
pub proof fn law_one_wake_up_per_object(t: TotemView, i: int, j: int)
    requires
        paired(t),
        0 <= i < t.queue.pending.len(),
        0 <= j < t.queue.pending.len(),
        t.queue.pending[i].event.object == t.queue.pending[j].event.object,
    ensures
        i == j,
{
    assert(handle_of(t.queue.pending[i]) == handle_of(t.queue.pending[j]));
    if i != j {
        lemma_distinct_ids(t.queue, i, j);
    }
}

/// An object without a handle has no pending wake-up.
pub proof fn lemma_no_handle_no_wake_up(t: TotemView, x: Object)
    requires
        paired(t),
        t.has(x),
        t.objects[x as int].event is None,
    ensures
        forall|i: int|
            0 <= i < t.queue.pending.len() ==> (#[trigger] t.queue.pending[i]).event.object != x,
{
}

/// Cancelling the wake-up of an object keeps the pairing and leaves the
/// object without a handle.
pub proof fn lemma_cancel_keeps(t: TotemView, x: Object)
    requires
        paired(t),
        t.has(x),
    ensures
        paired(t.cancel_pending(x)),
        t.cancel_pending(x).objects[x as int].event is None,
        t.cancel_pending(x).objects.len() == t.objects.len(),
        t.cancel_pending(x).queue.next_id == t.queue.next_id,
{
    match t.objects[x as int].event {
        None => {},
        Some(h) => {
            let i = choose|i: int|
                0 <= i < t.queue.pending.len() && #[trigger] handle_of(t.queue.pending[i]) == h
                    && t.queue.pending[i].event.object == x;
            lemma_target(t.queue, i);
            lemma_cancel_wf(t.queue, h.0, h.1);
            let r = t.cancel_pending(x);
            assert(r.queue.pending == t.queue.pending.remove(i));
            assert forall|j: int| 0 <= j < r.queue.pending.len() implies r.has(
                (#[trigger] r.queue.pending[j]).event.object,
            ) && r.objects[r.queue.pending[j].event.object as int].event == Some(
                handle_of(r.queue.pending[j]),
            ) by {
                let old = if j < i {
                    j
                } else {
                    j + 1
                };
                let e = t.queue.pending[old];
                assert(r.queue.pending[j] == e);
                if e.event.object == x {
                    assert(handle_of(e) == handle_of(t.queue.pending[i]));
                    lemma_distinct_ids(t.queue, old, i);
                }
            }
            assert forall|y: int|
                0 <= y < r.objects.len() && (#[trigger] r.objects[y]).event is Some implies exists|
                j: int,
            |
                0 <= j < r.queue.pending.len() && #[trigger] handle_of(r.queue.pending[j])
                    == r.objects[y].event->Some_0 && r.queue.pending[j].event.object == y by {
                assert(y != x);
                assert(t.objects[y].event is Some);
                let k = choose|k: int|
                    0 <= k < t.queue.pending.len() && #[trigger] handle_of(t.queue.pending[k])
                        == t.objects[y].event->Some_0 && t.queue.pending[k].event.object == y;
                assert(k != i);
                let j = if k < i {
                    k
                } else {
                    k - 1
                };
                assert(r.queue.pending[j] == t.queue.pending[k]);
                assert(handle_of(r.queue.pending[j]) == r.objects[y].event->Some_0);
            }
        },
    }
}

/// A change of an object that leaves its handle alone keeps the pairing.
pub proof fn lemma_update_keeps(t: TotemView, x: Object, o: ObjectDataView)
    requires
        paired(t),
        t.has(x),
        o.event == t.objects[x as int].event,
    ensures
        paired(TotemView { objects: t.objects.update(x as int, o), ..t }),
{
    let r = TotemView { objects: t.objects.update(x as int, o), ..t };
    assert forall|j: int| 0 <= j < r.queue.pending.len() implies r.has(
        (#[trigger] r.queue.pending[j]).event.object,
    ) && r.objects[r.queue.pending[j].event.object as int].event == Some(
        handle_of(r.queue.pending[j]),
    ) by {
        assert(t.has(t.queue.pending[j].event.object));
    }
    assert forall|y: int|
        0 <= y < r.objects.len() && (#[trigger] r.objects[y]).event is Some implies exists|j: int|
        0 <= j < r.queue.pending.len() && #[trigger] handle_of(r.queue.pending[j])
            == r.objects[y].event->Some_0 && r.queue.pending[j].event.object == y by {
        assert(t.objects[y].event is Some);
        let k = choose|k: int|
            0 <= k < t.queue.pending.len() && #[trigger] handle_of(t.queue.pending[k])
                == t.objects[y].event->Some_0 && t.queue.pending[k].event.object == y;
        assert(handle_of(r.queue.pending[k]) == r.objects[y].event->Some_0);
    }
}

/// Putting a wake-up in for an object keeps the pairing.
pub proof fn lemma_schedule_keeps(
    t: TotemView,
    x: Object,
    action_name: Seq<char>,
    pc: usize,
    time: Time,
)
    requires
        paired(t),
        t.has(x),
        t.queue.next_id < usize::MAX,
    ensures
        paired(t.schedule(x, action_name, pc, time)),
{
    lemma_cancel_keeps(t, x);
    let c = t.cancel_pending(x);
    lemma_no_handle_no_wake_up(c, x);
    let event = EventView { object: x, action_name, pc };
    lemma_enqueue_wf(c.queue, event, time);
    let due = if time.key < c.queue.now.key {
        c.queue.now
    } else {
        time
    };
    lemma_queue_slot(c.queue.pending, due);
    let s = queue_slot(c.queue.pending, due);
    let entry = PendingView { time: due, id: c.queue.next_id, event };
    let r = t.schedule(x, action_name, pc, time);
    assert(r.queue.pending == c.queue.pending.insert(s, entry));
    assert forall|j: int| 0 <= j < r.queue.pending.len() implies r.has(
        (#[trigger] r.queue.pending[j]).event.object,
    ) && r.objects[r.queue.pending[j].event.object as int].event == Some(
        handle_of(r.queue.pending[j]),
    ) by {
        if j != s {
            let old = if j < s {
                j
            } else {
                j - 1
            };
            assert(r.queue.pending[j] == c.queue.pending[old]);
            assert(c.has(c.queue.pending[old].event.object));
        }
    }
    assert forall|y: int|
        0 <= y < r.objects.len() && (#[trigger] r.objects[y]).event is Some implies exists|j: int|
        0 <= j < r.queue.pending.len() && #[trigger] handle_of(r.queue.pending[j])
            == r.objects[y].event->Some_0 && r.queue.pending[j].event.object == y by {
        if y == x {
            assert(handle_of(r.queue.pending[s]) == r.objects[y].event->Some_0);
        } else {
            assert(c.objects[y].event is Some);
            let k = choose|k: int|
                0 <= k < c.queue.pending.len() && #[trigger] handle_of(c.queue.pending[k])
                    == c.objects[y].event->Some_0 && c.queue.pending[k].event.object == y;
            let j = if k < s {
                k
            } else {
                k + 1
            };
            assert(r.queue.pending[j] == c.queue.pending[k]);
            assert(handle_of(r.queue.pending[j]) == r.objects[y].event->Some_0);
        }
    }
}

/// A fresh object and a line of output keep the pairing.
pub proof fn lemma_growth_keeps(t: TotemView, object_type: Seq<char>, line: OutputView)
    requires
        paired(t),
    ensures
        paired(t.with_fresh(object_type)),
        paired(t.emit(line)),
{
    let r = t.with_fresh(object_type);
    assert forall|j: int| 0 <= j < r.queue.pending.len() implies r.has(
        (#[trigger] r.queue.pending[j]).event.object,
    ) && r.objects[r.queue.pending[j].event.object as int].event == Some(
        handle_of(r.queue.pending[j]),
    ) by {
        assert(t.has(t.queue.pending[j].event.object));
    }
    assert forall|y: int|
        0 <= y < r.objects.len() && (#[trigger] r.objects[y]).event is Some implies exists|j: int|
        0 <= j < r.queue.pending.len() && #[trigger] handle_of(r.queue.pending[j])
            == r.objects[y].event->Some_0 && r.queue.pending[j].event.object == y by {
        assert(y < t.objects.len());
        assert(t.objects[y].event is Some);
        let k = choose|k: int|
            0 <= k < t.queue.pending.len() && #[trigger] handle_of(t.queue.pending[k])
                == t.objects[y].event->Some_0 && t.queue.pending[k].event.object == y;
        assert(handle_of(r.queue.pending[k]) == r.objects[y].event->Some_0);
    }
}

/// Every operation of the store keeps the pairing.
pub proof fn law_store_keeps_pairing()
    ensures
        kept_by_store(pairing()),
{
    let inv = pairing();
    assert forall|t: TotemView, line: OutputView| inv(t) implies #[trigger] inv(t.emit(line)) by {
        lemma_growth_keeps(t, Seq::empty(), line);
    }
    assert forall|t: TotemView, object_type: Seq<char>| inv(t) implies #[trigger] inv(
        t.with_fresh(object_type),
    ) by {
        lemma_growth_keeps(t, object_type, OutputView::Text(Seq::empty()));
    }
    assert forall|t: TotemView, x: Object| inv(t) && t.has(x) implies #[trigger] inv(
        t.cancel_pending(x),
    ) by {
        lemma_cancel_keeps(t, x);
    }
    assert forall|t: TotemView, x: Object| inv(t) && t.has(x) implies #[trigger] inv(
        t.clear_state(x),
    ) by {
        lemma_cancel_keeps(t, x);
        let c = t.cancel_pending(x);
        lemma_update_keeps(
            c,
            x,
            ObjectDataView { data: Seq::empty(), resting: false, ..c.objects[x as int] },
        );
    }
    assert forall|t: TotemView, x: Object, name: Seq<char>, data: DataView|
        inv(t) && t.has(x) implies #[trigger] inv(t.set_state(x, name, data)) by {
        lemma_cancel_keeps(t, x);
        let c = t.cancel_pending(x);
        lemma_update_keeps(
            c,
            x,
            ObjectDataView { state_name: name, data, resting: true, ..c.objects[x as int] },
        );
    }
    assert forall|t: TotemView, x: Object, action_name: Seq<char>, pc: usize, time: Time|
        inv(t) && t.has(x) && t.queue.next_id < usize::MAX implies #[trigger] inv(
            t.schedule(x, action_name, pc, time),
        ) by {
        lemma_schedule_keeps(t, x, action_name, pc, time);
    }
}

/// When the first wake-up fires and its object gives up its bundle and its
/// handle, the pairing is kept.
pub proof fn lemma_fire_keeps(t: TotemView)
    requires
        paired(t),
        t.queue.pending.len() > 0,
    ensures
        t.has(t.queue.pending[0].event.object),
        paired(
            (TotemView { queue: t.queue.advance(), ..t }).take_data(
                t.queue.pending[0].event.object,
            ),
        ),
{
    let first = t.queue.pending[0];
    let x = first.event.object;
    lemma_advance_wf(t.queue);
    let r = (TotemView { queue: t.queue.advance(), ..t }).take_data(x);
    assert(r.queue.pending == t.queue.pending.remove(0));
    assert forall|j: int| 0 <= j < r.queue.pending.len() implies r.has(
        (#[trigger] r.queue.pending[j]).event.object,
    ) && r.objects[r.queue.pending[j].event.object as int].event == Some(
        handle_of(r.queue.pending[j]),
    ) by {
        let e = t.queue.pending[j + 1];
        assert(r.queue.pending[j] == e);
        if e.event.object == x {
            assert(handle_of(e) == handle_of(first));
            lemma_distinct_ids(t.queue, 0, j + 1);
        }
    }
    assert forall|y: int|
        0 <= y < r.objects.len() && (#[trigger] r.objects[y]).event is Some implies exists|j: int|
        0 <= j < r.queue.pending.len() && #[trigger] handle_of(r.queue.pending[j])
            == r.objects[y].event->Some_0 && r.queue.pending[j].event.object == y by {
        assert(y != x);
        assert(t.objects[y].event is Some);
        let k = choose|k: int|
            0 <= k < t.queue.pending.len() && #[trigger] handle_of(t.queue.pending[k])
                == t.objects[y].event->Some_0 && t.queue.pending[k].event.object == y;
        assert(k != 0);
        assert(r.queue.pending[k - 1] == t.queue.pending[k]);
        assert(handle_of(r.queue.pending[k - 1]) == r.objects[y].event->Some_0);
    }
}

/// A construction keeps the pairing of wake-ups and handles.
pub proof fn law_construct_keeps_pairing<H: Flop>(
    types: TypesView,
    limits: Limits,
    world: World<H>,
    object_type: Seq<char>,
    table_name: Seq<char>,
    init_name: Seq<char>,
    args: Seq<crate::data::FieldView>,
)
    requires
        paired(world.totem),
    ensures
        paired(
            crate::semantics::init(
                types,
                limits,
                world,
                object_type,
                table_name,
                init_name,
                args,
            ).0.totem,
        ),
{
    law_store_keeps_pairing();
    crate::frame::law_construct_keeps(
        pairing(),
        types,
        limits,
        world,
        object_type,
        table_name,
        init_name,
        args,
    );
}

/// A turn of the scheduler keeps the pairing of wake-ups and handles: in
/// every state that the scheduler reaches, each pending wake-up is the one
/// wake-up of its object.
pub proof fn law_pump_keeps_pairing<H: Flop>(types: TypesView, limits: Limits, world: World<H>)
    requires
        paired(world.totem),
    ensures
        paired(pump(types, limits, world).0.totem),
{
    if world.totem.queue.pending.len() > 0 {
        let event = world.totem.queue.pending[0].event;
        let fired = World {
            totem: TotemView { queue: world.totem.queue.advance(), ..world.totem },
            host: world.host,
        };
        lemma_fire_keeps(world.totem);
        law_store_keeps_pairing();
        law_resume_keeps(
            pairing(),
            types,
            limits,
            fired,
            event.object,
            event.action_name,
            event.pc,
        );
    }
}

/// Any number of turns of the scheduler keep the pairing of wake-ups and
/// handles.
pub proof fn law_pump_many_keeps_pairing<H: Flop>(
    types: TypesView,
    limits: Limits,
    world: World<H>,
    turns: nat,
    fired: nat,
)
    requires
        paired(world.totem),
    ensures
        paired(crate::semantics::pump_many(types, limits, world, turns, fired).0.totem),
    decreases turns,
{
    if turns > 0 {
        law_pump_keeps_pairing(types, limits, world);
        let p = pump(types, limits, world);
        if p.1 == Ok::<bool, crate::prelude::Fault>(true) {
            law_pump_many_keeps_pairing(types, limits, p.0, (turns - 1) as nat, fired + 1);
        }
    }
}

} // verus!
