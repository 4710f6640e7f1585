//! What holds of every run of the runtime.

use vstd::prelude::*;
use crate::data::{FieldView, Num, Object, TotemView};
use crate::event::{
    law_enqueue_cancel, lemma_cancel_wf, lemma_queue_find, EventHandle, EventView, PendingView,
    Time,
};
use crate::instance::Flop;
use crate::item::{algorithm, TypesView};
use crate::semantics::{
    begin_wait, call, goto, perform, run, step, step_branch, step_debug_nums, step_evaluate,
    step_iterate, step_pattern, step_return, step_set_add, step_set_remove, step_state, step_wait,
    AlgorithmResultView, Called, Frame, Limits, Start, Stepped, World,
};

verus! {

/// A wait and the cancel that follows it, before the wake-up fires, undo each
/// other in the queue.
///
/// Where an object without a pending wake-up waits for a duration that the
/// host turns into a time not before now, exactly one wake-up is put in: for
/// that time and that object, to go on at the given place, and the object
/// holds its handle. Where the object then gives up its state, the wake-up
/// leaves the queue, which holds what it held before the wait, the object
/// holds no handle, and the identifier of the wake-up is pending no more.
pub proof fn law_wait_cancel<H: Flop>(
    world: World<H>,
    object: Object,
    action_name: Seq<char>,
    duration: Num,
    resume: usize,
)
    requires
        world.totem.wf(),
        world.totem.has(object),
        world.totem.objects[object as int].event is None,
        world.totem.queue.next_id < usize::MAX,
        H::advance_model(world.totem.queue.now, duration) matches Some(time)
            && world.totem.queue.now.key <= time.key,
    ensures
        ({
            let time = H::advance_model(world.totem.queue.now, duration).unwrap();
            let id = world.totem.queue.next_id;
            let waited = begin_wait(world, object, action_name, FieldView::Num(duration), resume);
            let event = PendingView {
                time,
                id,
                event: EventView { object, action_name, pc: resume },
            };
            &&& waited matches Ok(w)
            &&& w.host == world.host
            &&& w.totem.objects[object as int].event == Some(EventHandle(time, id))
            &&& w.totem.queue.pending.len() == world.totem.queue.pending.len() + 1
            &&& w.totem.queue.target(time, id) matches Some(at)
            &&& w.totem.queue.pending[at] == event
            &&& forall|i: int|
                0 <= i < w.totem.queue.pending.len() && i != at ==> (
                #[trigger] w.totem.queue.pending[i]).id != id
            &&& w.totem.clear_state(object).queue.pending == world.totem.queue.pending
            &&& w.totem.clear_state(object).queue.now == world.totem.queue.now
            &&& w.totem.clear_state(object).objects[object as int].event is None
            &&& !w.totem.clear_state(object).queue.holds(id)
            &&& id < w.totem.clear_state(object).queue.next_id
            &&& w.totem.clear_state(object).queue.wf()
        }),
{
    let time = H::advance_model(world.totem.queue.now, duration).unwrap();
    let q = world.totem.queue;
    let event = EventView { object, action_name, pc: resume };
    law_enqueue_cancel(q, event, time);
    crate::event::lemma_enqueue_wf(q, event, time);
    lemma_cancel_wf(q.enqueue(event, time), time, q.next_id);
    let w = begin_wait(world, object, action_name, FieldView::Num(duration), resume)->Ok_0;
    assert(w.totem.cancel_pending(object).queue == q.enqueue(event, time).cancel(time, q.next_id));
    let at = q.enqueue(event, time).target(time, q.next_id).unwrap();
    assert forall|i: int|
        0 <= i < w.totem.queue.pending.len() && i != at implies (
    #[trigger] w.totem.queue.pending[i]).id != q.next_id by {
        if w.totem.queue.pending[i].id == q.next_id {
            assert(Some(i) == q.enqueue(event, time).target(time, q.next_id));
        }
    }
}

/// Offset safety of the interpreter: whatever the instruction, an
/// activation goes on only at a program counter from 0 to the length of its
/// code. An offset that leads elsewhere is a fault.
pub proof fn law_step_stays_in_code<H: Flop>(
    types: TypesView,
    limits: Limits,
    world: World<H>,
    frame: Frame,
    depth: nat,
)
    requires
        frame.pc < frame.code.len() <= usize::MAX,
    ensures
        step(types, limits, world, frame, depth) matches Stepped::Next(w, pc, vars, flag) ==> pc
            <= frame.code.len(),
{
    reveal(perform);
    reveal(step_debug_nums);
    reveal(step_evaluate);
    reveal(step_state);
    reveal(step_wait);
    reveal(step_return);
    reveal(step_branch);
    reveal(step_pattern);
    reveal(step_set_add);
    reveal(step_set_remove);
    reveal(step_iterate);
    reveal(goto);
}

/// A chain of tail dispatches is one call: where the activation at the start
/// of a call ends by handing over, the call is the call of what it handed
/// over to, in the world that the activation left, with one hop less. So a
/// chain of any length, within the hops allowed, runs before the call
/// returns.
pub proof fn law_hand_over_stays_in_the_call<H: Flop>(
    types: TypesView,
    limits: Limits,
    world: World<H>,
    start: Start,
    hops: nat,
    depth: nat,
)
    requires
        hops > 0,
        world.totem.has(start.object),
        algorithm(
            types,
            world.totem.objects[start.object as int].object_type,
            start.action_name,
        ) is Some,
    ensures
        ({
            let alg = algorithm(
                types,
                world.totem.objects[start.object as int].object_type,
                start.action_name,
            ).unwrap();
            let r = run(
                types,
                limits,
                world,
                Frame {
                    object: start.object,
                    action_name: start.action_name,
                    code: alg.steps,
                    pc: start.pc,
                    vars: start.vars,
                    has_state: start.has_state,
                },
                limits.steps as nat,
                depth,
            );
            match r.result {
                Ok(
                    AlgorithmResultView::ExternContinuation {
                        object,
                        action_name,
                        vars,
                        has_state,
                    },
                ) => call(types, limits, world, start, hops, depth) == call(
                    types,
                    limits,
                    r.world,
                    Start { object, action_name, vars, pc: 0, has_state },
                    (hops - 1) as nat,
                    depth,
                ),
                Ok(AlgorithmResultView::ReturnVals(vals)) => call(
                    types,
                    limits,
                    world,
                    start,
                    hops,
                    depth,
                ) == (Called { world: r.world, result: Ok(vals) }),
                Ok(AlgorithmResultView::ContinueLoop { .. }) => call(
                    types,
                    limits,
                    world,
                    start,
                    hops,
                    depth,
                ) == (Called { world: r.world, result: Ok(Seq::empty()) }),
                Err(f) => call(types, limits, world, start, hops, depth) == (Called {
                    world: r.world,
                    result: Err(f),
                }),
            }
        }),
{
    reveal(call);
}

} // verus!
