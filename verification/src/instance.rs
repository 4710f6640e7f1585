//! An instance of the runtime, and what its host provides.

use vstd::prelude::*;
use crate::algorithm::{execute_init, execute_resume};
use crate::ast::CompareOp;
use crate::data::{
    fields_view, Field, FieldView, Num, ObjectRef, ObjectRefView, Totem, TotemView,
};
use crate::event::{Event, QueueView, Time};
use crate::item::{types_view, ObjectType, TypesView};
use crate::prelude::{Dict, Fault};
use crate::runtime::ArithOp;
use crate::pairing::{
    law_construct_keeps_pairing, law_pump_keeps_pairing, law_pump_many_keeps_pairing, paired,
};
use crate::resting::{
    all_rest, fits, law_construct_rests, law_pump_many_rests, law_pump_rests,
};
use crate::semantics::{init, pump, pump_many, resume, Limits, World};
use crate::validity::{
    host_keeps_valid, law_construct_keeps_valid, law_pump_keeps_valid,
    law_pump_many_keeps_valid, valid_fields, valid_store,
};

verus! {

/// What the host of an instance provides: the arithmetic of numbers and of
/// time, and the functions that algorithms call by name.
///
/// The library holds numbers and times as plain keys and never computes with
/// them. Each operation is modelled as a function of the request, and the
/// host's replies to calls as a function of its state and the request. The
/// models are left open: a host says nothing of them, and what the library
/// proves holds whatever they are. Nothing here is proved of a host; each is
/// trusted to return what its model says, that is, to answer the same
/// request in the same state in the same way.
pub trait Flop: Sized {
    /// The result of `op` on `x` and `y`.
    open spec fn arith_model(op: ArithOp, x: Num, y: Num) -> Num {
        arbitrary::<spec_fn(ArithOp, Num, Num) -> Num>()(op, x, y)
    }

    /// Whether `x op y` holds.
    open spec fn compare_model(op: CompareOp, x: Num, y: Num) -> bool {
        arbitrary::<spec_fn(CompareOp, Num, Num) -> bool>()(op, x, y)
    }

    /// The time that lies `by` after `now`, where `by` is a duration.
    open spec fn advance_model(now: Time, by: Num) -> Option<Time> {
        arbitrary::<spec_fn(Time, Num) -> Option<Time>>()(now, by)
    }

    /// What a call of the function `name` with `args` returns, and the host
    /// after it.
    open spec fn call_model(self, name: Seq<char>, args: Seq<FieldView>) -> (Self, Seq<FieldView>) {
        arbitrary::<spec_fn(Self, Seq<char>, Seq<FieldView>) -> (Self, Seq<FieldView>)>()(
            self,
            name,
            args,
        )
    }

    fn arith(&self, op: ArithOp, x: Num, y: Num) -> (r: Num)
        ensures
            r == Self::arith_model(op, x, y),
    ;

    fn compare(&self, op: CompareOp, x: Num, y: Num) -> (r: bool)
        ensures
            r == Self::compare_model(op, x, y),
    ;

    fn advance(&self, now: Time, by: Num) -> (r: Option<Time>)
        ensures
            r == Self::advance_model(now, by),
    ;

    fn extern_call(&mut self, func_name: &String, args: Vec<Field>) -> (r: Vec<Field>)
        ensures
            (*final(self), fields_view(r@)) == old(self).call_model(func_name@, fields_view(args@)),
    ;
}

/// An instance of the runtime: the store with its queue, the object types,
/// and the bounds on every call.
#[derive(Debug)]
pub struct FlopInstance {
    pub totem: Totem,
    pub types: Dict<ObjectType>,
    pub limits: Limits,
}

pub struct InstanceView {
    pub totem: TotemView,
    pub types: TypesView,
    pub limits: Limits,
}

impl View for FlopInstance {
    type V = InstanceView;

    open spec fn view(&self) -> InstanceView {
        InstanceView { totem: self.totem@, types: types_view(self.types@), limits: self.limits }
    }
}

/// A game: an instance of the runtime.
pub type Game = FlopInstance;

impl Event {
    /// Fires the wake-up: resumes its object where the wait left it.
    pub fn invoke<H: Flop>(self, game: &mut FlopInstance, host: &mut H) -> (r: Result<(), Fault>)
        requires
            old(game)@.totem.wf(),
        ensures
            final(game)@.totem.wf(),
            final(game)@.types == old(game)@.types,
            final(game)@.limits == old(game)@.limits,
            ({
                let c = resume(
                    old(game)@.types,
                    old(game)@.limits,
                    World { totem: old(game)@.totem, host: *old(host) },
                    self.object,
                    self.action_name@,
                    self.pc,
                );
                &&& c.world == World { totem: final(game)@.totem, host: *final(host) }
                &&& match r {
                    Ok(_) => c.result is Ok,
                    Err(f) => c.result == Err::<Seq<FieldView>, Fault>(f),
                }
            }),
    {
        match execute_resume(
            &mut game.totem,
            host,
            &game.types,
            game.limits,
            self.object,
            self.action_name,
            self.pc,
        ) {
            Ok(_) => Ok(()),
            Err(f) => Err(f),
        }
    }
}

/// A store in memory holds no more objects than a machine can count.
pub proof fn lemma_store_fits(totem: &Totem)
    ensures
        fits(totem@),
{
    assert(totem.objects.len() <= usize::MAX);
}

impl FlopInstance {
    /// An instance without objects whose clock stands at `now`.
    pub fn new(now: Time, types: Dict<ObjectType>, limits: Limits) -> (r: FlopInstance)
        ensures
            r@.totem.wf(),
            r@.totem.objects.len() == 0,
            r@.totem.output.len() == 0,
            r@.totem.queue == (QueueView { now, next_id: 0, pending: Seq::empty() }),
            r@.types == types_view(types@),
            r@.limits == limits,
    {
        FlopInstance { totem: Totem::new(now), types, limits }
    }

    /// Constructs an object of `object_type` through its table `table_name`
    /// by the constructor `init_name`, which runs to its completion or first
    /// wait.
    pub fn construct<H: Flop>(
        &mut self,
        host: &mut H,
        object_type: String,
        table_name: String,
        init_name: String,
        args: Vec<Field>,
    ) -> (r: Result<ObjectRef, Fault>)
        requires
            old(self)@.totem.wf(),
        ensures
            final(self)@.totem.wf(),
            final(self)@.types == old(self)@.types,
            final(self)@.limits == old(self)@.limits,
            ({
                let m = init(
                    old(self)@.types,
                    old(self)@.limits,
                    World { totem: old(self)@.totem, host: *old(host) },
                    object_type@,
                    table_name@,
                    init_name@,
                    fields_view(args@),
                );
                &&& m.0 == World { totem: final(self)@.totem, host: *final(host) }
                &&& match r {
                    Ok(x) => m.1 == Ok::<ObjectRefView, Fault>(x@),
                    Err(f) => m.1 == Err::<ObjectRefView, Fault>(f),
                }
            }),
            paired(old(self)@.totem) ==> paired(final(self)@.totem),
            r is Ok && all_rest(old(self)@.totem) ==> all_rest(final(self)@.totem),
            host_keeps_valid::<H>() && valid_store(old(self)@.totem) && valid_fields(
                fields_view(args@),
            ) ==> valid_store(final(self)@.totem),
    {
        proof {
            let world = World { totem: self@.totem, host: *host };
            if paired(self@.totem) {
                law_construct_keeps_pairing(
                    self@.types,
                    self@.limits,
                    world,
                    object_type@,
                    table_name@,
                    init_name@,
                    fields_view(args@),
                );
            }
            law_construct_rests(
                self@.types,
                self@.limits,
                world,
                object_type@,
                table_name@,
                init_name@,
                fields_view(args@),
            );
        }
        let r = execute_init(
            &mut self.totem,
            host,
            &self.types,
            self.limits,
            object_type,
            table_name,
            init_name,
            args,
        );
        proof {
            lemma_store_fits(&self.totem);
        }
        r
    }

    /// One turn of the scheduler: fires the next wake-up, if one is pending,
    /// and says whether one fired.
    pub fn invoke_next<H: Flop>(&mut self, host: &mut H) -> (r: Result<bool, Fault>)
        requires
            old(self)@.totem.wf(),
        ensures
            final(self)@.totem.wf(),
            final(self)@.types == old(self)@.types,
            final(self)@.limits == old(self)@.limits,
            ({
                let m = pump(
                    old(self)@.types,
                    old(self)@.limits,
                    World { totem: old(self)@.totem, host: *old(host) },
                );
                &&& m.0 == World { totem: final(self)@.totem, host: *final(host) }
                &&& m.1 == r
            }),
            paired(old(self)@.totem) ==> paired(final(self)@.totem),
            r is Ok && all_rest(old(self)@.totem) ==> all_rest(final(self)@.totem),
            host_keeps_valid::<H>() && valid_store(old(self)@.totem) ==> valid_store(
                final(self)@.totem,
            ),
    {
        proof {
            let world = World { totem: self@.totem, host: *host };
            if paired(self@.totem) {
                law_pump_keeps_pairing(self@.types, self@.limits, world);
            }
            if host_keeps_valid::<H>() && valid_store(self@.totem) {
                law_pump_keeps_valid(self@.types, self@.limits, world);
            }
            law_pump_rests(self@.types, self@.limits, world);
        }
        let ghost before = self.totem@;
        let r = match self.totem.event_queue.pop() {
            None => Ok(false),
            Some(event) => {
                assert(self.totem@ == (TotemView { queue: before.queue.advance(), ..before })) by {
                    assert(self.totem@.objects =~= before.objects);
                    assert(self.totem@.output =~= before.output);
                }
                match event.invoke(self, host) {
                    Ok(_) => Ok(true),
                    Err(f) => Err(f),
                }
            },
        };
        proof {
            lemma_store_fits(&self.totem);
        }
        r
    }

    /// Constructs the root object and then turns the scheduler, up to
    /// `turns` times, until no wake-up is pending. The result is the number
    /// of wake-ups that fired.
    #[verifier::loop_isolation(false)]
    pub fn run<H: Flop>(
        game: &mut FlopInstance,
        host: &mut H,
        root_type: String,
        root_table: String,
        init_name: String,
        turns: usize,
    ) -> (r: Result<usize, Fault>)
        requires
            old(game)@.totem.wf(),
        ensures
            final(game)@.totem.wf(),
            final(game)@.types == old(game)@.types,
            final(game)@.limits == old(game)@.limits,
            ({
                let made = init(
                    old(game)@.types,
                    old(game)@.limits,
                    World { totem: old(game)@.totem, host: *old(host) },
                    root_type@,
                    root_table@,
                    init_name@,
                    Seq::empty(),
                );
                let m = match made.1 {
                    Err(f) => (made.0, Err::<nat, Fault>(f)),
                    Ok(_) => pump_many(
                        old(game)@.types,
                        old(game)@.limits,
                        made.0,
                        turns as nat,
                        0,
                    ),
                };
                &&& m.0 == World { totem: final(game)@.totem, host: *final(host) }
                &&& match r {
                    Ok(n) => m.1 == Ok::<nat, Fault>(n as nat),
                    Err(f) => m.1 == Err::<nat, Fault>(f),
                }
            }),
            paired(old(game)@.totem) ==> paired(final(game)@.totem),
            r is Ok && all_rest(old(game)@.totem) ==> all_rest(final(game)@.totem),
            host_keeps_valid::<H>() && valid_store(old(game)@.totem) ==> valid_store(
                final(game)@.totem,
            ),
    {
        proof {
            if host_keeps_valid::<H>() && valid_store(game@.totem) {
                let world = World { totem: game@.totem, host: *host };
                crate::validity::lemma_valid_lists(Seq::empty(), Seq::empty(), FieldView::TRef(0));
                law_construct_keeps_valid(
                    game@.types,
                    game@.limits,
                    world,
                    root_type@,
                    root_table@,
                    init_name@,
                    Seq::empty(),
                );
                law_pump_many_keeps_valid(
                    game@.types,
                    game@.limits,
                    init(
                        game@.types,
                        game@.limits,
                        world,
                        root_type@,
                        root_table@,
                        init_name@,
                        Seq::empty(),
                    ).0,
                    turns as nat,
                    0,
                );
            }
            let world = World { totem: game@.totem, host: *host };
            let made = init(
                game@.types,
                game@.limits,
                world,
                root_type@,
                root_table@,
                init_name@,
                Seq::empty(),
            );
            if paired(game@.totem) {
                law_construct_keeps_pairing(
                    game@.types,
                    game@.limits,
                    world,
                    root_type@,
                    root_table@,
                    init_name@,
                    Seq::empty(),
                );
                law_pump_many_keeps_pairing(game@.types, game@.limits, made.0, turns as nat, 0);
            }
            law_construct_rests(
                game@.types,
                game@.limits,
                world,
                root_type@,
                root_table@,
                init_name@,
                Seq::empty(),
            );
            law_pump_many_rests(game@.types, game@.limits, made.0, turns as nat, 0);
        }
        let args: Vec<Field> = Vec::new();
        proof {
            crate::data::lemma_fields_view_push(Seq::empty(), Field::TRef(0));
        }
        let _ = game.construct(host, root_type, root_table, init_name, args)?;
        let ghost goal = pump_many(
            game@.types,
            game@.limits,
            World { totem: game@.totem, host: *host },
            turns as nat,
            0,
        );
        let mut fired: usize = 0;
        while fired < turns
            invariant
                fired <= turns,
                game@.totem.wf(),
                game@.types == old(game)@.types,
                game@.limits == old(game)@.limits,
                goal == pump_many(
                    game@.types,
                    game@.limits,
                    World { totem: game@.totem, host: *host },
                    (turns - fired) as nat,
                    fired as nat,
                ),
            decreases turns - fired,
        {
            if !game.invoke_next(host)? {
                proof {
                    lemma_store_fits(&game.totem);
                }
                return Ok(fired);
            }
            fired += 1;
        }
        proof {
            lemma_store_fits(&game.totem);
        }
        Ok(fired)
    }
}

} // verus!
