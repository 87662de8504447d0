//! The application shell: one store, one scheduler, and the deferred
//! command queue that reconciles handler writes between phases.
//!
//! A phase runs in two steps: the label's schedule executes against the
//! live store, and then every insertion the handlers queued as commands
//! is applied to the store, in order.  A handler's queued insertion is
//! therefore invisible to the later handlers of the same phase and
//! becomes visible from the next phase on.

use crate::capability::{AccessError, TypeKey};
use crate::handler::{Handler, HandlerFunction, IntoHandler};
use crate::schedule::{
    aborted_at, first_failure, requests_of, runs_in_order, Schedule, ScheduleLabel, Scheduler,
};
use crate::state::{apply_adds, State};
use vstd::prelude::*;

verus! {

/// The label of the application pre-initialization phase; it dispatches
/// under key 0, which application labels must leave free.
#[derive(Clone, Copy, PartialEq, Eq, Structural, Debug)]
pub struct PreInit;

/// The label of the application initialization phase; it dispatches under
/// key 1, which application labels must leave free.
#[derive(Clone, Copy, PartialEq, Eq, Structural, Debug)]
pub struct Init;

/// The label of the application update phase, run once per host loop
/// iteration; it dispatches under key 2, which application labels must
/// leave free.
#[derive(Clone, Copy, PartialEq, Eq, Structural, Debug)]
pub struct Update;

impl ScheduleLabel for PreInit {
    open spec fn key_spec(&self) -> TypeKey {
        TypeKey { id: 0 }
    }

    fn key(&self) -> (k: TypeKey) {
        TypeKey { id: 0 }
    }
}

impl ScheduleLabel for Init {
    open spec fn key_spec(&self) -> TypeKey {
        TypeKey { id: 1 }
    }

    fn key(&self) -> (k: TypeKey) {
        TypeKey { id: 1 }
    }
}

impl ScheduleLabel for Update {
    open spec fn key_spec(&self) -> TypeKey {
        TypeKey { id: 2 }
    }

    fn key(&self) -> (k: TypeKey) {
        TypeKey { id: 2 }
    }
}

/// Deferred insertions into the application state.
///
/// A handler cannot grow the store it is resolved against while a phase
/// runs, so it queues insertions here instead; the application applies
/// them, in order, once the phase's schedule has finished, which makes
/// them visible from the next phase on.
pub struct Commands<R> {
    queue: Vec<(TypeKey, R)>,
}

impl<R> Commands<R> {
    /// The queued insertions, oldest first.
    pub closed spec fn adds(&self) -> Seq<(TypeKey, R)> {
        self.queue@
    }

    /// Creates an empty queue.
    pub fn new() -> (c: Commands<R>)
        ensures
            c.adds() == Seq::<(TypeKey, R)>::empty(),
    {
        Commands { queue: Vec::new() }
    }

    /// Queues a value to be kept under `key` once the running phase
    /// completes.  A later insertion of the same key wins.
    pub fn add_state(&mut self, key: TypeKey, value: R)
        ensures
            final(self).adds() == old(self).adds().push((key, value)),
    {
        self.queue.push((key, value));
    }

    /// Empties the queue, yielding the queued insertions in order.
    pub fn drain(&mut self) -> (r: Vec<(TypeKey, R)>)
        ensures
            final(self).adds() == Seq::<(TypeKey, R)>::empty(),
            r@ == old(self).adds(),
    {
        let mut r: Vec<(TypeKey, R)> = Vec::new();
        core::mem::swap(&mut r, &mut self.queue);
        r
    }
}

impl<R> Default for Commands<R> {
    /// The empty queue.
    fn default() -> (c: Self)
        ensures
            c.adds() == Seq::<(TypeKey, R)>::empty(),
    {
        Commands { queue: Vec::new() }
    }
}

/// A module: an external collaborator that registers its resources and
/// handlers on the application during configuration.  Implementations
/// are the host application's own code; nothing is assumed of them.
pub trait Module<R, H> {
    /// Builds the module's resources and handlers into the application.
    fn configure(&self, app: &mut App<R, H>);
}

/// One phase of an application: the schedule under `key` ran against the
/// store, in registration order, and then the queued commands were
/// applied.  No other schedule changed, and a phase without a schedule
/// leaves the store as it was.
pub open spec fn phase_rel<R, H>(a0: App<R, H>, a1: App<R, H>, key: TypeKey) -> bool {
    &&& a1.schedules().dom() == a0.schedules().dom()
    &&& forall|k: TypeKey|
        k != key && a0.schedules().dom().contains(k) ==> a1.schedules()[k] == a0.schedules()[k]
    &&& a1.pending().len() == 0
    &&& (!a0.schedules().dom().contains(key) && a0.pending().len() == 0 ==> a1.store_map()
        == a0.store_map() && a1.schedules() == a0.schedules())
    &&& (a0.schedules().dom().contains(key) ==> exists|mid: Map<TypeKey, R>, q: Seq<(TypeKey, R)>|
        runs_in_order(
            a0.schedules()[key].handlers_seq(),
            a1.schedules()[key].handlers_seq(),
            a0.store_map(),
            mid,
        ) && a1.store_map() == #[trigger] apply_adds(mid, q))
}

/// The outcome one phase owes: the first resolution failure of the
/// label's schedule against the store's keys, or success when the label
/// has no schedule.
pub open spec fn phase_outcome<R, H>(a: App<R, H>, key: TypeKey) -> Result<(), AccessError> {
    if a.schedules().dom().contains(key) {
        first_failure(requests_of(a.schedules()[key].handlers_seq()), a.store_map().dom())
    } else {
        Ok(())
    }
}

/// An application: a store of resources, a scheduler of handler phases,
/// and the command queue handlers defer their insertions to.
pub struct App<R, H> {
    state: State<R>,
    scheduler: Scheduler<H>,
    commands: Commands<R>,
}

impl<R, H> App<R, H> {
    /// The store's map.
    pub closed spec fn store_map(&self) -> Map<TypeKey, R> {
        self.state@
    }

    /// The registered schedules, by label key.
    pub closed spec fn schedules(&self) -> Map<TypeKey, Schedule<H>> {
        self.scheduler@
    }

    /// The insertions still queued as commands.
    pub closed spec fn pending(&self) -> Seq<(TypeKey, R)> {
        self.commands.adds()
    }

    /// Well-formed: store and scheduler are well-formed, and no command
    /// is left queued between phases.
    pub closed spec fn wf(&self) -> bool {
        &&& self.state.wf()
        &&& self.scheduler.wf()
        &&& self.pending().len() == 0
    }

    /// Creates an application with an empty store and no handlers.
    pub fn new() -> (app: App<R, H>)
        ensures
            app.wf(),
            app.store_map() == Map::<TypeKey, R>::empty(),
            app.schedules() == Map::<TypeKey, Schedule<H>>::empty(),
    {
        App { state: State::new(), scheduler: Scheduler::new(), commands: Commands::new() }
    }

    /// A read-only reference to the application state.
    pub fn state(&self) -> (s: &State<R>)
        ensures
            s@ == self.store_map(),
            self.wf() ==> s.wf(),
    {
        &self.state
    }

    /// Adds the single value kept under `key` to the application state,
    /// replacing any prior value of that key.
    pub fn add_state(&mut self, key: TypeKey, value: R)
        requires
            old(self).wf(),
        ensures
            final(self).wf(),
            final(self).store_map() == old(self).store_map().insert(key, value),
            final(self).schedules() == old(self).schedules(),
    {
        self.state.add(key, value);
    }

    /// Registers a handler under `label`: binds it, reading its declared
    /// parameter list once, and appends it to the label's schedule.
    pub fn add_handler<L: ScheduleLabel>(&mut self, label: L, handler: H) where H: Handler<R>
        requires
            old(self).wf(),
        ensures
            final(self).wf(),
            final(self).store_map() == old(self).store_map(),
            final(self).schedules().dom() == old(self).schedules().dom().insert(label.key_spec()),
            exists|hf: HandlerFunction<H>|
                #[trigger] hf.func() == handler && final(self).schedules()[
                    label.key_spec()
                ].handlers_seq() == (if old(self).schedules().dom().contains(label.key_spec()) {
                    old(self).schedules()[label.key_spec()].handlers_seq()
                } else {
                    Seq::<HandlerFunction<H>>::empty()
                }).push(hf),
            forall|k: TypeKey|
                k != label.key_spec() && old(self).schedules().dom().contains(k)
                    ==> final(self).schedules()[k] == old(self).schedules()[k],
    {
        let bound = handler.into_handler();
        self.scheduler.add_handler(label, bound);
    }

    /// Configures a module: hands the application to the module's
    /// `configure`, which registers whatever the module contributes.
    pub fn add_module<M: Module<R, H>>(&mut self, module: M) {
        module.configure(self);
    }

    /// Runs one phase: the schedule under `label`, its handlers in
    /// registration order, and then every insertion they queued, in
    /// order.  A label nobody registered under leaves the store as it
    /// was.  The first fatal resolution failure terminates the schedule
    /// and is returned, after the queued insertions are applied.
    pub fn run_schedule<L: ScheduleLabel>(&mut self, label: L) -> (r: Result<
        (),
        AccessError,
    >) where H: Handler<R>
        requires
            old(self).wf(),
        ensures
            final(self).wf(),
            phase_rel(*old(self), *final(self), label.key_spec()),
            r == phase_outcome(*old(self), label.key_spec()),
            r is Err ==> exists|mid: Map<TypeKey, R>, q: Seq<(TypeKey, R)>|
                aborted_at(
                    old(self).schedules()[label.key_spec()].handlers_seq(),
                    final(self).schedules()[label.key_spec()].handlers_seq(),
                    old(self).store_map(),
                    mid,
                    r,
                ) && final(self).store_map() == #[trigger] apply_adds(mid, q),
    {
        let r = self.scheduler.run(label, &mut self.state, &mut self.commands);
        let ghost mid = self.state@;
        let mut adds = self.commands.drain();
        let ghost q = adds@;
        let ghost sched_after = self.scheduler;
        let ghost cmds_after = self.commands;
        while adds.len() > 0
            invariant
                self.state.wf(),
                self.scheduler == sched_after,
                self.commands == cmds_after,
                apply_adds(mid, q) == apply_adds(self.state@, adds@),
            decreases adds@.len(),
        {
            let ghost adds0 = adds@;
            let (key, value) = adds.remove(0);
            self.state.add(key, value);
            proof {
                assert(adds@ =~= adds0.drop_first());
                assert(adds0.first() == (key, value));
            }
        }
        proof {
            assert(apply_adds(self.state@, adds@) == self.state@);
            assert(self.store_map() == apply_adds(mid, q));
        }
        r
    }

    /// Starts the application: runs the pre-initialization phase, then
    /// the initialization phase.  The host drives the update phase from
    /// its own loop afterwards.  The first fatal failure terminates the
    /// start and is returned; when the pre-initialization phase fails,
    /// the initialization phase does not run at all.
    pub fn run(&mut self) -> (r: Result<(), AccessError>) where H: Handler<R>
        requires
            old(self).wf(),
        ensures
            final(self).wf(),
            exists|m: App<R, H>|
                {
                    &&& #[trigger] phase_rel(*old(self), m, PreInit.key_spec())
                    &&& (phase_outcome(*old(self), PreInit.key_spec()) is Err ==> r
                        == phase_outcome(*old(self), PreInit.key_spec()) && *final(self) == m)
                    &&& (phase_outcome(*old(self), PreInit.key_spec()) is Ok ==> phase_rel(
                        m,
                        *final(self),
                        Init.key_spec(),
                    ) && r == phase_outcome(m, Init.key_spec()))
                },
    {
        let r = self.run_schedule(PreInit);
        let ghost m = *self;
        if let Err(e) = r {
            return Err(e);
        }
        self.run_schedule(Init)
    }
}

impl<R, H> Default for App<R, H> {
    /// An application with an empty store and no handlers.
    fn default() -> (app: Self)
        ensures
            app.wf(),
            app.store_map() == Map::<TypeKey, R>::empty(),
            app.schedules() == Map::<TypeKey, Schedule<H>>::empty(),
    {
        App { state: State::new(), scheduler: Scheduler::new(), commands: Commands::new() }
    }
}

} // verus!
