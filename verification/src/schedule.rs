//! Schedules and the scheduler: an ordered, append-only list of bound
//! handlers per label, and a label-keyed registry dispatching runs.
//!
//! A schedule runs its handlers strictly one after the other, in
//! registration order, against one store; the specification
//! [`runs_in_order`] records that order as a chain of per-handler steps.
//! Running a label nobody registered under is a no-op, not an error.

use crate::app::Commands;
use crate::capability::{AccessError, Request, TypeKey};
use crate::handler::{excl_keys, resolve_outcome, Handler, HandlerFunction};
use crate::state::State;
use vstd::prelude::*;

verus! {

/// A label naming one schedule: a dispatch key identifying one execution
/// phase.
pub trait ScheduleLabel {
    /// The key this label dispatches under.
    spec fn key_spec(&self) -> TypeKey;

    /// Returns the label's key.
    fn key(&self) -> (k: TypeKey)
        ensures
            k == self.key_spec(),
    ;
}

/// Any key may serve as a label of its own.
impl ScheduleLabel for TypeKey {
    open spec fn key_spec(&self) -> TypeKey {
        *self
    }

    fn key(&self) -> (k: TypeKey) {
        *self
    }
}

/// What one handler invocation may do to the store's map, as far as the
/// library guarantees it: the declared parameters stay as declared, no
/// key appears or disappears, a failed resolution changes nothing, and
/// only exclusively requested keys change their values.
pub open spec fn handler_step<R, H>(
    h0: HandlerFunction<H>,
    h1: HandlerFunction<H>,
    s0: Map<TypeKey, R>,
    s1: Map<TypeKey, R>,
) -> bool {
    &&& h1.requests() == h0.requests()
    &&& s1.dom() == s0.dom()
    &&& (resolve_outcome(h0.requests(), s0.dom()) is Err ==> s1 == s0 && h1 == h0)
    &&& forall|k: TypeKey|
        s0.dom().contains(k) && !excl_keys(h0.requests()).contains(k) ==> s1[k] == s0[k]
}

/// The handlers of `hs0` were invoked one after the other, first to last
/// and none skipped, taking the store's map from `s0` to `s1` and the
/// handlers themselves to `hs1`.
pub open spec fn runs_in_order<R, H>(
    hs0: Seq<HandlerFunction<H>>,
    hs1: Seq<HandlerFunction<H>>,
    s0: Map<TypeKey, R>,
    s1: Map<TypeKey, R>,
) -> bool
    decreases hs0.len(),
{
    if hs0.len() == 0 {
        hs1.len() == 0 && s1 == s0
    } else {
        hs1.len() == hs0.len() && exists|mid: Map<TypeKey, R>|
            #[trigger] handler_step(hs0.first(), hs1.first(), s0, mid) && runs_in_order(
                hs0.drop_first(),
                hs1.drop_first(),
                mid,
                s1,
            )
    }
}

/// The declared parameter lists of a handler sequence, in order.
pub open spec fn requests_of<H>(hs: Seq<HandlerFunction<H>>) -> Seq<Seq<Request>> {
    hs.map_values(|h: HandlerFunction<H>| h.requests())
}

/// The outcome a sequential run owes: the resolution outcome of the first
/// parameter list that does not resolve against the keys `dom`, or
/// success when every list resolves.  No run lets a key appear or
/// disappear, and none changes a declared list, so a run's outcome is a
/// function of the registered lists and the initial keys alone.
pub open spec fn first_failure(lists: Seq<Seq<Request>>, dom: Set<TypeKey>) -> Result<
    (),
    AccessError,
>
    decreases lists.len(),
{
    if lists.len() == 0 {
        Ok(())
    } else if resolve_outcome(lists.first(), dom) is Err {
        resolve_outcome(lists.first(), dom)
    } else {
        first_failure(lists.drop_first(), dom)
    }
}

/// A run of the handlers `hs0` that aborted with `r`: the failing handler
/// is the first whose list does not resolve against the initial keys; it
/// and every handler after it take no step, and the chain of the handlers
/// before it already ends at the final map.
pub open spec fn aborted_at<R, H>(
    hs0: Seq<HandlerFunction<H>>,
    hs1: Seq<HandlerFunction<H>>,
    s0: Map<TypeKey, R>,
    s1: Map<TypeKey, R>,
    r: Result<(), AccessError>,
) -> bool {
    exists|j: int|
        {
            &&& 0 <= j < hs0.len()
            &&& r == #[trigger] resolve_outcome(hs0[j].requests(), s0.dom())
            &&& forall|t: int|
                0 <= t < j ==> (#[trigger] resolve_outcome(hs0[t].requests(), s0.dom())) is Ok
            &&& hs1.skip(j) == hs0.skip(j)
            &&& runs_in_order(hs0.take(j), hs1.take(j), s0, s1)
        }
}

/// A chain extends on the right by one more step.
pub proof fn lemma_runs_in_order_snoc<R, H>(
    hs0: Seq<HandlerFunction<H>>,
    hs1: Seq<HandlerFunction<H>>,
    h0: HandlerFunction<H>,
    h1: HandlerFunction<H>,
    s0: Map<TypeKey, R>,
    mid: Map<TypeKey, R>,
    s1: Map<TypeKey, R>,
)
    requires
        runs_in_order(hs0, hs1, s0, mid),
        handler_step(h0, h1, mid, s1),
    ensures
        runs_in_order(hs0.push(h0), hs1.push(h1), s0, s1),
    decreases hs0.len(),
{
    if hs0.len() == 0 {
        assert(hs0.push(h0).drop_first() =~= Seq::<HandlerFunction<H>>::empty());
        assert(hs1.push(h1).drop_first() =~= Seq::<HandlerFunction<H>>::empty());
        assert(hs0.push(h0).first() == h0);
        assert(hs1.push(h1).first() == h1);
        assert(handler_step(hs0.push(h0).first(), hs1.push(h1).first(), s0, s1));
        assert(runs_in_order(hs0.push(h0).drop_first(), hs1.push(h1).drop_first(), s1, s1));
    } else {
        let m = choose|m: Map<TypeKey, R>|
            #[trigger] handler_step(hs0.first(), hs1.first(), s0, m) && runs_in_order(
                hs0.drop_first(),
                hs1.drop_first(),
                m,
                mid,
            );
        lemma_runs_in_order_snoc(hs0.drop_first(), hs1.drop_first(), h0, h1, m, mid, s1);
        assert(hs0.push(h0).drop_first() =~= hs0.drop_first().push(h0));
        assert(hs1.push(h1).drop_first() =~= hs1.drop_first().push(h1));
        assert(hs0.push(h0).first() == hs0.first());
        assert(handler_step(hs0.push(h0).first(), hs1.push(h1).first(), s0, m));
    }
}

/// Handlers that are not invoked at all form a chain from a map to itself.
pub proof fn lemma_runs_in_order_refl<R, H>(hs: Seq<HandlerFunction<H>>, s: Map<TypeKey, R>)
    ensures
        runs_in_order(hs, hs, s, s),
    decreases hs.len(),
{
    if hs.len() > 0 {
        lemma_runs_in_order_refl(hs.drop_first(), s);
        assert(handler_step(hs.first(), hs.first(), s, s));
    }
}

/// Two chains compose.
pub proof fn lemma_runs_in_order_concat<R, H>(
    a0: Seq<HandlerFunction<H>>,
    a1: Seq<HandlerFunction<H>>,
    b0: Seq<HandlerFunction<H>>,
    b1: Seq<HandlerFunction<H>>,
    s0: Map<TypeKey, R>,
    mid: Map<TypeKey, R>,
    s1: Map<TypeKey, R>,
)
    requires
        runs_in_order(a0, a1, s0, mid),
        runs_in_order(b0, b1, mid, s1),
    ensures
        runs_in_order(a0 + b0, a1 + b1, s0, s1),
    decreases a0.len(),
{
    if a0.len() == 0 {
        assert(a0 + b0 =~= b0);
        assert(a1 + b1 =~= b1);
    } else {
        let m = choose|m: Map<TypeKey, R>|
            #[trigger] handler_step(a0.first(), a1.first(), s0, m) && runs_in_order(
                a0.drop_first(),
                a1.drop_first(),
                m,
                mid,
            );
        lemma_runs_in_order_concat(a0.drop_first(), a1.drop_first(), b0, b1, m, mid, s1);
        assert((a0 + b0).drop_first() =~= a0.drop_first() + b0);
        assert((a1 + b1).drop_first() =~= a1.drop_first() + b1);
        assert((a0 + b0).first() == a0.first());
        assert((a1 + b1).first() == a1.first());
        assert(handler_step((a0 + b0).first(), (a1 + b1).first(), s0, m));
    }
}

/// An ordered, append-only list of bound handlers, run sequentially
/// against one store.
pub struct Schedule<H> {
    handlers: Vec<HandlerFunction<H>>,
}

impl<H> Schedule<H> {
    /// The bound handlers, in registration order.
    pub closed spec fn handlers_seq(&self) -> Seq<HandlerFunction<H>> {
        self.handlers@
    }

    /// The declared parameter lists, in registration order.
    pub open spec fn requests_seq(&self) -> Seq<Seq<Request>> {
        requests_of(self.handlers_seq())
    }

    /// Creates an empty schedule.
    pub fn new() -> (s: Schedule<H>)
        ensures
            s.handlers_seq() == Seq::<HandlerFunction<H>>::empty(),
    {
        Schedule { handlers: Vec::new() }
    }

    /// Appends a bound handler; `run` invokes handlers in this order.
    pub fn add_handler(&mut self, handler: HandlerFunction<H>)
        ensures
            final(self).handlers_seq() == old(self).handlers_seq().push(handler),
    {
        self.handlers.push(handler);
    }

    /// Invokes every handler, in registration order, against `state`.
    /// The first fatal resolution failure terminates the whole run with
    /// that failure; the handlers after it are not invoked, and, as every
    /// step of the chain records, nothing of the store changes beyond
    /// what invoked handlers wrote under their exclusively requested
    /// keys.
    pub fn run<R>(&mut self, state: &mut State<R>, commands: &mut Commands<R>) -> (r: Result<
        (),
        AccessError,
    >) where H: Handler<R>
        requires
            old(state).wf(),
        ensures
            final(state).wf(),
            final(state)@.dom() == old(state)@.dom(),
            final(self).handlers_seq().len() == old(self).handlers_seq().len(),
            runs_in_order(
                old(self).handlers_seq(),
                final(self).handlers_seq(),
                old(state)@,
                final(state)@,
            ),
            r == first_failure(requests_of(old(self).handlers_seq()), old(state)@.dom()),
            r is Err ==> aborted_at(
                old(self).handlers_seq(),
                final(self).handlers_seq(),
                old(state)@,
                final(state)@,
                r,
            ),
    {
        let ghost hs0 = self.handlers@;
        let ghost lists = requests_of(hs0);
        let ghost dom0 = old(state)@.dom();
        proof {
            assert(lists.skip(0) =~= lists);
        }
        let n = self.handlers.len();
        let mut i: usize = 0;
        while i < n
            invariant
                n == self.handlers@.len(),
                i <= n,
                hs0 == old(self).handlers@,
                hs0.len() == n,
                lists == requests_of(hs0),
                dom0 == old(state)@.dom(),
                state.wf(),
                state@.dom() == old(state)@.dom(),
                self.handlers@.skip(i as int) == hs0.skip(i as int),
                runs_in_order(
                    hs0.take(i as int),
                    self.handlers@.take(i as int),
                    old(state)@,
                    state@,
                ),
                first_failure(lists, dom0) == first_failure(lists.skip(i as int), dom0),
                forall|t: int|
                    0 <= t < i ==> (#[trigger] resolve_outcome(hs0[t].requests(), dom0)) is Ok,
            decreases n - i,
        {
            let ghost pre_state = state@;
            let ghost pre_handlers = self.handlers@;
            proof {
                assert(hs0.skip(i as int)[0] == hs0[i as int]);
                assert(self.handlers@[i as int] == hs0[i as int]);
                assert(lists[i as int] == hs0[i as int].requests());
                assert(lists.skip(i as int)[0] == lists[i as int]);
                assert(lists.skip(i as int).drop_first() =~= lists.skip(i as int + 1));
            }
            let r = self.handlers[i].run(state, commands);
            proof {
                assert forall|t: int|
                    0 <= t < self.handlers@.len() - (i as int + 1) implies #[trigger] self.handlers@.skip(
                    i as int + 1,
                )[t] == hs0.skip(i as int + 1)[t] by {
                    assert(pre_handlers.skip(i as int)[t + 1] == hs0.skip(i as int)[t + 1]);
                    assert(self.handlers@[i as int + 1 + t] == pre_handlers[i as int + 1 + t]);
                }
                assert(self.handlers@.skip(i as int + 1) =~= hs0.skip(i as int + 1));
                assert(handler_step(hs0[i as int], self.handlers@[i as int], pre_state, state@));
                assert(hs0.take(i as int + 1) =~= hs0.take(i as int).push(hs0[i as int]));
                assert(self.handlers@.take(i as int + 1) =~= self.handlers@.take(i as int).push(
                    self.handlers@[i as int],
                ));
                assert(pre_handlers.take(i as int) == self.handlers@.take(i as int));
                lemma_runs_in_order_snoc(
                    hs0.take(i as int),
                    self.handlers@.take(i as int),
                    hs0[i as int],
                    self.handlers@[i as int],
                    old(state)@,
                    pre_state,
                    state@,
                );
            }
            if let Err(e) = r {
                proof {
                    lemma_runs_in_order_refl(
                        hs0.skip(i as int + 1),
                        state@,
                    );
                    assert(self.handlers@.skip(i as int + 1) =~= hs0.skip(i as int + 1));
                    lemma_runs_in_order_concat(
                        hs0.take(i as int + 1),
                        self.handlers@.take(i as int + 1),
                        hs0.skip(i as int + 1),
                        self.handlers@.skip(i as int + 1),
                        old(state)@,
                        state@,
                        state@,
                    );
                    assert(hs0.take(i as int + 1) + hs0.skip(i as int + 1) =~= hs0);
                    assert(self.handlers@.take(i as int + 1) + self.handlers@.skip(i as int + 1)
                        =~= self.handlers@);
                    // the failed resolution is the run's first failure
                    assert(resolve_outcome(hs0[i as int].requests(), dom0) == Err::<
                        (),
                        AccessError,
                    >(e));
                    assert(first_failure(lists.skip(i as int), dom0) == Err::<(), AccessError>(e));
                    // the failing handler took no step, nor did any later one
                    assert(self.handlers@ =~= pre_handlers);
                    assert(self.handlers@.skip(i as int) == hs0.skip(i as int));
                    assert(state@ == pre_state);
                    assert(self.handlers@.take(i as int) == pre_handlers.take(i as int));
                    assert(aborted_at(
                        hs0,
                        self.handlers@,
                        old(state)@,
                        state@,
                        Err::<(), AccessError>(e),
                    ));
                }
                return Err(e);
            }
            proof {
                assert(resolve_outcome(hs0[i as int].requests(), dom0) is Ok);
                assert(first_failure(lists.skip(i as int), dom0) == first_failure(
                    lists.skip(i as int + 1),
                    dom0,
                ));
            }
            i += 1;
        }
        proof {
            assert(hs0.take(n as int) =~= hs0);
            assert(self.handlers@.take(n as int) =~= self.handlers@);
            assert(lists.skip(n as int) =~= Seq::<Seq<Request>>::empty());
        }
        Ok(())
    }
}

impl<H> Default for Schedule<H> {
    /// The empty schedule.
    fn default() -> (s: Self)
        ensures
            s.handlers_seq() == Seq::<HandlerFunction<H>>::empty(),
    {
        Schedule { handlers: Vec::new() }
    }
}

/// The map held by a label-to-schedule entry sequence; later entries win.
pub open spec fn schedule_map<H>(entries: Seq<(TypeKey, Schedule<H>)>) -> Map<
    TypeKey,
    Schedule<H>,
>
    decreases entries.len(),
{
    if entries.len() == 0 {
        Map::empty()
    } else {
        schedule_map(entries.drop_last()).insert(entries.last().0, entries.last().1)
    }
}

/// Pairwise distinct label keys.
pub open spec fn labels_unique<H>(entries: Seq<(TypeKey, Schedule<H>)>) -> bool {
    forall|i: int, j: int| 0 <= i < j < entries.len() ==> entries[i].0 != entries[j].0
}

/// A label key is in the schedule map exactly when some entry carries it.
proof fn lemma_schedule_map_dom<H>(entries: Seq<(TypeKey, Schedule<H>)>, k: TypeKey)
    ensures
        schedule_map(entries).dom().contains(k) <==> exists|i: int|
            0 <= i < entries.len() && entries[i].0 == k,
    decreases entries.len(),
{
    if entries.len() > 0 {
        lemma_schedule_map_dom(entries.drop_last(), k);
        if entries.last().0 == k {
            assert(entries[entries.len() - 1].0 == k);
        } else {
            if exists|i: int| 0 <= i < entries.len() && entries[i].0 == k {
                let i = choose|i: int| 0 <= i < entries.len() && entries[i].0 == k;
                assert(entries.drop_last()[i] == entries[i]);
            }
            if exists|i: int| 0 <= i < entries.drop_last().len() && entries.drop_last()[i].0 == k {
                let i = choose|i: int|
                    0 <= i < entries.drop_last().len() && entries.drop_last()[i].0 == k;
                assert(entries[i].0 == k);
            }
        }
    }
}

/// With distinct keys, the map sends each entry's key to its schedule.
proof fn lemma_schedule_map_at<H>(entries: Seq<(TypeKey, Schedule<H>)>, i: int)
    requires
        labels_unique(entries),
        0 <= i < entries.len(),
    ensures
        schedule_map(entries).dom().contains(entries[i].0),
        schedule_map(entries)[entries[i].0] == entries[i].1,
    decreases entries.len(),
{
    if i == entries.len() - 1 {
    } else {
        assert(entries.drop_last()[i] == entries[i]);
        lemma_schedule_map_at(entries.drop_last(), i);
        assert(entries.last().0 != entries[i].0);
    }
}

/// Replacing the schedule of one entry inserts into the map.
proof fn lemma_schedule_map_update<H>(
    entries: Seq<(TypeKey, Schedule<H>)>,
    i: int,
    v: Schedule<H>,
)
    requires
        labels_unique(entries),
        0 <= i < entries.len(),
    ensures
        schedule_map(entries.update(i, (entries[i].0, v))) == schedule_map(entries).insert(
            entries[i].0,
            v,
        ),
    decreases entries.len(),
{
    let updated = entries.update(i, (entries[i].0, v));
    if i == entries.len() - 1 {
        assert(updated.drop_last() =~= entries.drop_last());
        assert(schedule_map(updated) =~= schedule_map(entries).insert(entries[i].0, v));
    } else {
        assert(updated.drop_last() =~= entries.drop_last().update(i, (entries[i].0, v)));
        assert(entries.drop_last()[i] == entries[i]);
        lemma_schedule_map_update(entries.drop_last(), i, v);
        assert(entries.last().0 != entries[i].0);
        assert(schedule_map(updated) =~= schedule_map(entries).insert(entries[i].0, v));
    }
}

/// A label-keyed registry of schedules: dispatching a run by label, and
/// creating a label's schedule lazily on first registration.
pub struct Scheduler<H> {
    schedules: Vec<(TypeKey, Schedule<H>)>,
}

impl<H> Scheduler<H> {
    /// The label-to-schedule entries behind the registry.
    pub closed spec fn entries(&self) -> Seq<(TypeKey, Schedule<H>)> {
        self.schedules@
    }

    /// Well-formed: at most one schedule per label key.
    pub open spec fn wf(&self) -> bool {
        labels_unique(self.entries())
    }

    /// Creates an empty registry.
    pub fn new() -> (s: Scheduler<H>)
        ensures
            s@ == Map::<TypeKey, Schedule<H>>::empty(),
            s.wf(),
    {
        Scheduler { schedules: Vec::new() }
    }

    /// Registers a bound handler under `label`: appends it to the label's
    /// schedule, creating that schedule first when the label is new.
    pub fn add_handler<L: ScheduleLabel>(&mut self, label: L, handler: HandlerFunction<H>)
        requires
            old(self).wf(),
        ensures
            final(self).wf(),
            final(self)@.dom() == old(self)@.dom().insert(label.key_spec()),
            final(self)@[label.key_spec()].handlers_seq() == (if old(self)@.dom().contains(
                label.key_spec(),
            ) {
                old(self)@[label.key_spec()].handlers_seq()
            } else {
                Seq::<HandlerFunction<H>>::empty()
            }).push(handler),
            forall|k: TypeKey|
                k != label.key_spec() && old(self)@.dom().contains(k) ==> final(self)@[k] == old(
                    self,
                )@[k],
    {
        let key = label.key();
        let ghost entries0 = self.schedules@;
        let n = self.schedules.len();
        let mut i: usize = 0;
        while i < n
            invariant
                n == self.schedules@.len(),
                i <= n,
                self.schedules@ == entries0,
                entries0 == old(self).entries(),
                labels_unique(entries0),
                key == label.key_spec(),
                forall|j: int| 0 <= j < i ==> entries0[j].0 != key,
            decreases n - i,
        {
            if self.schedules[i].0 == key {
                proof {
                    lemma_schedule_map_at(entries0, i as int);
                }
                let ghost sched0 = self.schedules@[i as int].1;
                self.schedules[i].1.add_handler(handler);
                proof {
                    let ghost sched1 = self.schedules@[i as int].1;
                    assert(self.schedules@ =~= entries0.update(i as int, (key, sched1)));
                    lemma_schedule_map_update(entries0, i as int, sched1);
                    assert(sched1.handlers_seq() == sched0.handlers_seq().push(handler));
                    assert(self@.dom() =~= old(self)@.dom().insert(key));
                    assert forall|a: int, b: int|
                        0 <= a < b < self.schedules@.len() implies self.schedules@[a].0
                        != self.schedules@[b].0 by {
                        assert(entries0[a].0 != entries0[b].0);
                    }
                }
                return;
            }
            i += 1;
        }
        let mut sched: Schedule<H> = Schedule::new();
        sched.add_handler(handler);
        self.schedules.push((key, sched));
        proof {
            assert(self.schedules@.drop_last() =~= entries0);
            lemma_schedule_map_dom(entries0, key);
            assert(!old(self)@.dom().contains(key));
            assert(self@.dom() =~= old(self)@.dom().insert(key));
            assert forall|a: int, b: int|
                0 <= a < b < self.schedules@.len() implies self.schedules@[a].0
                != self.schedules@[b].0 by {
                if b < entries0.len() {
                    assert(entries0[a].0 != entries0[b].0);
                }
            }
        }
    }

    /// Runs the schedule registered under `label` against `state`, its
    /// handlers in registration order; a label nobody registered under is
    /// a no-op, not an error.  No other schedule changes either way.
    pub fn run<L: ScheduleLabel, R>(
        &mut self,
        label: L,
        state: &mut State<R>,
        commands: &mut Commands<R>,
    ) -> (r: Result<(), AccessError>) where H: Handler<R>
        requires
            old(self).wf(),
            old(state).wf(),
        ensures
            final(self).wf(),
            final(state).wf(),
            final(state)@.dom() == old(state)@.dom(),
            final(self)@.dom() == old(self)@.dom(),
            !old(self)@.dom().contains(label.key_spec()) ==> r is Ok && *final(state) == *old(
                state,
            ) && *final(self) == *old(self) && *final(commands) == *old(commands),
            old(self)@.dom().contains(label.key_spec()) ==> runs_in_order(
                old(self)@[label.key_spec()].handlers_seq(),
                final(self)@[label.key_spec()].handlers_seq(),
                old(state)@,
                final(state)@,
            ),
            forall|k: TypeKey|
                k != label.key_spec() && old(self)@.dom().contains(k) ==> final(self)@[k] == old(
                    self,
                )@[k],
            r == (if old(self)@.dom().contains(label.key_spec()) {
                first_failure(
                    requests_of(old(self)@[label.key_spec()].handlers_seq()),
                    old(state)@.dom(),
                )
            } else {
                Ok::<(), AccessError>(())
            }),
            r is Err ==> aborted_at(
                old(self)@[label.key_spec()].handlers_seq(),
                final(self)@[label.key_spec()].handlers_seq(),
                old(state)@,
                final(state)@,
                r,
            ),
    {
        let key = label.key();
        let ghost entries0 = self.schedules@;
        let n = self.schedules.len();
        let mut i: usize = 0;
        while i < n
            invariant
                n == self.schedules@.len(),
                i <= n,
                self.schedules@ == entries0,
                entries0 == old(self).entries(),
                labels_unique(entries0),
                key == label.key_spec(),
                *state == *old(state),
                *self == *old(self),
                *commands == *old(commands),
                old(state).wf(),
                forall|j: int| 0 <= j < i ==> entries0[j].0 != key,
            decreases n - i,
        {
            if self.schedules[i].0 == key {
                proof {
                    lemma_schedule_map_at(entries0, i as int);
                }
                let ghost sched0 = self.schedules@[i as int].1;
                let r = self.schedules[i].1.run(state, commands);
                proof {
                    let ghost sched1 = self.schedules@[i as int].1;
                    assert(self.schedules@ =~= entries0.update(i as int, (key, sched1)));
                    lemma_schedule_map_update(entries0, i as int, sched1);
                    assert(self@.dom() =~= old(self)@.dom());
                    assert forall|a: int, b: int|
                        0 <= a < b < self.schedules@.len() implies self.schedules@[a].0
                        != self.schedules@[b].0 by {
                        assert(entries0[a].0 != entries0[b].0);
                    }
                }
                return r;
            }
            i += 1;
        }
        proof {
            lemma_schedule_map_dom(entries0, key);
        }
        Ok(())
    }
}

impl<H> Default for Scheduler<H> {
    /// The empty registry.
    fn default() -> (s: Self)
        ensures
            s@ == Map::<TypeKey, Schedule<H>>::empty(),
            s.wf(),
    {
        Scheduler { schedules: Vec::new() }
    }
}

impl<H> View for Scheduler<H> {
    type V = Map<TypeKey, Schedule<H>>;

    open spec fn view(&self) -> Map<TypeKey, Schedule<H>> {
        schedule_map(self.entries())
    }
}

} // verus!
