//! Handler binding: a handler declares an ordered list of capability
//! requests once, at registration; every run resolves the list left to
//! right against the current store, with a runtime borrow check, and only
//! then invokes the handler body with the resolved arguments.
//!
//! The borrow check keeps a ledger with one flag per key touched so far:
//! a key starts free (no ledger entry), carries a count of shared
//! borrows, or is held exclusively.  Any number of shared requests for
//! one key may coexist; an exclusive request tolerates no other request
//! for the same key.  Every borrow is scoped to one handler invocation:
//! the ledger is built afresh at call entry and gone at call exit, so no
//! borrow ever crosses a call.
//!
//! The body reads the resolved arguments and hands back the values to
//! store for the parameters it requested exclusively; nothing is assumed
//! of the body itself, which is the host application's own code.

use crate::app::Commands;
use crate::capability::{Access, AccessError, Request, Res, TypeKey};
use crate::state::State;
use vstd::prelude::*;

verus! {

/// The borrow state of one key while a parameter list is being resolved.
/// A key without a ledger entry is free.
#[derive(Clone, Copy, PartialEq, Eq, Structural, Debug)]
pub enum BorrowFlag {
    /// Held by the given number of shared borrows.
    Shared(usize),
    /// Held by one exclusive borrow.
    Exclusive,
}

/// The access a ledger flag grants.
pub open spec fn flag_access(f: BorrowFlag) -> Access {
    match f {
        BorrowFlag::Shared(_) => Access::Shared,
        BorrowFlag::Exclusive => Access::Exclusive,
    }
}

/// Whether a flag's shared count stays within `bound`.
pub open spec fn flag_count_ok(f: BorrowFlag, bound: int) -> bool {
    match f {
        BorrowFlag::Shared(c) => c <= bound,
        BorrowFlag::Exclusive => true,
    }
}

/// The accesses a ledger grants, by key.
pub open spec fn map_access(m: Map<TypeKey, BorrowFlag>) -> Map<TypeKey, Access> {
    Map::new(|k: TypeKey| m.dom().contains(k), |k: TypeKey| flag_access(m[k]))
}

/// The outcome of resolving the remaining requests, left to right, against
/// a store holding the keys `dom`, after the borrows in `led` have been
/// granted: a missing key aborts with `MissingResource`, a request
/// incompatible with an already granted borrow of its key aborts with
/// `BorrowConflict`, and only two shared uses of one key are compatible.
pub open spec fn resolve_req(
    reqs: Seq<Request>,
    dom: Set<TypeKey>,
    led: Map<TypeKey, Access>,
) -> Result<(), AccessError>
    decreases reqs.len(),
{
    if reqs.len() == 0 {
        Ok(())
    } else {
        let r = reqs.first();
        if !dom.contains(r.key) {
            Err(AccessError::MissingResource(r.key))
        } else if led.contains_key(r.key) && !(led[r.key] == Access::Shared && r.access
            == Access::Shared) {
            Err(AccessError::BorrowConflict(r.key))
        } else {
            resolve_req(reqs.drop_first(), dom, led.insert(r.key, r.access))
        }
    }
}

/// The outcome of resolving a whole parameter list against a store
/// holding the keys `dom`, starting with every key free.
pub open spec fn resolve_outcome(reqs: Seq<Request>, dom: Set<TypeKey>) -> Result<
    (),
    AccessError,
> {
    resolve_req(reqs, dom, Map::empty())
}

/// The keys a parameter list requests exclusive access for.
pub open spec fn excl_keys(reqs: Seq<Request>) -> Set<TypeKey> {
    Set::new(
        |k: TypeKey|
            exists|i: int|
                0 <= i < reqs.len() && reqs[i].access == Access::Exclusive && reqs[i].key == k,
    )
}

/// A resolution that succeeds found every requested key in the store.
pub proof fn lemma_resolve_ok_present(
    reqs: Seq<Request>,
    dom: Set<TypeKey>,
    led: Map<TypeKey, Access>,
)
    requires
        resolve_req(reqs, dom, led) is Ok,
    ensures
        forall|i: int| 0 <= i < reqs.len() ==> dom.contains(#[trigger] reqs[i].key),
    decreases reqs.len(),
{
    if reqs.len() > 0 {
        let r = reqs.first();
        lemma_resolve_ok_present(reqs.drop_first(), dom, led.insert(r.key, r.access));
        assert forall|i: int| 0 <= i < reqs.len() implies dom.contains(#[trigger] reqs[i].key) by {
            if i > 0 {
                assert(reqs.drop_first()[i - 1] == reqs[i]);
            }
        }
    }
}

proof fn lemma_resolve_all_shared_from(
    reqs: Seq<Request>,
    dom: Set<TypeKey>,
    led: Map<TypeKey, Access>,
)
    requires
        forall|i: int| 0 <= i < reqs.len() ==> dom.contains(#[trigger] reqs[i].key),
        forall|i: int, j: int|
            0 <= i < j < reqs.len() && reqs[i].key == reqs[j].key ==> reqs[i].access
                == Access::Shared && reqs[j].access == Access::Shared,
        forall|i: int|
            0 <= i < reqs.len() && led.contains_key(#[trigger] reqs[i].key) ==> led[reqs[i].key]
                == Access::Shared && reqs[i].access == Access::Shared,
    ensures
        resolve_req(reqs, dom, led) is Ok,
    decreases reqs.len(),
{
    if reqs.len() > 0 {
        let r = reqs.first();
        let led1 = led.insert(r.key, r.access);
        let rest = reqs.drop_first();
        assert forall|i: int| 0 <= i < rest.len() implies #[trigger] rest[i] == reqs[i + 1] by {}
        assert forall|i: int, j: int|
            0 <= i < j < rest.len() && rest[i].key == rest[j].key implies rest[i].access
            == Access::Shared && rest[j].access == Access::Shared by {
            assert(reqs[i + 1].key == reqs[j + 1].key);
        }
        assert forall|i: int|
            0 <= i < rest.len() && led1.contains_key(#[trigger] rest[i].key) implies led1[rest[i].key]
            == Access::Shared && rest[i].access == Access::Shared by {
            if rest[i].key == r.key {
                assert(reqs[0].key == reqs[i + 1].key);
            }
        }
        lemma_resolve_all_shared_from(rest, dom, led1);
    }
}

/// Shared requests never conflict: a parameter list whose keys are all in
/// the store, and whose repeated keys are only ever requested shared,
/// resolves successfully — in particular, two shared requests for one
/// key both succeed.
pub proof fn lemma_shared_params_resolve(reqs: Seq<Request>, dom: Set<TypeKey>)
    requires
        forall|i: int| 0 <= i < reqs.len() ==> dom.contains(#[trigger] reqs[i].key),
        forall|i: int, j: int|
            0 <= i < j < reqs.len() && reqs[i].key == reqs[j].key ==> reqs[i].access
                == Access::Shared && reqs[j].access == Access::Shared,
    ensures
        resolve_outcome(reqs, dom) is Ok,
{
    lemma_resolve_all_shared_from(reqs, dom, Map::empty());
}

proof fn lemma_resolve_conflict_from(
    reqs: Seq<Request>,
    dom: Set<TypeKey>,
    led: Map<TypeKey, Access>,
)
    requires
        forall|i: int| 0 <= i < reqs.len() ==> dom.contains(#[trigger] reqs[i].key),
        (exists|i: int, j: int|
            0 <= i < j < reqs.len() && reqs[i].key == reqs[j].key && (reqs[i].access
                == Access::Exclusive || reqs[j].access == Access::Exclusive)) || (exists|i: int|
            0 <= i < reqs.len() && led.contains_key(#[trigger] reqs[i].key) && !(led[reqs[i].key]
                == Access::Shared && reqs[i].access == Access::Shared)),
    ensures
        exists|k: TypeKey| resolve_req(reqs, dom, led) == Err::<(), AccessError>(AccessError::BorrowConflict(k)),
    decreases reqs.len(),
{
    let r = reqs.first();
    if led.contains_key(r.key) && !(led[r.key] == Access::Shared && r.access == Access::Shared) {
        assert(resolve_req(reqs, dom, led) == Err::<(), AccessError>(AccessError::BorrowConflict(r.key)));
    } else {
        let led1 = led.insert(r.key, r.access);
        let rest = reqs.drop_first();
        assert forall|t: int| 0 <= t < rest.len() implies #[trigger] rest[t] == reqs[t + 1] by {}
        if exists|i: int, j: int|
            0 <= i < j < reqs.len() && reqs[i].key == reqs[j].key && (reqs[i].access
                == Access::Exclusive || reqs[j].access == Access::Exclusive) {
            let (i, j) = choose|i: int, j: int|
                0 <= i < j < reqs.len() && reqs[i].key == reqs[j].key && (reqs[i].access
                    == Access::Exclusive || reqs[j].access == Access::Exclusive);
            if i == 0 {
                assert(rest[j - 1].key == r.key);
                assert(led1.contains_key(rest[j - 1].key));
                assert(!(led1[rest[j - 1].key] == Access::Shared && rest[j - 1].access
                    == Access::Shared));
            } else {
                assert(rest[i - 1].key == rest[j - 1].key && (rest[i - 1].access
                    == Access::Exclusive || rest[j - 1].access == Access::Exclusive));
                assert(0 <= i - 1 < j - 1 < rest.len());
            }
        } else {
            let i = choose|i: int|
                0 <= i < reqs.len() && led.contains_key(#[trigger] reqs[i].key)
                    && !(led[reqs[i].key] == Access::Shared && reqs[i].access == Access::Shared);
            assert(i != 0);
            if reqs[i].key == r.key {
                assert(led[r.key] == Access::Shared && r.access == Access::Shared);
                assert(led1.contains_key(rest[i - 1].key));
                assert(!(led1[rest[i - 1].key] == Access::Shared && rest[i - 1].access
                    == Access::Shared));
            } else {
                assert(led1.contains_key(rest[i - 1].key));
                assert(!(led1[rest[i - 1].key] == Access::Shared && rest[i - 1].access
                    == Access::Shared));
            }
        }
        lemma_resolve_conflict_from(rest, dom, led1);
        let k = choose|k: TypeKey|
            resolve_req(rest, dom, led1) == Err::<(), AccessError>(AccessError::BorrowConflict(k));
        assert(resolve_req(reqs, dom, led) == Err::<(), AccessError>(AccessError::BorrowConflict(k)));
    }
}

/// An exclusive request tolerates no other request for its key: a
/// parameter list whose keys are all in the store, but which requests
/// some key twice, at least once exclusively, fails to resolve with a
/// borrow conflict — before any handler body would run.
pub proof fn lemma_exclusive_request_conflicts(reqs: Seq<Request>, dom: Set<TypeKey>)
    requires
        forall|i: int| 0 <= i < reqs.len() ==> dom.contains(#[trigger] reqs[i].key),
        exists|i: int, j: int|
            0 <= i < j < reqs.len() && reqs[i].key == reqs[j].key && (reqs[i].access
                == Access::Exclusive || reqs[j].access == Access::Exclusive),
    ensures
        exists|k: TypeKey| resolve_outcome(reqs, dom) == Err::<(), AccessError>(AccessError::BorrowConflict(k)),
{
    lemma_resolve_conflict_from(reqs, dom, Map::empty());
}

/// The resolved arguments a handler body runs with: one value per
/// declared parameter, in declaration order; parameters that share a key
/// read the same value.
pub struct Args<'a, R> {
    values: Vec<&'a R>,
}

impl<'a, R> Args<'a, R> {
    /// How many parameters were resolved.
    pub fn len(&self) -> (n: usize)
        ensures
            n == self@.len(),
    {
        self.values.len()
    }

    /// The value resolved for parameter `i`, or nothing when `i` is not a
    /// parameter position.
    pub fn read(&self, i: usize) -> (r: Option<&'a R>)
        ensures
            match r {
                Some(v) => i < self@.len() && *v == self@[i as int],
                None => i >= self@.len(),
            },
    {
        if i < self.values.len() {
            Some(self.values[i])
        } else {
            None
        }
    }
}

impl<'a, R> View for Args<'a, R> {
    type V = Seq<R>;

    closed spec fn view(&self) -> Seq<R> {
        self.values@.map_values(|v: &R| *v)
    }
}

/// The values a handler hands back for parameters it requested
/// exclusively: pairs of a parameter position and the value to store
/// under that parameter's key.  An entry naming a position that was not
/// declared exclusive is ignored on write-back.
pub struct Writes<R> {
    entries: Vec<(usize, R)>,
}

impl<R> Writes<R> {
    /// Creates an empty write set.
    pub fn new() -> (w: Writes<R>)
        ensures
            w@ == Seq::<(usize, R)>::empty(),
    {
        Writes { entries: Vec::new() }
    }

    /// Records `value` as the new value of parameter `param`.  A later
    /// entry for the same parameter wins.
    pub fn set(&mut self, param: usize, value: R)
        ensures
            final(self)@ == old(self)@.push((param, value)),
    {
        self.entries.push((param, value));
    }
}

impl<R> View for Writes<R> {
    type V = Seq<(usize, R)>;

    closed spec fn view(&self) -> Seq<(usize, R)> {
        self.entries@
    }
}

/// A handler: an ordered list of declared capability parameters, and a
/// body that runs on the resolved arguments.
///
/// Implementations are the host application's own code, so nothing is
/// assumed of them here: the parameter list is read once, when the
/// handler is bound, and the body may do as it pleases with the values
/// it reads, the writes it records and the commands it queues.  Any
/// number of parameters is supported.
pub trait Handler<R> {
    /// The declared parameter list, left to right.
    fn params(&self) -> Vec<Request>;

    /// The body.  It reads the resolved arguments, returns the values to
    /// store back for its exclusively requested parameters, and may
    /// queue commands to be applied once the running phase completes.
    fn call(&mut self, args: &Args<'_, R>, commands: &mut Commands<R>) -> Writes<R>;
}

/// A handler bound for invocation: the body together with the parameter
/// list it declared when it was bound.  Built once at registration,
/// invoked many times.
pub struct HandlerFunction<H> {
    f: H,
    params: Vec<Request>,
}

/// Turns a handler into a bound [`HandlerFunction`].
pub trait IntoHandler<R>: Sized {
    /// Binds the handler, reading its parameter list once.
    fn into_handler(self) -> (h: HandlerFunction<Self>)
        ensures
            h.func() == self,
    ;
}

impl<R, H: Handler<R>> IntoHandler<R> for H {
    fn into_handler(self) -> (h: HandlerFunction<H>) {
        let params = self.params();
        HandlerFunction { f: self, params }
    }
}

impl<H> HandlerFunction<H> {
    /// The parameter list this handler was bound with.
    pub closed spec fn requests(&self) -> Seq<Request> {
        self.params@
    }

    /// The handler body.
    pub closed spec fn func(&self) -> H {
        self.f
    }

    /// Runs the handler against `state`: resolves every declared
    /// parameter, left to right, fresh against the current store; the
    /// first failure aborts with that failure, before the body runs and
    /// with nothing changed.  On success the body runs on the resolved
    /// values, and what it hands back is stored under the keys the
    /// handler requested exclusively: no other key changes its value,
    /// and no key appears or disappears.
    pub fn run<R>(&mut self, state: &mut State<R>, commands: &mut Commands<R>) -> (r: Result<
        (),
        AccessError,
    >) where H: Handler<R>
        requires
            old(state).wf(),
        ensures
            final(state).wf(),
            final(state)@.dom() == old(state)@.dom(),
            final(self).requests() == old(self).requests(),
            r == resolve_outcome(old(self).requests(), old(state)@.dom()),
            r is Err ==> *final(state) == *old(state) && *final(self) == *old(self)
                && *final(commands) == *old(commands),
            forall|k: TypeKey|
                old(state)@.dom().contains(k) && !excl_keys(old(self).requests()).contains(k)
                    ==> final(state)@[k] == old(state)@[k],
    {
        let ghost reqs = self.params@;
        let ghost dom = old(state)@.dom();

        // Resolution analysis: walk the declared list, granting each
        // request in the ledger or aborting on the first failure.
        let mut ledger: State<BorrowFlag> = State::new();
        proof {
            assert(reqs.skip(0) =~= reqs);
            assert(map_access(ledger@) =~= Map::<TypeKey, Access>::empty());
        }
        let n = self.params.len();
        let mut i: usize = 0;
        while i < n
            invariant
                old(state).wf(),
                n == self.params@.len(),
                i <= n,
                reqs == self.params@,
                dom == old(state)@.dom(),
                *state == *old(state),
                *self == *old(self),
                ledger.wf(),
                resolve_outcome(reqs, dom) == resolve_req(
                    reqs.skip(i as int),
                    dom,
                    map_access(ledger@),
                ),
                forall|j: int| 0 <= j < i ==> dom.contains(#[trigger] reqs[j].key),
                forall|k: TypeKey|
                    ledger@.dom().contains(k) ==> flag_count_ok(#[trigger] ledger@[k], i as int),
            decreases n - i,
        {
            let req = self.params[i];
            proof {
                assert(reqs.skip(i as int).first() == reqs[i as int]);
                assert(reqs.skip(i as int).drop_first() =~= reqs.skip(i as int + 1));
                assert(map_access(ledger@).dom() =~= ledger@.dom());
            }
            if !state.has(req.key) {
                return Err(AccessError::MissingResource(req.key));
            }
            match ledger.get(Res::new(req.key)) {
                Err(_) => {
                    let ghost led0 = ledger@;
                    let flag = match req.access {
                        Access::Shared => BorrowFlag::Shared(1),
                        Access::Exclusive => BorrowFlag::Exclusive,
                    };
                    ledger.add(req.key, flag);
                    proof {
                        assert(map_access(led0.insert(req.key, flag)) =~= map_access(led0).insert(
                            req.key,
                            req.access,
                        ));
                    }
                },
                Ok(flag) => {
                    let fl = *flag;
                    match (fl, req.access) {
                        (BorrowFlag::Shared(c), Access::Shared) => {
                            let ghost led0 = ledger@;
                            proof {
                                assert(flag_count_ok(led0[req.key], i as int));
                                assert(c < n);
                            }
                            ledger.add(req.key, BorrowFlag::Shared(c + 1));
                            proof {
                                assert(map_access(led0)[req.key] == Access::Shared);
                                assert(map_access(
                                    led0.insert(req.key, BorrowFlag::Shared((c + 1) as usize)),
                                ) =~= map_access(led0).insert(req.key, Access::Shared));
                            }
                        },
                        _ => {
                            proof {
                                assert(map_access(ledger@)[req.key] == flag_access(fl));
                            }
                            return Err(AccessError::BorrowConflict(req.key));
                        },
                    }
                },
            }
            i += 1;
        }
        proof {
            assert(reqs.skip(n as int) =~= Seq::<Request>::empty());
            lemma_resolve_ok_present(reqs, dom, Map::empty());
        }

        // Resolution succeeded: gather one reference per parameter and run
        // the body on them.
        let writes = {
            let mut values: Vec<&R> = Vec::new();
            let mut j: usize = 0;
            while j < n
                invariant
                    old(state).wf(),
                    n == self.params@.len(),
                    j <= n,
                    reqs == self.params@,
                    dom == old(state)@.dom(),
                    *state == *old(state),
                    *self == *old(self),
                    values@.len() == j,
                    forall|t: int| 0 <= t < reqs.len() ==> dom.contains(#[trigger] reqs[t].key),
                    forall|t: int|
                        0 <= t < j ==> *(#[trigger] values@[t]) == old(state)@[reqs[t].key],
                decreases n - j,
            {
                let req = self.params[j];
                match state.get(Res::new(req.key)) {
                    Ok(v) => values.push(v),
                    Err(_) => vstd::pervasive::unreached(),
                }
                j += 1;
            }
            let args = Args { values };
            self.f.call(&args, commands)
        };

        // Store what the body handed back for the exclusively requested
        // parameters; everything else keeps its value.
        let mut writes = writes;
        while writes.entries.len() > 0
            invariant
                state.wf(),
                state@.dom() == dom,
                dom == old(state)@.dom(),
                reqs == self.params@,
                n == self.params@.len(),
                forall|t: int| 0 <= t < reqs.len() ==> dom.contains(#[trigger] reqs[t].key),
                forall|k: TypeKey|
                    dom.contains(k) && !excl_keys(reqs).contains(k) ==> state@[k] == old(
                        state,
                    )@[k],
            decreases writes.entries@.len(),
        {
            let (idx, value) = writes.entries.remove(0);
            if idx < self.params.len() {
                let req = self.params[idx];
                match req.access {
                    Access::Exclusive => {
                        proof {
                            assert(excl_keys(reqs).contains(req.key));
                        }
                        let ghost pre = state@;
                        state.add(req.key, value);
                        proof {
                            assert(state@.dom() =~= pre.dom());
                        }
                    },
                    Access::Shared => {},
                }
            }
        }
        Ok(())
    }
}

} // verus!
