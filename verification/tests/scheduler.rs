use charbs::app::{App, Commands, Init, PreInit, Update};
use charbs::capability::{AccessError, Res, ResMut, TypeKey};
use charbs::capability::HandlerParam;
use charbs::handler::{Args, Handler, Writes};
use charbs::capability::Request;
use charbs::handler::IntoHandler;
use charbs::schedule::Scheduler;
use charbs::state::State;
use charbs::window::WindowApp;

const COUNTER: u64 = 10;

struct IncBody;

impl Handler<i32> for IncBody {
    fn params(&self) -> Vec<Request> {
        vec![ResMut::new(TypeKey::new(COUNTER)).request()]
    }

    fn call(&mut self, args: &Args<'_, i32>, _commands: &mut Commands<i32>) -> Writes<i32> {
        let mut writes = Writes::new();
        if let Some(value) = args.read(0) {
            if *value < 10 {
                writes.set(0, *value + 1);
            }
        }
        writes
    }
}

#[test]
fn counter_reaches_ten() {
    let mut app: App<i32, IncBody> = App::new();
    app.add_state(TypeKey::new(COUNTER), 0);
    app.add_handler(Init, IncBody);
    app.add_handler(Update, IncBody);

    assert_eq!(app.run_schedule(Init), Ok(()));
    assert_eq!(
        app.state().get(Res::new(TypeKey::new(COUNTER))),
        Ok(&1)
    );

    for _ in 0..9 {
        assert_eq!(app.run_schedule(Update), Ok(()));
    }
    assert_eq!(
        app.state().get(Res::new(TypeKey::new(COUNTER))),
        Ok(&10)
    );

    // further updates leave the counter where it is
    assert_eq!(app.run_schedule(Update), Ok(()));
    assert_eq!(
        app.state().get(Res::new(TypeKey::new(COUNTER))),
        Ok(&10)
    );
}

struct TagBody(i32);

impl Handler<Vec<i32>> for TagBody {
    fn params(&self) -> Vec<Request> {
        vec![ResMut::new(TypeKey::new(5)).request()]
    }

    fn call(
        &mut self,
        args: &Args<'_, Vec<i32>>,
        _commands: &mut Commands<Vec<i32>>,
    ) -> Writes<Vec<i32>> {
        let mut writes = Writes::new();
        if let Some(trace) = args.read(0) {
            let mut grown = trace.clone();
            grown.push(self.0);
            writes.set(0, grown);
        }
        writes
    }
}

#[test]
fn handlers_run_in_registration_order_every_time() {
    let mut app: App<Vec<i32>, TagBody> = App::new();
    app.add_state(TypeKey::new(5), Vec::new());
    app.add_handler(Update, TagBody(1));
    app.add_handler(Update, TagBody(2));
    app.add_handler(Update, TagBody(3));

    assert_eq!(app.run_schedule(Update), Ok(()));
    assert_eq!(
        app.state().get(Res::new(TypeKey::new(5))),
        Ok(&vec![1, 2, 3])
    );

    assert_eq!(app.run_schedule(Update), Ok(()));
    assert_eq!(
        app.state().get(Res::new(TypeKey::new(5))),
        Ok(&vec![1, 2, 3, 1, 2, 3])
    );
}

#[test]
fn run_without_handlers_is_a_noop() {
    let mut app: App<i32, IncBody> = App::new();
    app.add_state(TypeKey::new(COUNTER), 5);

    assert_eq!(app.run_schedule(Update), Ok(()));
    assert_eq!(app.state().get(Res::new(TypeKey::new(COUNTER))), Ok(&5));
}

struct SumBody;

impl Handler<i32> for SumBody {
    fn params(&self) -> Vec<Request> {
        vec![
            Res::new(TypeKey::new(1)).request(),
            Res::new(TypeKey::new(1)).request(),
        ]
    }

    fn call(&mut self, args: &Args<'_, i32>, commands: &mut Commands<i32>) -> Writes<i32> {
        if let (Some(a), Some(b)) = (args.read(0), args.read(1)) {
            commands.add_state(TypeKey::new(2), *a + *b);
        }
        Writes::new()
    }
}

#[test]
fn two_shared_requests_both_succeed() {
    let mut app: App<i32, SumBody> = App::new();
    app.add_state(TypeKey::new(1), 7);
    app.add_handler(Update, SumBody);

    assert_eq!(app.run_schedule(Update), Ok(()));

    // the body ran and read the same value through both parameters
    assert_eq!(app.state().get(Res::new(TypeKey::new(2))), Ok(&14));
}

struct ConflictBody;

impl Handler<i32> for ConflictBody {
    fn params(&self) -> Vec<Request> {
        vec![
            ResMut::new(TypeKey::new(1)).request(),
            Res::new(TypeKey::new(1)).request(),
        ]
    }

    fn call(&mut self, _args: &Args<'_, i32>, commands: &mut Commands<i32>) -> Writes<i32> {
        commands.add_state(TypeKey::new(3), 1);
        let mut writes = Writes::new();
        writes.set(0, 99);
        writes
    }
}

#[test]
fn exclusive_beside_any_other_request_conflicts() {
    let mut app: App<i32, ConflictBody> = App::new();
    app.add_state(TypeKey::new(1), 7);
    app.add_handler(Update, ConflictBody);

    assert_eq!(
        app.run_schedule(Update),
        Err(AccessError::BorrowConflict(TypeKey::new(1)))
    );

    // the abort came before the body ran: no command was queued, and the
    // resource kept its value
    assert!(!app.state().has(TypeKey::new(3)));
    assert_eq!(app.state().get(Res::new(TypeKey::new(1))), Ok(&7));
}

struct NeedsMissing;

impl Handler<i32> for NeedsMissing {
    fn params(&self) -> Vec<Request> {
        vec![Res::new(TypeKey::new(40)).request()]
    }

    fn call(&mut self, _args: &Args<'_, i32>, commands: &mut Commands<i32>) -> Writes<i32> {
        commands.add_state(TypeKey::new(3), 1);
        Writes::new()
    }
}

#[test]
fn missing_resource_aborts_before_the_body() {
    let mut app: App<i32, NeedsMissing> = App::new();
    app.add_handler(Update, NeedsMissing);

    assert_eq!(
        app.run_schedule(Update),
        Err(AccessError::MissingResource(TypeKey::new(40)))
    );
    assert!(!app.state().has(TypeKey::new(3)));
}

enum DeferBody {
    Producer,
    Consumer,
}

impl Handler<i32> for DeferBody {
    fn params(&self) -> Vec<Request> {
        match self {
            DeferBody::Producer => vec![],
            DeferBody::Consumer => vec![Res::new(TypeKey::new(50)).request()],
        }
    }

    fn call(&mut self, args: &Args<'_, i32>, commands: &mut Commands<i32>) -> Writes<i32> {
        match self {
            DeferBody::Producer => {
                commands.add_state(TypeKey::new(50), 123);
            }
            DeferBody::Consumer => {
                if let Some(v) = args.read(0) {
                    commands.add_state(TypeKey::new(51), *v);
                }
            }
        }
        Writes::new()
    }
}

#[test]
fn deferred_commands_become_visible_next_phase() {
    let mut app: App<i32, DeferBody> = App::new();
    app.add_handler(Update, DeferBody::Producer);
    app.add_handler(Update, DeferBody::Consumer);

    // within the same phase the queued insertion is invisible: the
    // consumer aborts on the missing resource
    assert_eq!(
        app.run_schedule(Update),
        Err(AccessError::MissingResource(TypeKey::new(50)))
    );

    // but the insertion was applied once the phase completed
    assert_eq!(app.state().get(Res::new(TypeKey::new(50))), Ok(&123));

    // so the next phase sees it
    assert_eq!(app.run_schedule(Update), Ok(()));
    assert_eq!(app.state().get(Res::new(TypeKey::new(51))), Ok(&123));
}

struct SneakyWriter;

impl Handler<i32> for SneakyWriter {
    fn params(&self) -> Vec<Request> {
        vec![Res::new(TypeKey::new(1)).request()]
    }

    fn call(&mut self, _args: &Args<'_, i32>, _commands: &mut Commands<i32>) -> Writes<i32> {
        let mut writes = Writes::new();
        writes.set(0, 99);
        // not a parameter position at all: ignored as well
        writes.set(7, 99);
        writes
    }
}

#[test]
fn writes_to_shared_parameters_are_ignored() {
    let mut app: App<i32, SneakyWriter> = App::new();
    app.add_state(TypeKey::new(1), 7);
    app.add_handler(Update, SneakyWriter);

    assert_eq!(app.run_schedule(Update), Ok(()));
    assert_eq!(app.state().get(Res::new(TypeKey::new(1))), Ok(&7));
}

struct Bump;

impl Handler<i32> for Bump {
    fn params(&self) -> Vec<Request> {
        vec![ResMut::new(TypeKey::new(COUNTER)).request()]
    }

    fn call(&mut self, args: &Args<'_, i32>, _commands: &mut Commands<i32>) -> Writes<i32> {
        let mut writes = Writes::new();
        if let Some(value) = args.read(0) {
            writes.set(0, *value + 1);
        }
        writes
    }
}

#[test]
fn app_run_executes_preinit_then_init() {
    let mut app: App<i32, Bump> = App::new();
    app.add_state(TypeKey::new(COUNTER), 0);
    app.add_handler(PreInit, Bump);
    app.add_handler(Init, Bump);

    assert_eq!(app.run(), Ok(()));
    assert_eq!(app.state().get(Res::new(TypeKey::new(COUNTER))), Ok(&2));
}

#[test]
fn scheduler_dispatches_by_label() {
    let mut scheduler: Scheduler<IncBody> = Scheduler::new();
    scheduler.add_handler(Update, <IncBody as IntoHandler<i32>>::into_handler(IncBody));

    let mut state: State<i32> = State::new();
    state.add(TypeKey::new(COUNTER), 0);
    let mut commands: Commands<i32> = Commands::new();

    assert_eq!(scheduler.run(Update, &mut state, &mut commands), Ok(()));
    assert_eq!(state.get(Res::new(TypeKey::new(COUNTER))), Ok(&1));

    // a label nobody registered under is a no-op, not an error
    assert_eq!(scheduler.run(Init, &mut state, &mut commands), Ok(()));
    assert_eq!(state.get(Res::new(TypeKey::new(COUNTER))), Ok(&1));
}

#[test]
fn commands_queue_in_order() {
    let mut commands: Commands<i32> = Commands::new();
    commands.add_state(TypeKey::new(1), 10);
    commands.add_state(TypeKey::new(2), 20);

    let queued = commands.drain();
    assert_eq!(queued, vec![(TypeKey::new(1), 10), (TypeKey::new(2), 20)]);
    assert_eq!(commands.drain().len(), 0);
}

#[test]
fn window_app_wraps_the_application() {
    let mut app: App<i32, Bump> = App::new();
    app.add_state(TypeKey::new(COUNTER), 41);
    app.add_handler(Update, Bump);

    let mut window_app = WindowApp::new(app);
    assert_eq!(window_app.app().run_schedule(Update), Ok(()));
    assert_eq!(
        window_app.app().state().get(Res::new(TypeKey::new(COUNTER))),
        Ok(&42)
    );
}
