use charbs::capability::TypeKey;
use charbs::events::{Event, EventBus};

#[derive(Clone, Debug, PartialEq)]
struct CustomEvent1 {
    message: String,
}

#[derive(Clone, Debug, PartialEq)]
struct CustomEvent2 {
    data: u32,
}

#[derive(Clone, Debug, PartialEq)]
enum TestEvent {
    First(CustomEvent1),
    Second(CustomEvent2),
}

impl Event for TestEvent {
    fn key(&self) -> TypeKey {
        match self {
            TestEvent::First(_) => TypeKey::new(100),
            TestEvent::Second(_) => TypeKey::new(101),
        }
    }
}

#[test]
fn event_bus_works() {
    let event = CustomEvent1 {
        message: "event1".to_string(),
    };

    let mut event_bus: EventBus<TestEvent> = EventBus::default();
    let wrapped = TestEvent::First(event.clone());
    event_bus.write(wrapped.key(), wrapped.clone());

    let mut test_events = event_bus.read(TypeKey::new(100));

    assert_eq!(test_events.pop(), Some(TestEvent::First(event)));
}

#[test]
fn event_bus_clears_events() {
    let event1 = CustomEvent1 {
        message: "event1".to_string(),
    };
    let event2 = CustomEvent1 {
        message: "event2".to_string(),
    };

    let mut event_bus: EventBus<TestEvent> = EventBus::default();
    event_bus.write(TypeKey::new(100), TestEvent::First(event1));
    event_bus.write(TypeKey::new(100), TestEvent::First(event2));

    event_bus.clear();

    let test_events = event_bus.read(TypeKey::new(100));

    assert_eq!(test_events.len(), 0);
}

#[test]
fn event_bus_multiple_types() {
    let event1 = CustomEvent1 {
        message: "event1".to_string(),
    };
    let event2 = CustomEvent2 { data: 42 };

    let mut event_bus: EventBus<TestEvent> = EventBus::default();
    event_bus.write(TypeKey::new(100), TestEvent::First(event1.clone()));
    event_bus.write(TypeKey::new(101), TestEvent::Second(event2.clone()));

    let mut test_events = event_bus.read(TypeKey::new(100));
    let mut custom_events = event_bus.read(TypeKey::new(101));

    assert_eq!(test_events.pop(), Some(TestEvent::First(event1)));
    assert_eq!(custom_events.pop(), Some(TestEvent::Second(event2)));
}

#[test]
fn window_resized_event_carries_its_key() {
    let resized = charbs::window::WindowResized { width: 800, height: 600 };

    let mut event_bus: EventBus<charbs::window::WindowResized> = EventBus::new();
    event_bus.write(resized.key(), resized);

    let events = event_bus.read(charbs::capability::TypeKey::new(4));
    assert_eq!(
        events,
        vec![charbs::window::WindowResized { width: 800, height: 600 }]
    );
}

#[test]
fn event_bus_reads_in_write_order() {
    let mut event_bus: EventBus<TestEvent> = EventBus::default();
    let event1 = CustomEvent1 {
        message: "event1".to_string(),
    };
    let event2 = CustomEvent1 {
        message: "event2".to_string(),
    };

    event_bus.write(TypeKey::new(100), TestEvent::First(event1.clone()));
    event_bus.write(TypeKey::new(100), TestEvent::First(event2.clone()));

    let test_events = event_bus.read(TypeKey::new(100));

    assert_eq!(
        test_events,
        vec![TestEvent::First(event1), TestEvent::First(event2)]
    );

    let emptied = event_bus.read(TypeKey::new(100));
    assert_eq!(emptied.len(), 0);
}
