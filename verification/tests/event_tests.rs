use kittest::{ActionKind, ElementState, Event, EventQueue, Key, MouseButton, NodeData, Role,
    SimulatedEvent, State, TreeUpdate};

fn node(id: u64, role: Role, label: Option<&str>, parent: Option<u64>, children: Vec<u64>) -> NodeData {
    NodeData {
        id,
        role,
        label: label.map(|s| s.to_string()),
        value: None,
        focused: false,
        hidden: false,
        disabled: false,
        toggled: None,
        children,
        parent,
        labelled_by: vec![],
        center: None,
    }
}

fn button_state(center: Option<accesskit::Point>) -> State {
    let mut button = node(1, Role::Button, Some("Go"), Some(0), vec![]);
    button.center = center;
    let nodes = vec![node(0, Role::Window, None, None, vec![1]), button];
    State::new(TreeUpdate { nodes, root: Some(0) }).unwrap()
}

fn is_key(e: &Event, state: ElementState, key: Key) -> bool {
    matches!(e, Event::Simulated(SimulatedEvent::KeyInput { state: s, key: k }) if *s == state && *k == key)
}

fn is_focus(e: &Event, target: u64) -> bool {
    matches!(e, Event::ActionRequest(r) if r.action == ActionKind::Focus && r.target == target && r.data.is_none())
}

#[test]
fn simulate_click_enqueues_press_then_release() {
    let state = button_state(None);
    state.root().get_by_label("Go").unwrap().simulate_click();
    let events = state.take_events();
    assert_eq!(events.len(), 2);
    assert!(matches!(
        &events[0],
        Event::Simulated(SimulatedEvent::MouseInput { state: ElementState::Pressed, button: MouseButton::Left })
    ));
    assert!(matches!(
        &events[1],
        Event::Simulated(SimulatedEvent::MouseInput { state: ElementState::Released, button: MouseButton::Left })
    ));
}

#[test]
fn key_combination_presses_in_order_and_releases_in_reverse() {
    let state = button_state(None);
    let target = state.root().get_by_label("Go").unwrap();
    target.key_combination(&vec![Key::Control, Key::A]);
    let events = state.take_events();
    assert_eq!(events.len(), 5);
    assert!(is_focus(&events[0], 1));
    assert!(is_key(&events[1], ElementState::Pressed, Key::Control));
    assert!(is_key(&events[2], ElementState::Pressed, Key::A));
    assert!(is_key(&events[3], ElementState::Released, Key::A));
    assert!(is_key(&events[4], ElementState::Released, Key::Control));
}

#[test]
fn drain_returns_fifo_and_leaves_the_queue_empty() {
    let state = button_state(None);
    let target = state.root().get_by_label("Go").unwrap();
    target.focus();
    target.click();
    let events = state.take_events();
    assert_eq!(events.len(), 2);
    assert!(is_focus(&events[0], 1));
    assert!(matches!(
        &events[1],
        Event::ActionRequest(r) if r.action == ActionKind::Click && r.target == 1
    ));
    let second_drain = state.take_events();
    assert!(second_drain.is_empty());
}

#[test]
fn type_text_focuses_then_inserts_the_text() {
    let state = button_state(None);
    state.root().get_by_label("Go").unwrap().type_text("hello");
    let events = state.take_events();
    assert_eq!(events.len(), 2);
    assert!(is_focus(&events[0], 1));
    assert!(matches!(&events[1], Event::Simulated(SimulatedEvent::Ime(s)) if s.as_str() == "hello"));
}

#[test]
fn key_press_is_focus_then_down_then_up() {
    let state = button_state(None);
    let target = state.root().get_by_label("Go").unwrap();
    target.key_press(Key::Enter);
    let events = state.take_events();
    assert_eq!(events.len(), 3);
    assert!(is_focus(&events[0], 1));
    assert!(is_key(&events[1], ElementState::Pressed, Key::Enter));
    assert!(is_key(&events[2], ElementState::Released, Key::Enter));
}

#[test]
fn press_keys_taps_each_key_independently() {
    let state = button_state(None);
    let target = state.root().get_by_label("Go").unwrap();
    target.press_keys(&vec![Key::H, Key::I]);
    let events = state.take_events();
    assert_eq!(events.len(), 5);
    assert!(is_focus(&events[0], 1));
    assert!(is_key(&events[1], ElementState::Pressed, Key::H));
    assert!(is_key(&events[2], ElementState::Released, Key::H));
    assert!(is_key(&events[3], ElementState::Pressed, Key::I));
    assert!(is_key(&events[4], ElementState::Released, Key::I));
}

#[test]
fn key_down_and_key_up_are_single_edges() {
    let state = button_state(None);
    let target = state.root().get_by_label("Go").unwrap();
    target.key_down(Key::Shift);
    target.key_up(Key::Shift);
    let events = state.take_events();
    assert_eq!(events.len(), 4);
    assert!(is_focus(&events[0], 1));
    assert!(is_key(&events[1], ElementState::Pressed, Key::Shift));
    assert!(is_focus(&events[2], 1));
    assert!(is_key(&events[3], ElementState::Released, Key::Shift));
}

#[test]
fn hover_needs_bounds() {
    let state = button_state(None);
    let target = state.root().get_by_label("Go").unwrap();
    match target.hover() {
        Err(kittest::Error::MissingBounds) => {}
        _ => panic!("expected MissingBounds"),
    }
    assert!(state.take_events().is_empty());

    let state = button_state(Some(accesskit::Point { x: 4.0, y: 8.0 }));
    let target = state.root().get_by_label("Go").unwrap();
    target.hover().unwrap();
    let events = state.take_events();
    assert_eq!(events.len(), 1);
    assert!(matches!(
        &events[0],
        Event::Simulated(SimulatedEvent::CursorMoved { position }) if position.x == 4.0 && position.y == 8.0
    ));
}

#[test]
fn groups_from_one_handle_stay_contiguous() {
    let state = button_state(None);
    let target = state.root().get_by_label("Go").unwrap();
    target.simulate_click();
    target.key_combination(&vec![Key::Control, Key::C]);
    target.click();
    let events = state.take_events();
    assert_eq!(events.len(), 8);
    assert!(matches!(
        &events[0],
        Event::Simulated(SimulatedEvent::MouseInput { state: ElementState::Pressed, .. })
    ));
    assert!(matches!(
        &events[1],
        Event::Simulated(SimulatedEvent::MouseInput { state: ElementState::Released, .. })
    ));
    assert!(is_focus(&events[2], 1));
    assert!(is_key(&events[3], ElementState::Pressed, Key::Control));
    assert!(is_key(&events[4], ElementState::Pressed, Key::C));
    assert!(is_key(&events[5], ElementState::Released, Key::C));
    assert!(is_key(&events[6], ElementState::Released, Key::Control));
    assert!(matches!(
        &events[7],
        Event::ActionRequest(r) if r.action == ActionKind::Click && r.target == 1
    ));
}

#[test]
fn event_queue_model_enqueues_and_drains_in_order() {
    let mut queue = EventQueue::new();
    queue.enqueue(Event::Simulated(SimulatedEvent::Ime("a".to_string())));
    let group = vec![
        Event::Simulated(SimulatedEvent::Ime("b".to_string())),
        Event::Simulated(SimulatedEvent::Ime("c".to_string())),
    ];
    queue.enqueue_group(group);
    let drained = queue.drain();
    assert_eq!(drained.len(), 3);
    for (event, expected) in drained.iter().zip(["a", "b", "c"]) {
        assert!(matches!(event, Event::Simulated(SimulatedEvent::Ime(s)) if s.as_str() == expected));
    }
    assert!(queue.drain().is_empty());
}

#[test]
fn element_state_click_is_pressed_then_released() {
    let edges = ElementState::click();
    assert_eq!(edges, vec![ElementState::Pressed, ElementState::Released]);
}

#[test]
fn queued_events_survive_a_snapshot_update() {
    let mut state = button_state(None);
    state.root().get_by_label("Go").unwrap().click();
    let nodes = vec![node(0, Role::Window, None, None, vec![1]), node(1, Role::Button, Some("Go"), Some(0), vec![])];
    state.update(TreeUpdate { nodes, root: Some(0) }).unwrap();
    let events = state.take_events();
    assert_eq!(events.len(), 1);
    assert!(matches!(
        &events[0],
        Event::ActionRequest(r) if r.action == ActionKind::Click && r.target == 1
    ));
}
