//! Interaction events and the event queue model.
//!
//! An `Event` is an abstract description of one input to hand to the
//! application under test; the adapter drains the queue once per simulated
//! frame and translates each event into its toolkit's native input.

use vstd::prelude::*;

verus! {

/// accesskit's `Point` carries the cursor position of a simulated cursor
/// event.  The library never reads its coordinates (coordinate math is the
/// adapter's concern): the value is carried through opaquely.
#[verifier::external_type_specification]
#[verifier::external_body]
pub struct ExPoint(accesskit::Point);

/// The kind of an accessibility action request.
#[derive(Clone, Copy, Debug, PartialEq, Eq, Structural)]
pub enum ActionKind {
    /// The default action: a semantic click.
    Click,
    Focus,
    Blur,
    ScrollIntoView,
    SetValue,
}

/// A raw accessibility action request: ask the application to perform
/// `action` on the node with id `target`.
pub struct ActionRequest {
    pub action: ActionKind,
    pub target: u64,
    pub data: Option<String>,
}

/// A simulated low-level input event, shaped after the window events of
/// common GUI frameworks.
pub enum SimulatedEvent {
    CursorMoved { position: accesskit::Point },
    MouseInput { state: ElementState, button: MouseButton },
    Ime(String),
    KeyInput { state: ElementState, key: Key },
}

/// One pending interaction event: either an action request (as a screen
/// reader would send) or a simulated input event.
pub enum Event {
    ActionRequest(ActionRequest),
    Simulated(SimulatedEvent),
}

/// The state of an element (e.g. a button or key), either pressed or
/// released.
#[derive(Clone, Copy, Debug, PartialEq, Eq, Structural)]
pub enum ElementState {
    Pressed,
    Released,
}

impl ElementState {
    /// The two edges of a full click: first `Pressed`, then `Released`.
    pub fn click() -> (r: Vec<ElementState>)
        ensures
            r@ == seq![ElementState::Pressed, ElementState::Released],
    {
        let mut r: Vec<ElementState> = Vec::new();
        r.push(ElementState::Pressed);
        r.push(ElementState::Released);
        proof {
            assert(r@ =~= seq![ElementState::Pressed, ElementState::Released]);
        }
        r
    }
}

#[derive(Clone, Copy, Debug, PartialEq, Eq, Structural)]
pub enum MouseButton {
    Left,
    Right,
    Middle,
    Back,
    Forward,
    Other(u16),
}

/// The keys a simulated key event can carry.
#[non_exhaustive]
#[derive(Clone, Copy, Debug, PartialEq, Eq, Structural)]
pub enum Key {
    Alt,
    Command,
    Control,
    Shift,
    ArrowDown,
    ArrowLeft,
    ArrowRight,
    ArrowUp,
    Escape,
    Tab,
    Backspace,
    Enter,
    Space,
    Insert,
    Delete,
    Home,
    End,
    PageUp,
    PageDown,
    Copy,
    Cut,
    Paste,
    Colon,
    Comma,
    Backslash,
    Slash,
    Pipe,
    Questionmark,
    OpenBracket,
    CloseBracket,
    Backtick,
    Minus,
    Period,
    Plus,
    Equals,
    Semicolon,
    Quote,
    Num0,
    Num1,
    Num2,
    Num3,
    Num4,
    Num5,
    Num6,
    Num7,
    Num8,
    Num9,
    A,
    B,
    C,
    D,
    E,
    F,
    G,
    H,
    I,
    J,
    K,
    L,
    M,
    N,
    O,
    P,
    Q,
    R,
    S,
    T,
    U,
    V,
    W,
    X,
    Y,
    Z,
    F1,
    F2,
    F3,
    F4,
    F5,
    F6,
    F7,
    F8,
    F9,
    F10,
    F11,
    F12,
    F13,
    F14,
    F15,
    F16,
    F17,
    F18,
    F19,
    F20,
    F21,
    F22,
    F23,
    F24,
    F25,
    F26,
    F27,
    F28,
    F29,
    F30,
    F31,
    F32,
    F33,
    F34,
    F35,
}

/// The functional model of the event queue: an ordered buffer of pending
/// events, appended to by interaction actions and drained wholesale, in
/// FIFO order, once per simulated frame.
///
/// [`crate::state::State`] holds these contents behind parking_lot's mutex
/// so that aliasing node handles can enqueue concurrently; this type states
/// what each queue operation does to the contents.
pub struct EventQueue {
    pub events: Vec<Event>,
}

impl EventQueue {
    /// The empty queue.
    pub fn new() -> (r: EventQueue)
        ensures
            r.events@ == Seq::<Event>::empty(),
    {
        EventQueue { events: Vec::new() }
    }

    /// Appends one event at the back.
    pub fn enqueue(&mut self, e: Event)
        ensures
            final(self).events@ == old(self).events@.push(e),
    {
        self.events.push(e);
    }

    /// Appends a whole group of events at the back, in order and
    /// contiguously: nothing can end up between two events of one group.
    pub fn enqueue_group(&mut self, group: Vec<Event>)
        ensures
            final(self).events@ == old(self).events@ + group@,
    {
        let mut g = group;
        self.events.append(&mut g);
    }

    /// Removes and returns every queued event in FIFO order, leaving the
    /// queue empty.
    pub fn drain(&mut self) -> (r: Vec<Event>)
        ensures
            r@ == old(self).events@,
            final(self).events@ == Seq::<Event>::empty(),
    {
        let mut r: Vec<Event> = Vec::new();
        core::mem::swap(&mut r, &mut self.events);
        r
    }
}

/// parking_lot's `Mutex<T>` is lock_api's `Mutex` over parking_lot's raw
/// lock.  It guards the shared event queue; its contents are reached only
/// through the trusted operations below.
#[verifier::external_type_specification]
#[verifier::external_body]
#[verifier::reject_recursive_types(R)]
#[verifier::reject_recursive_types(T)]
pub struct ExMutex<R, T: ?Sized>(lock_api::Mutex<R, T>);

/// parking_lot's raw mutex, the lock implementation behind the queue's
/// mutex; carried opaquely as a type parameter.
#[verifier::external_type_specification]
#[verifier::external_body]
pub struct ExRawMutex(parking_lot::RawMutex);

/// The shared, mutually-exclusive event queue: every node handle of one
/// snapshot aliases the same buffer.
pub type SharedEventQueue = lock_api::Mutex<parking_lot::RawMutex, Vec<Event>>;

/// Relies on parking_lot's `Mutex::new`: creates the shared event queue,
/// initially empty.
#[verifier::external_body]
pub(crate) fn new_shared_queue() -> SharedEventQueue {
    parking_lot::Mutex::new(Vec::new())
}

/// Relies on `lock_api::Mutex::lock`: appends the group's events to the
/// shared queue back-to-back under one lock acquisition, so a concurrent
/// enqueue can never interleave with a group.  The queue is aliased, so
/// nothing can be promised here of its contents; what one append does to
/// given contents is stated on [`EventQueue::enqueue_group`].
#[verifier::external_body]
pub(crate) fn shared_queue_push_group(queue: &SharedEventQueue, group: Vec<Event>) {
    queue.lock().extend(group);
}

/// Relies on `lock_api::Mutex::lock`: removes and returns every queued
/// event in FIFO order under one lock acquisition, leaving the queue empty.
/// The queue is aliased, so nothing can be promised here of the returned
/// contents; what draining does to given contents is stated on
/// [`EventQueue::drain`].
#[verifier::external_body]
pub(crate) fn shared_queue_drain(queue: &SharedEventQueue) -> Vec<Event> {
    core::mem::take(&mut *queue.lock())
}

/// The event requesting focus on the node with id `target`.
pub open spec fn focus_event(target: u64) -> Event {
    Event::ActionRequest(ActionRequest { action: ActionKind::Focus, target, data: None })
}

/// The event requesting the default (activate) action on `target`: a
/// semantic click.
pub open spec fn click_event(target: u64) -> Event {
    Event::ActionRequest(ActionRequest { action: ActionKind::Click, target, data: None })
}

/// One edge of the primary mouse button.
pub open spec fn button_event(state: ElementState) -> Event {
    Event::Simulated(SimulatedEvent::MouseInput { state, button: MouseButton::Left })
}

/// One edge of a key.
pub open spec fn key_event(state: ElementState, key: Key) -> Event {
    Event::Simulated(SimulatedEvent::KeyInput { state, key })
}

/// One `state` edge for every key of `keys`, in order.
pub open spec fn key_edges(keys: Seq<Key>, state: ElementState) -> Seq<Event>
    decreases keys.len(),
{
    if keys.len() == 0 {
        Seq::empty()
    } else {
        seq![key_event(state, keys[0])] + key_edges(keys.drop_first(), state)
    }
}

/// For every key of `keys`, in order, a press edge immediately followed by
/// its release edge: independent taps, not a chord.
pub open spec fn key_taps(keys: Seq<Key>) -> Seq<Event>
    decreases keys.len(),
{
    if keys.len() == 0 {
        Seq::empty()
    } else {
        seq![
            key_event(ElementState::Pressed, keys[0]),
            key_event(ElementState::Released, keys[0]),
        ] + key_taps(keys.drop_first())
    }
}

/// What `key_edges` holds at each position.
pub proof fn lemma_key_edges(keys: Seq<Key>, state: ElementState)
    ensures
        key_edges(keys, state).len() == keys.len(),
        forall|k: int|
            0 <= k < keys.len() ==> key_edges(keys, state)[k] == key_event(state, keys[k]),
    decreases keys.len(),
{
    if keys.len() > 0 {
        lemma_key_edges(keys.drop_first(), state);
    }
}

/// What `key_taps` holds at each position.
pub proof fn lemma_key_taps(keys: Seq<Key>)
    ensures
        key_taps(keys).len() == 2 * keys.len(),
        forall|k: int|
            0 <= k < keys.len() ==> key_taps(keys)[2 * k] == key_event(
                ElementState::Pressed,
                keys[k],
            ) && key_taps(keys)[2 * k + 1] == key_event(ElementState::Released, keys[k]),
    decreases keys.len(),
{
    if keys.len() > 0 {
        let rest = keys.drop_first();
        lemma_key_taps(rest);
        assert forall|k: int| 1 <= k < keys.len() implies key_taps(keys)[2 * k] == key_event(
            ElementState::Pressed,
            keys[k],
        ) && key_taps(keys)[2 * k + 1] == key_event(ElementState::Released, keys[k]) by {
            assert(keys[k] == rest[k - 1]);
            assert(key_taps(keys)[2 * k] == key_taps(rest)[2 * (k - 1)]);
            assert(key_taps(keys)[2 * k + 1] == key_taps(rest)[2 * (k - 1) + 1]);
        }
    }
}

/// The event group of `focus()`: one focus request.
pub fn focus_events(target: u64) -> (r: Vec<Event>)
    ensures
        r@ == seq![focus_event(target)],
{
    let mut r: Vec<Event> = Vec::new();
    r.push(Event::ActionRequest(ActionRequest { action: ActionKind::Focus, target, data: None }));
    proof {
        assert(r@ =~= seq![focus_event(target)]);
    }
    r
}

/// The event group of `click()`: one semantic-click request.
pub fn click_events(target: u64) -> (r: Vec<Event>)
    ensures
        r@ == seq![click_event(target)],
{
    let mut r: Vec<Event> = Vec::new();
    r.push(Event::ActionRequest(ActionRequest { action: ActionKind::Click, target, data: None }));
    proof {
        assert(r@ =~= seq![click_event(target)]);
    }
    r
}

/// The event group of `hover()`: one cursor move to `position`.
pub fn hover_events(position: accesskit::Point) -> (r: Vec<Event>)
    ensures
        r@ == seq![Event::Simulated(SimulatedEvent::CursorMoved { position })],
{
    let mut r: Vec<Event> = Vec::new();
    r.push(Event::Simulated(SimulatedEvent::CursorMoved { position }));
    proof {
        assert(r@ =~= seq![Event::Simulated(SimulatedEvent::CursorMoved { position })]);
    }
    r
}

/// The event group of `simulate_click()`: a pointer-button press followed
/// by its release, exactly two events in that order.
pub fn simulate_click_events() -> (r: Vec<Event>)
    ensures
        r@ == seq![button_event(ElementState::Pressed), button_event(ElementState::Released)],
{
    let mut r: Vec<Event> = Vec::new();
    r.push(
        Event::Simulated(
            SimulatedEvent::MouseInput {
                state: ElementState::Pressed,
                button: MouseButton::Left,
            },
        ),
    );
    r.push(
        Event::Simulated(
            SimulatedEvent::MouseInput {
                state: ElementState::Released,
                button: MouseButton::Left,
            },
        ),
    );
    proof {
        assert(r@ =~= seq![
            button_event(ElementState::Pressed),
            button_event(ElementState::Released),
        ]);
    }
    r
}

/// The event group of `type_text(text)`: focus, then one text-insertion
/// event carrying `text` verbatim.
pub fn type_text_events(target: u64, text: &str) -> (r: Vec<Event>)
    ensures
        r@.len() == 2,
        r@[0] == focus_event(target),
        r@[1] matches Event::Simulated(SimulatedEvent::Ime(s)) && s@ == text@,
{
    let mut r = focus_events(target);
    r.push(Event::Simulated(SimulatedEvent::Ime(text.to_owned())));
    r
}

/// The event group of `key_down(key)`: focus, then the press edge.
pub fn key_down_events(target: u64, key: Key) -> (r: Vec<Event>)
    ensures
        r@ == seq![focus_event(target), key_event(ElementState::Pressed, key)],
{
    let mut r = focus_events(target);
    r.push(Event::Simulated(SimulatedEvent::KeyInput { state: ElementState::Pressed, key }));
    proof {
        assert(r@ =~= seq![focus_event(target), key_event(ElementState::Pressed, key)]);
    }
    r
}

/// The event group of `key_up(key)`: focus, then the release edge.
pub fn key_up_events(target: u64, key: Key) -> (r: Vec<Event>)
    ensures
        r@ == seq![focus_event(target), key_event(ElementState::Released, key)],
{
    let mut r = focus_events(target);
    r.push(Event::Simulated(SimulatedEvent::KeyInput { state: ElementState::Released, key }));
    proof {
        assert(r@ =~= seq![focus_event(target), key_event(ElementState::Released, key)]);
    }
    r
}

/// The event group of `key_press(key)`: focus, then the press edge, then
/// the release edge.
pub fn key_press_events(target: u64, key: Key) -> (r: Vec<Event>)
    ensures
        r@ == seq![
            focus_event(target),
            key_event(ElementState::Pressed, key),
            key_event(ElementState::Released, key),
        ],
{
    let mut r = focus_events(target);
    r.push(Event::Simulated(SimulatedEvent::KeyInput { state: ElementState::Pressed, key }));
    r.push(Event::Simulated(SimulatedEvent::KeyInput { state: ElementState::Released, key }));
    proof {
        assert(r@ =~= seq![
            focus_event(target),
            key_event(ElementState::Pressed, key),
            key_event(ElementState::Released, key),
        ]);
    }
    r
}

/// The event group of `key_combination(keys)`: focus, then a press edge for
/// every key in the given order, then a release edge for every key in
/// reverse order — a chorded shortcut.
pub fn key_combination_events(target: u64, keys: &Vec<Key>) -> (r: Vec<Event>)
    ensures
        r@ == seq![focus_event(target)] + key_edges(keys@, ElementState::Pressed) + key_edges(
            keys@.reverse(),
            ElementState::Released,
        ),
{
    let mut r = focus_events(target);
    let n = keys.len();
    for i in 0..n
        invariant
            n == keys@.len(),
            r@.len() == 1 + i,
            r@[0] == focus_event(target),
            forall|k: int|
                0 <= k < i ==> r@[1 + k] == key_event(ElementState::Pressed, keys@[k]),
    {
        r.push(
            Event::Simulated(
                SimulatedEvent::KeyInput { state: ElementState::Pressed, key: keys[i] },
            ),
        );
    }
    for i in 0..n
        invariant
            n == keys@.len(),
            r@.len() == 1 + n + i,
            r@[0] == focus_event(target),
            forall|k: int|
                0 <= k < n ==> r@[1 + k] == key_event(ElementState::Pressed, keys@[k]),
            forall|k: int|
                0 <= k < i ==> #[trigger] r@[1 + n + k] == key_event(
                    ElementState::Released,
                    keys@[n - 1 - k],
                ),
    {
        r.push(
            Event::Simulated(
                SimulatedEvent::KeyInput { state: ElementState::Released, key: keys[n - 1 - i] },
            ),
        );
    }
    proof {
        lemma_key_edges(keys@, ElementState::Pressed);
        lemma_key_edges(keys@.reverse(), ElementState::Released);
        let nn = keys@.len() as int;
        let rhs = seq![focus_event(target)] + key_edges(keys@, ElementState::Pressed) + key_edges(
            keys@.reverse(),
            ElementState::Released,
        );
        assert(rhs.len() == 1 + 2 * nn);
        assert forall|j: int| 0 <= j < rhs.len() implies r@[j] == rhs[j] by {
            if j == 0 {
                assert(rhs[0] == focus_event(target));
            } else if j <= nn {
                assert(rhs[j] == key_edges(keys@, ElementState::Pressed)[j - 1]);
            } else {
                assert(rhs[j] == key_edges(keys@.reverse(), ElementState::Released)[j - 1 - nn]);
                assert(keys@.reverse()[j - 1 - nn] == keys@[nn - 1 - (j - 1 - nn)]);
                assert(r@[1 + nn + (j - 1 - nn)] == key_event(
                    ElementState::Released,
                    keys@[nn - 1 - (j - 1 - nn)],
                ));
            }
        }
        assert(r@ =~= rhs);
    }
    r
}

/// The event group of `press_keys(keys)`: focus, then for each key in
/// order a press edge immediately followed by its own release edge —
/// independent taps.
pub fn press_keys_events(target: u64, keys: &Vec<Key>) -> (r: Vec<Event>)
    ensures
        r@ == seq![focus_event(target)] + key_taps(keys@),
{
    let mut r = focus_events(target);
    let n = keys.len();
    for i in 0..n
        invariant
            n == keys@.len(),
            r@.len() == 1 + 2 * i,
            r@[0] == focus_event(target),
            forall|k: int|
                0 <= k < i ==> r@[1 + 2 * k] == key_event(ElementState::Pressed, keys@[k]) && r@[1
                    + 2 * k + 1] == key_event(ElementState::Released, keys@[k]),
    {
        r.push(
            Event::Simulated(
                SimulatedEvent::KeyInput { state: ElementState::Pressed, key: keys[i] },
            ),
        );
        r.push(
            Event::Simulated(
                SimulatedEvent::KeyInput { state: ElementState::Released, key: keys[i] },
            ),
        );
    }
    proof {
        lemma_key_taps(keys@);
        let nn = keys@.len() as int;
        let rhs = seq![focus_event(target)] + key_taps(keys@);
        assert(rhs.len() == 1 + 2 * nn);
        assert forall|j: int| 0 <= j < rhs.len() implies r@[j] == rhs[j] by {
            if j == 0 {
                assert(rhs[0] == focus_event(target));
            } else {
                let k = (j - 1) / 2;
                assert(j - 1 == 2 * k || j - 1 == 2 * k + 1);
                assert(rhs[j] == key_taps(keys@)[j - 1]);
                assert(key_taps(keys@)[2 * k] == key_event(ElementState::Pressed, keys@[k]));
                assert(key_taps(keys@)[2 * k + 1] == key_event(ElementState::Released, keys@[k]));
                assert(r@[1 + 2 * k] == key_event(ElementState::Pressed, keys@[k]));
                assert(r@[1 + 2 * k + 1] == key_event(ElementState::Released, keys@[k]));
            }
        }
        assert(r@ =~= rhs);
    }
    r
}


/// Groups appended one after the other stay contiguous: however many
/// groups the queue's lock serializes, each occupies one unbroken span of
/// the drained order, in its own internal order — no enqueue can split
/// another action's group.
pub proof fn lemma_groups_stay_contiguous(
    before: Seq<Event>,
    g1: Seq<Event>,
    g2: Seq<Event>,
    after1: Seq<Event>,
    after2: Seq<Event>,
)
    requires
        after1 == before + g1,
        after2 == after1 + g2,
    ensures
        after2 == before + g1 + g2,
        after2.subrange(before.len() as int, (before.len() + g1.len()) as int) == g1,
        after2.subrange((before.len() + g1.len()) as int, after2.len() as int) == g2,
{
    assert(after2 =~= before + g1 + g2);
    assert(after2.subrange(before.len() as int, (before.len() + g1.len()) as int) =~= g1);
    assert(after2.subrange((before.len() + g1.len()) as int, after2.len() as int) =~= g2);
}

} // verus!
