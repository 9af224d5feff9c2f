//! A query and interaction layer for testing graphical user interfaces
//! through their accessibility tree.
//!
//! The library locates widgets by semantic properties (label, role, value,
//! custom predicate) and synthesizes user interactions (click, type, focus,
//! key press) against them, without coupling tests to a specific GUI
//! toolkit.  The accessibility tree is supplied by an external adapter as a
//! plain snapshot; the adapter also drains the queued interaction events
//! once per simulated frame and delivers them to the application under
//! test.

pub mod event;
pub mod filter;
pub mod node;
pub mod query;
pub mod state;
pub mod strings;

pub use event::ActionKind;
pub use event::ActionRequest;
pub use event::ElementState;
pub use event::Event;
pub use event::EventQueue;
pub use event::Key;
pub use event::MouseButton;
pub use event::SharedEventQueue;
pub use event::SimulatedEvent;
pub use filter::By;
pub use filter::ByView;
pub use filter::by;
pub use node::Node;
pub use node::NodeData;
pub use node::Role;
pub use node::Toggled;
pub use node::debug_fmt_node;
pub use query::Error;
pub use state::State;
pub use state::TreeUpdate;
