//! Schema-driven configuration tree editor: a JSON schema and a config
//! value become a navigable tree of nodes that can be expanded, edited,
//! toggled and filtered, and read back as a JSON value.
pub mod buffer;
pub mod event;
pub mod json;
pub mod laws;
pub mod layout;
pub mod node;
pub mod paths;
pub mod round_trip;
pub mod state;
pub mod text;
pub mod value;

pub use event::{handle_key_event, EventResult, KeyCode, KeyPress};
pub use json::JsonValue;
pub use node::{build_tree, ConfigNode, NodeKind};
pub use state::{EditMode, NodeFilter, PathFilter, TreeState, VisibleNode};
