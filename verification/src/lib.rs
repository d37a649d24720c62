pub mod commands;
pub mod graph;
pub mod interaction;
pub mod render;
pub mod search;
pub mod serialization;
pub mod store;
pub mod types;
pub mod widgets;

pub use graph::node::NodeHeader;
pub use graph::port::PortDirection;
pub use graph::{ConnectionError, GraphEditor, GroupIOKind, NodeGraph};
pub use search::{NodeTypeDefinition, NodeTypeRegistry, PortDefinition};
pub use serialization::{DeserializeError, SerializedGraph, SerializedGraphEditor};
pub use store::EntityId;
pub use types::socket_type::SocketType;
