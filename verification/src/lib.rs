//! An asynchronous D-Bus client core: message marshalling, message routing and
//! the state machines of the connection. Sockets and executors stand around it.
pub mod conn;
pub mod routing;
pub mod rpc;
pub mod rustbus_core;
pub mod text;
pub mod utils;
