//! Accept loop of a network server.
pub mod accept;
pub mod accept_loop;
pub mod command;
pub mod effect_laws;
pub mod error;
pub mod laws;
pub mod model;
pub mod notify;
pub mod protocol;
pub mod run_laws;
pub mod step_laws;

pub use accept::Accept;
pub use accept_loop::AcceptLoop;
pub use command::AcceptorCommand;
pub use error::{connection_error, ErrorKind};
pub use notify::AcceptNotify;
