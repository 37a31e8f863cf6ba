// Protocol engine of a server-side push hook: every push is diverted to an
// integration branch of its own, named after a durable, increasing pull id.
//
// The library works on bytes that are already in memory. Reading the peer's
// stream, locking the counter file and updating refs are left to the caller.
pub mod command;
pub mod digits;
pub mod error;
pub mod frame;
pub mod negotiate;
pub mod options;
pub mod pull_id;
pub mod response;
pub mod session;
pub mod text;

pub use command::read_command;
pub use command::read_commands;
pub use command::Command;
pub use error::Error;
pub use frame::announced_length;
pub use frame::read_frame;
pub use frame::write_flush;
pub use frame::write_frame;
pub use frame::Frame;
pub use frame::Reader;
pub use negotiate::check_version;
pub use negotiate::read_flush_pkt;
pub use negotiate::read_version_push_options;
pub use negotiate::write_version_push_options;
pub use options::read_command_push_options;
pub use options::read_push_option;
pub use options::PushOptions;
pub use pull_id::incr_pull_id;
pub use response::integration_ref;
pub use response::ref_updates;
pub use response::update_refs;
pub use response::RefUpdate;
pub use session::Phase;
pub use session::Session;
pub use text::split_once;
