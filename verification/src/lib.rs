//! Display-cell text helpers, completion triggers, mouse hit-testing and the
//! state of the chat transcript, completion popup and session picker of a
//! terminal chat client.

pub mod types;
pub mod unicode;
pub mod text;
pub mod mouse;
pub mod chat;
pub mod layout;
pub mod completions;
pub mod session_picker;
