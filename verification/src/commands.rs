//! Command handlers: read-modify-write flows over the store. Each handler
//! returns a message for display and the plan of file operations that
//! commits its effect.

pub mod depends;
pub mod next;
pub mod pin;
pub mod search;
pub mod status;
pub mod today;
