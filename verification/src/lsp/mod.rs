//! Editor support: semantic highlighting, completion and diagnostics for
//! `.crn` files, computed from plain text.

pub mod semantic_tokens;
pub mod completion;
pub mod diagnostics;
