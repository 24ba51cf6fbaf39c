//! Verified core of a k-anonymity password-breach lookup.
//!
//! A password is fingerprinted as a fixed-length uppercase hexadecimal digest;
//! only the first five characters of that digest ever leave the machine. The
//! remote index answers with newline-separated `SUFFIX:COUNT` records sharing
//! that prefix, and the match against the full digest happens locally. This
//! crate holds the digest engine, the response parser, the matcher and the
//! lookup state machine; the window and the transport live outside it.

pub mod breach;
pub mod digest;
pub mod parse;
pub mod state;

pub use breach::BreachResult;
pub use digest::hash_password;
pub use parse::parse_results;
pub use state::{Action, App, Message, SearchResult};
