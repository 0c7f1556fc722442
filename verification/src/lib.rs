//! Protocol engine of a WebDAV server.
//!
//! The crate holds the part of a server that decides: how a request target
//! becomes a path, whether the conditions a request carries hold, whether a
//! lock stands in its way, which storage operation it asks for and which
//! status answers it. Storage and transport stay outside; they exchange
//! plain values with the functions found here.
//!
//! - `davpath` and `percent`: paths of the namespace and their URLs.
//! - `fs`: the values that a storage backend and the engine exchange.
//! - `status`: status codes, and the status of each storage error.
//! - `ls`, `memls` and `token`: locks, the registry that holds them, and
//!   their tokens.
//! - `conditional` and `headers`: the conditions of a request, how they are
//!   read from headers, and whether they hold.
//! - `request` and `handler`: from the parts of a request to the request,
//!   and from the request to its answer.
pub mod status;
pub mod fs;
pub mod percent;
pub mod davpath;
pub mod ls;
pub mod token;
pub mod memls;
pub mod conditional;
pub mod headers;
pub mod handler;
pub mod request;
