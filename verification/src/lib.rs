//! Keeps a fixed list of host names or literal addresses resolved to IP
//! addresses. The decision logic — recognising address literals, choosing
//! one address among a resolver's candidates, and publishing a new value
//! only when it differs from the last one written — is verified here; the
//! caller supplies the network lookups and drives the periodic loop.

pub mod ip;
pub mod parse;
pub mod resolver;
pub mod select;
