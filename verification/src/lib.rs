//! A verified core for a single-resource key-value HTTP API.
//!
//! Clients read, write, delete, and merge-patch a JSON document identified
//! by an opaque key. The crate models documents as byte-based JSON values,
//! and implements, with machine-checked contracts:
//!
//! - a request router that maps an HTTP method, a `/{key}` path, and an
//!   optional body to exactly one outcome ([`router`]);
//! - the recursive merge-patch algorithm, where a `null` removes a key,
//!   objects merge recursively, and anything else replaces the target
//!   ([`merge`]);
//! - a document-store facade over an abstract key-to-record map, stamping
//!   every write with an RFC 3339 timestamp ([`store`]);
//! - a JSON parser and serializer over bytes ([`parse`], [`ser`]).
//!
//! Two policies are fixed here and apply uniformly: a patch of a missing
//! key merges onto the empty object and creates the record
//! (create-on-patch), and the patch read-modify-write is not atomic across
//! its two store accesses — a concurrent write between them is lost, last
//! writer wins.

mod clock;
pub mod json;
pub mod merge;
pub mod parse;
pub mod router;
pub mod ser;
pub mod store;
