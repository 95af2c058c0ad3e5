//! Direct and inverted indexing of JSON request logs.
//!
//! `json` models a decoded record and resolves dotted paths in it, `store`
//! holds the direct and inverted indexes and keeps them in agreement, `order`
//! gives the text order that saved files follow, `slot` writes the indexes as
//! text and reads the document file back, and `index` feeds records into a
//! store under their `timestamp:requestID` identity.

pub mod index;
pub mod json;
pub mod order;
pub mod slot;
pub mod store;
