//! A verified document-mapping layer: typed records are encoded into
//! schemaless documents, stored in a collection store, and queried back
//! through uniform CRUD primitives (save/upsert, find, find-one,
//! find-by-identifier, count, aggregate, distinct).

use vstd::prelude::*;

pub mod value;
pub mod document;
pub mod store;
pub mod struct_document;
pub mod model;
pub mod article;
pub mod auth;

verus! {

/// Failure taxonomy of the mapping layer.
///
/// `Encoding` means a record could not be turned into a document;
/// `Decoding` means a stored document does not match the expected record
/// shape; `Store` means the backing store itself failed (transport,
/// timeout, unsupported request); `WriteConflict` means the store rejected
/// or rolled back a write. Logical absence of a record is never an error:
/// single-item lookups return `None` instead.
#[derive(Clone, Copy, Debug, PartialEq, Eq, Structural)]
pub enum Error {
    Encoding,
    Decoding,
    Store,
    WriteConflict,
}

} // verus!
