//! A local secrets manager: a versioned, append-only variable store and an
//! encrypted envelope that seals the store at rest.

pub mod crypto;
pub mod edit;
pub mod format;
pub mod header;
pub mod listing;
pub mod state;
pub mod store;
pub mod subproc;
pub mod text;
