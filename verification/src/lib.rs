//! Reconciliation of a tab-delimited local address book with a remote
//! contact service.
//!
//! The library holds the verified core: the record codec for the local
//! file format, the nickname generator, the normalizer that projects a
//! remote contact onto the fields the sync cares about, and the
//! reconciliation engine that classifies email addresses and turns each
//! operator choice into a concrete action. Input/output (files, the
//! network, prompts, localization) lives outside the library and talks
//! to it through plain values.

pub mod codec;
pub mod contact;
pub mod engine;
pub mod locale;
pub mod mime;
pub mod nickname;
pub mod normalize;
pub mod text;
