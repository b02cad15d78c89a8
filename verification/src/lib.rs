//! Selective-disclosure commitment container for a client-side-validated
//! contract protocol: aggregates partial knowledge about anchored state
//! transitions and extensions, derives stable domain-tagged identifiers,
//! supports concealment of nested data and a signature lifecycle that is
//! invalidated by every content mutation.

pub mod bytes;
pub mod codec;
pub mod digest;
pub mod disclosure;
pub mod encode;
pub mod ordmap;
pub mod stash;
