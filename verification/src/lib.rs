//! Peer-address registry and inventory-hash wire codec for a peer-to-peer
//! network node.
//!
//! The [`address_book::AddressBook`] tracks every known peer's address,
//! advertised service bits and last-seen time behind a dual-index store with a
//! verified consistency invariant. The [`inv`] module gives the fixed-width
//! typed-hash encoding used for protocol inventory items.

pub mod address_book;
pub mod inv;
