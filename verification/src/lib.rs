//! An in-memory account store: tiered slab arenas, epoch-based deferred
//! reclamation of data slots, interned 32-byte identifiers, a 16-byte packed
//! metadata word per account, and a schema-aware compressor for the
//! well-known token account layout.

pub mod arena;
pub mod bytes_le;
pub mod ebr;
pub mod in_memory;
pub mod meta16b;
pub mod pubkey;
pub mod pubkey_registry;
pub mod spl_compressor;
pub mod tiers;
