//! A crash-proof keyed object store over mirrored 4KB block devices, verified.
//!
//! Every block guards itself; the guards verify each other. A spine ring of generation-numbered commit
//! objects is searched for its head; a tract, a log ring with a plow and a reap, holds the data; a
//! copy-on-write trie, the index, lives in the tract it indexes. Power loss at any byte boundary is
//! normal operation: the committed generation defines exactly what exists.
//!
//! A [`Vault`] composes a [`Ring`], a [`Tract`] and a [`Hamt`] over a [`Mirror`] of [`BlockDev`]s. The
//! devices are the host's. Beside it stand an inspector that decodes a device without the engine, and
//! an append-only record store with its own recovery.

pub mod block;
pub mod cut;
pub mod doc;
pub mod dual;
pub mod edit;
pub mod error;
pub mod events;
pub mod extent;
pub mod findings;
pub mod hamt;
pub mod haul;
pub mod inspect;
pub mod keep;
pub mod key;
pub mod laws;
pub mod live;
pub mod load;
pub mod mirror;
pub mod mooring;
pub mod names;
pub mod record;
pub mod regroup;
pub mod render;
pub mod replicate;
pub mod ring;
pub mod root;
pub mod roster;
pub mod seal;
pub mod settle;
pub mod spine;
pub mod standing;
pub mod store;
pub mod survey;
pub mod swap;
pub mod text;
pub mod tight;
pub mod tract;
pub mod trie;
pub mod value;
pub mod vault;
pub mod wire;

pub use block::{zero_block, Block, BlockDev, BLOCK};
pub use error::{Error, Result};
pub use events::{EventSink, NullSink, StorageEvent};
pub use hamt::{lone_capacity, max_runs, Delta, Hamt};
pub use inspect::{inspect, InspectOptions, InspectReport};
pub use mirror::Mirror;
pub use ring::{
    any_sealed_block, append_root, block_is_sealed, classify, read_root, zero_ring, zero_ring_at,
    Classified, Ring, RootEntry, SpineEntry, FENCE_K, HOST_RING_LOG2, ROOT_SLOTS,
};
pub use tract::{sealed_hp, Liveness, Reloc, Tract};
pub use vault::{verified_replicate, LiveSet, Replicated, Vault};
