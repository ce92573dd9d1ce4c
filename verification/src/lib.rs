//! A game-state replication substrate: a bit-exact binary codec with a
//! sub-byte cursor, an identity-to-network-id linking context, and a
//! replication manager that diffs which objects a peer already knows about.
//!
//! The layers, leaves first: [`bits`] models buffers as bit sequences;
//! [`stream`] holds the cursor buffers and their primitive reads and
//! writes; [`codec`] layers length-prefixed byte runs, text, optional
//! values, sequences, and reflected records on top; [`reflect`] and
//! [`object`] describe what gets replicated; [`linking_context`] bridges
//! object identity and wire identifiers; [`network`] replicates whole
//! world snapshots and infers destroys from absence.

pub mod bits;
pub mod codec;
pub mod linking_context;
pub mod network;
pub mod object;
pub mod reflect;
pub mod stream;
