//! A Merkle root over leaves that arrive in batches.
//!
//! Each batch builds a private tree over a common seed and hands back the
//! nodes at its seams; folding these checkpoints gives the root that one
//! pass over all the leaves gives, as long as the owner tags of the batches
//! differ and the seams lie on one path to the root. `tags_are_distinct`,
//! `seams_on_one_path` and, for two batches, `path_is_clear` tell whether
//! they do.

pub mod arrangement;
pub mod batch;
pub mod commit;
pub mod hash;
pub mod layout;
pub mod merkle;
pub mod node;
pub mod ownership;
pub mod reconcile;
pub mod seed;
pub mod split;
pub mod tiling;
pub mod workers;

pub use batch::AsyncMerkleTree;
pub use merkle::MerkleTree;
pub use node::{Node, NodeType, DIGEST, UNSET};
