//! A trie whose positions are paths of shared fragments, the decoder for the
//! one-line requests that address it, and the store that answers them.
//!
//! - `path_tree`: the trie, `PathTree`, with its operations.
//! - `model`: what a tree holds, as a map from positions to values, and what
//!   each operation makes of such a map. The contracts are written over it.
//! - `laws`: what follows for every tree: a stored value is found, clearing
//!   keeps the nodes, deleting takes the subtree, and so on.
//! - `grafting`: the facts about replacing a part of a tree that the proofs of
//!   the operations rest on.
//! - `decipher`: from a request line to an operation and a path.
//! - `storage`: the store of a server, and its reply to each request.

pub mod decipher;
pub mod grafting;
pub mod laws;
pub mod model;
pub mod path_tree;
pub mod storage;

pub use decipher::{first_line, get_operation, request_line, Action, ActionResult, Operation};
pub use path_tree::PathTree;
pub use storage::Storage;
