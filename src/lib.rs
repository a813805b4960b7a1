//! A hierarchical doubly linked list: sibling nodes linked forward and
//! backward, each node optionally owning a first child and each child chain
//! knowing its parent, suitable for DOM-like trees.
//!
//! Nodes live in an [`Arena`]; a [`Node`] is a stable index into it and a
//! [`WeakNode`] is its observing counterpart. Every record sits in a
//! [`cell::HedelCell`], whose runtime borrow flag guards the writes.

pub mod cell;
pub mod errors;
pub mod list;
pub mod mutate;
pub mod node;
pub mod search;
pub mod traverse;

pub use list::{NodeList, WeakList};
pub use mutate::{AppendNode, DetachNode, InsertNode};
pub use node::{Arena, Node, NodeCollection, NodeInner, WeakNode};
pub use search::{CompareNode, NumIdent};
pub use traverse::{CollectNode, FindNode, GetNode, Handle};
