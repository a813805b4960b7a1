//! The list wrapper, which stands for the first node of a top-level chain.

use vstd::prelude::*;

use crate::node::{opt_id, with_list, Arena, Node, NodeInner};
use crate::search::{hit, CompareNode};
use crate::traverse::{
    finds, first_next, in_linked_list, last_of, next_chain, prev_chain, FindNode, GetNode,
};

verus! {

/// An observing handle to a [`NodeList`].
#[derive(Debug, Clone, Copy, PartialEq, Eq, Structural)]
pub struct WeakList {
    pub id: usize,
}

/// A list wrapper: it stands for its first node, so that several nodes can
/// sit side by side at the top level. The node at its head carries a
/// back-reference to it, which [`crate::AppendNode::append_prev`] follows to
/// keep the head up to date.
#[derive(Debug, Clone, Copy, PartialEq, Eq, Structural)]
pub struct NodeList {
    pub id: usize,
}

/// The list that the back-reference of node `i` resolves to, if any.
pub open spec fn list_id<T>(s: Seq<NodeInner<T>>, heads: Seq<Option<Node>>, i: usize) -> Option<usize> {
    match s[i as int].list {
        Some(l) => if l.id < heads.len() {
            Some(l.id)
        } else {
            None
        },
        None => None,
    }
}

impl WeakList {
    /// The list, if the arena holds it.
    pub fn upgrade<T>(&self, arena: &Arena<T>) -> (r: Option<NodeList>)
        ensures
            r is Some <==> self.id < arena.heads().len(),
            r is Some ==> r->Some_0.id == self.id,
    {
        if self.id < arena.heads_len() {
            Some(NodeList { id: self.id })
        } else {
            None
        }
    }
}

impl NodeList {
    /// A list headed by `node`, which gets the back-reference to it.
    pub fn new<T>(arena: &mut Arena<T>, node: Node) -> (r: NodeList)
        requires
            old(arena).wf(),
            old(arena).has(node),
        ensures
            final(arena).wf(),
            r.id == old(arena).heads().len(),
            final(arena).heads() == old(arena).heads().push(Some(node)),
            final(arena)@ == old(arena)@.update(
                node.id as int,
                with_list(old(arena)@[node.id as int], Some(WeakList { id: r.id })),
            ),
    {
        let id = arena.push_head(Some(node));
        arena.set_list(node.id, Some(WeakList { id }));
        NodeList { id }
    }

    /// The observing handle to this list.
    pub fn downgrade(&self) -> (r: WeakList)
        ensures
            r.id == self.id,
    {
        WeakList { id: self.id }
    }

    /// The first node.
    pub fn first<T>(&self, arena: &Arena<T>) -> (r: Option<Node>)
        requires
            self.id < arena.heads().len(),
        ensures
            r == arena.heads()[self.id as int],
            arena.wf() && r is Some ==> arena.has(r->Some_0),
    {
        arena.head(self.id)
    }

    /// The first node of the head's chain: the far end of the head's `prev`
    /// links, or the head itself when it has no previous sibling.
    pub fn get_first_sibling<T>(&self, arena: &Arena<T>) -> (r: Option<Node>)
        requires
            arena.wf(),
            self.id < arena.heads().len(),
        ensures
            opt_id(r) == match arena.heads()[self.id as int] {
                Some(h) => match last_of(prev_chain(arena@, h.id, arena@.len() as nat)) {
                    Some(f) => Some(f),
                    None => Some(h.id),
                },
                None => None,
            },
    {
        match self.first(arena) {
            Some(h) => match h.get_first_sibling(arena) {
                Some(f) => Some(f),
                None => Some(h),
            },
            None => None,
        }
    }

    /// The last node of the head's chain; the head itself when it has no
    /// next sibling.
    pub fn get_last_sibling<T>(&self, arena: &Arena<T>) -> (r: Option<Node>)
        requires
            arena.wf(),
            self.id < arena.heads().len(),
        ensures
            opt_id(r) == match arena.heads()[self.id as int] {
                Some(h) => match last_of(next_chain(arena@, h.id, arena@.len() as nat)) {
                    Some(l) => Some(l),
                    None => Some(h.id),
                },
                None => None,
            },
    {
        match self.first(arena) {
            Some(h) => match h.get_last_sibling(arena) {
                Some(l) => Some(l),
                None => Some(h),
            },
            None => None,
        }
    }

    /// The nearest identified node after the head, else the head itself if
    /// identified.
    pub fn find_sibling<T, I: CompareNode<T>>(&self, arena: &Arena<T>, ident: &I) -> (r: Option<Node>)
        requires
            arena.wf(),
            self.id < arena.heads().len(),
        ensures
            opt_id(r) == match arena.heads()[self.id as int] {
                Some(h) => match first_next(arena@, *ident, h.id, arena@.len() as nat) {
                    Some(m) => Some(m),
                    None => if hit(arena@, *ident, h.id) {
                        Some(h.id)
                    } else {
                        None
                    },
                },
                None => None,
            },
    {
        match self.first(arena) {
            Some(h) => {
                if let Some(m) = h.find_next(arena, ident) {
                    return Some(m);
                }
                if ident.compare(&h.get(arena).content) {
                    return Some(h);
                }
                None
            },
            None => None,
        }
    }

    /// An identified node anywhere in the structure the head sits in.
    pub fn find_linked_list<T, I: CompareNode<T>>(&self, arena: &Arena<T>, ident: &I) -> (r: Option<Node>)
        requires
            arena.wf(),
            self.id < arena.heads().len(),
        ensures
            match arena.heads()[self.id as int] {
                Some(h) => finds(arena@, *ident, r, |y: usize| in_linked_list(arena@, h.id, y)),
                None => r is None,
            },
    {
        match self.first(arena) {
            Some(h) => h.find_linked_list(arena, ident),
            None => None,
        }
    }
}

impl Node {
    /// The list this node heads, if any.
    pub fn list<T>(&self, arena: &Arena<T>) -> (r: Option<NodeList>)
        requires
            arena.wf(),
            arena.has(*self),
        ensures
            match r {
                Some(l) => list_id(arena@, arena.heads(), self.id) == Some(l.id),
                None => list_id(arena@, arena.heads(), self.id) is None,
            },
    {
        match self.get(arena).list {
            Some(w) => w.upgrade(arena),
            None => None,
        }
    }
}

} // verus!
