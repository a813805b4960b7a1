//! Node records, the handles to them, the arena that holds them, and the
//! primitive reads and writes every other operation is built from.

use vstd::prelude::*;

use crate::cell::{BorrowFlag, HedelCell, RefMutHedel};
use crate::errors::HedelError;
use crate::list::WeakList;

verus! {

/// A node record: the links to its neighbours and its content.
///
/// `next` and `child` are the owning links; `prev`, `parent` and `list` only
/// observe. `list` is set on a node that heads a [`crate::list::NodeList`].
#[derive(Debug, Clone, Copy)]
pub struct NodeInner<T> {
    pub next: Option<Node>,
    pub prev: Option<WeakNode>,
    pub child: Option<Node>,
    pub parent: Option<WeakNode>,
    pub list: Option<WeakList>,
    pub content: T,
}

/// An owning handle to a node of an [`Arena`].
#[derive(Debug, Clone, Copy, PartialEq, Eq, Structural)]
pub struct Node {
    pub id: usize,
}

/// An observing handle to a node of an [`Arena`]; [`WeakNode::upgrade`]
/// resolves it.
#[derive(Debug, Clone, Copy, PartialEq, Eq, Structural)]
pub struct WeakNode {
    pub id: usize,
}

/// The store that holds every node record, each in its own [`HedelCell`].
///
/// Handles are stable indices into it. Records are reclaimed with the arena
/// as a whole, never one by one, so the owning links (`next`, `child`) and
/// the observing ones (`prev`, `parent`) differ in meaning, not in lifetime.
/// A link whose index lies outside the arena resolves to "absent", as an
/// observing handle to a dropped node does.
#[derive(Debug)]
pub struct Arena<T> {
    cells: Vec<HedelCell<NodeInner<T>>>,
    lists: Vec<Option<Node>>,
}

/// The index behind an optional handle.
pub open spec fn opt_id(o: Option<Node>) -> Option<usize> {
    match o {
        Some(n) => Some(n.id),
        None => None,
    }
}

/// The index an owning link resolves to in `s`, if any.
pub open spec fn resolve<T>(s: Seq<NodeInner<T>>, l: Option<Node>) -> Option<usize> {
    match l {
        Some(n) => if n.id < s.len() {
            Some(n.id)
        } else {
            None
        },
        None => None,
    }
}

/// The index an observing link resolves to in `s`, if any.
pub open spec fn resolve_weak<T>(s: Seq<NodeInner<T>>, l: Option<WeakNode>) -> Option<usize> {
    match l {
        Some(n) => if n.id < s.len() {
            Some(n.id)
        } else {
            None
        },
        None => None,
    }
}

/// The index of node `i`'s next sibling in `s`, if its link resolves.
pub open spec fn next_id<T>(s: Seq<NodeInner<T>>, i: usize) -> Option<usize> {
    resolve(s, s[i as int].next)
}

/// The index of node `i`'s previous sibling in `s`, if its link resolves.
pub open spec fn prev_id<T>(s: Seq<NodeInner<T>>, i: usize) -> Option<usize> {
    resolve_weak(s, s[i as int].prev)
}

/// The index of node `i`'s first child in `s`, if its link resolves.
pub open spec fn child_id<T>(s: Seq<NodeInner<T>>, i: usize) -> Option<usize> {
    resolve(s, s[i as int].child)
}

/// The index of node `i`'s parent in `s`, if its link resolves.
pub open spec fn parent_id<T>(s: Seq<NodeInner<T>>, i: usize) -> Option<usize> {
    resolve_weak(s, s[i as int].parent)
}

/// `r` with its `next` link replaced.
pub open spec fn with_next<T>(r: NodeInner<T>, v: Option<Node>) -> NodeInner<T> {
    NodeInner { next: v, prev: r.prev, child: r.child, parent: r.parent, list: r.list, content: r.content }
}

/// `r` with its `prev` link replaced.
pub open spec fn with_prev<T>(r: NodeInner<T>, v: Option<WeakNode>) -> NodeInner<T> {
    NodeInner { next: r.next, prev: v, child: r.child, parent: r.parent, list: r.list, content: r.content }
}

/// `r` with its `child` link replaced.
pub open spec fn with_child<T>(r: NodeInner<T>, v: Option<Node>) -> NodeInner<T> {
    NodeInner { next: r.next, prev: r.prev, child: v, parent: r.parent, list: r.list, content: r.content }
}

/// `r` with its `parent` link replaced.
pub open spec fn with_parent<T>(r: NodeInner<T>, v: Option<WeakNode>) -> NodeInner<T> {
    NodeInner { next: r.next, prev: r.prev, child: r.child, parent: v, list: r.list, content: r.content }
}

/// `r` with its list back-reference replaced.
pub open spec fn with_list<T>(r: NodeInner<T>, v: Option<WeakList>) -> NodeInner<T> {
    NodeInner { next: r.next, prev: r.prev, child: r.child, parent: r.parent, list: v, content: r.content }
}

/// `r` with `parent`, `next` and `prev` cleared; `child`, the list
/// back-reference and the content stay.
pub open spec fn freed<T>(r: NodeInner<T>) -> NodeInner<T> {
    NodeInner { next: None, prev: None, child: r.child, parent: None, list: r.list, content: r.content }
}

impl<T> Arena<T> {
    /// The records, indexed by node.
    pub closed spec fn view(&self) -> Seq<NodeInner<T>> {
        Seq::new(self.cells@.len(), |i: int| self.cells@[i].spec_value())
    }

    /// The first node of each list wrapper, indexed by list.
    pub closed spec fn heads(&self) -> Seq<Option<Node>> {
        self.lists@
    }

    /// No guard is outstanding on any record, and every list head is a node
    /// of the arena.
    pub closed spec fn wf(&self) -> bool {
        &&& forall|i: int| 0 <= i < self.cells@.len() ==> #[trigger] self.cells@[i].spec_flag()
            == BorrowFlag::Unused
        &&& forall|l: int| 0 <= l < self.lists@.len() && #[trigger] self.lists@[l] is Some
            ==> self.lists@[l]->Some_0.id < self.cells@.len()
    }

    /// Whether `n` is a node of this arena.
    pub open spec fn has(&self, n: Node) -> bool {
        n.id < self@.len()
    }

    /// An empty arena.
    pub fn new() -> (r: Self)
        ensures
            r.wf(),
            r@ == Seq::<NodeInner<T>>::empty(),
            r.heads() == Seq::<Option<Node>>::empty(),
    {
        let r = Arena { cells: Vec::new(), lists: Vec::new() };
        assert(r@ =~= Seq::<NodeInner<T>>::empty());
        r
    }

    /// The number of nodes.
    pub fn len(&self) -> (r: usize)
        ensures
            r == self@.len(),
    {
        self.cells.len()
    }

    /// Adds a record and returns the handle to it.
    pub(crate) fn push_record(&mut self, rec: NodeInner<T>) -> (r: Node)
        requires
            old(self).wf(),
        ensures
            final(self).wf(),
            final(self)@ == old(self)@.push(rec),
            final(self).heads() == old(self).heads(),
            r.id == old(self)@.len(),
    {
        let id = self.cells.len();
        self.cells.push(HedelCell::new(rec));
        assert(self@ =~= old(self)@.push(rec));
        Node { id }
    }

    /// The record of node `i`.
    pub(crate) fn record(&self, i: usize) -> (r: &NodeInner<T>)
        requires
            self.wf(),
            i < self@.len(),
        ensures
            *r == self@[i as int],
    {
        self.cells[i].peek()
    }

    /// The record of node `i`, unless an exclusive guard is outstanding on it.
    pub(crate) fn try_record(&self, i: usize) -> (r: Result<&NodeInner<T>, HedelError>)
        requires
            i < self@.len(),
        ensures
            r is Ok <==> self.flag_at(i as int) != BorrowFlag::Exclusive,
            r is Ok ==> *r->Ok_0 == self@[i as int],
            r is Err ==> r == Err::<&NodeInner<T>, HedelError>(HedelError::ExclusiveActiveConflict),
    {
        let cell = &self.cells[i];
        if let BorrowFlag::Exclusive = cell.flag() {
            return Err(HedelError::ExclusiveActiveConflict);
        }
        Ok(cell.peek())
    }

    /// Adds a list wrapper headed by `head` and returns its index.
    pub(crate) fn push_head(&mut self, head: Option<Node>) -> (r: usize)
        requires
            old(self).wf(),
            head is Some ==> old(self).has(head->Some_0),
        ensures
            final(self).wf(),
            final(self)@ == old(self)@,
            final(self).heads() == old(self).heads().push(head),
            r == old(self).heads().len(),
    {
        let r = self.lists.len();
        self.lists.push(head);
        r
    }

    /// The number of list wrappers.
    pub(crate) fn heads_len(&self) -> (r: usize)
        ensures
            r == self.heads().len(),
    {
        self.lists.len()
    }

    /// The first node of list `l`.
    pub(crate) fn head(&self, l: usize) -> (r: Option<Node>)
        requires
            l < self.heads().len(),
        ensures
            r == self.heads()[l as int],
            self.wf() && r is Some ==> self.has(r->Some_0),
    {
        self.lists[l]
    }

    /// Makes `head` the first node of list `l`.
    pub(crate) fn set_head(&mut self, l: usize, head: Option<Node>)
        requires
            old(self).wf(),
            head is Some ==> old(self).has(head->Some_0),
            l < old(self).heads().len(),
        ensures
            final(self).wf(),
            final(self)@ == old(self)@,
            final(self).heads() == old(self).heads().update(l as int, head),
    {
        self.lists.set(l, head);
    }

    /// Takes the exclusive borrow of node `i`'s cell, unless a guard is
    /// outstanding on it.
    pub(crate) fn try_acquire_mut(&mut self, i: usize) -> (r: Result<RefMutHedel, HedelError>)
        requires
            i < old(self)@.len(),
        ensures
            final(self)@ == old(self)@,
            final(self).heads() == old(self).heads(),
            forall|j: int| 0 <= j < old(self)@.len() && j != i ==> #[trigger] final(self).flag_at(j) == old(self).flag_at(j),
            old(self).flag_at(i as int) == BorrowFlag::Unused ==> r is Ok && final(self).flag_at(i as int)
                == BorrowFlag::Exclusive,
            old(self).flag_at(i as int) != BorrowFlag::Unused ==> r == Err::<RefMutHedel, HedelError>(
                HedelError::BorrowActiveConflict,
            ) && final(self).flag_at(i as int) == old(self).flag_at(i as int),
            old(self).wf() ==> final(self).held_by_writer(i),
    {
        let ghost before = self.cells@;
        let cell = &mut self.cells[i];
        let r = cell.try_get_mut();
        proof {
            assert(self.cells@ == before.update(i as int, self.cells@[i as int]));
        }
        assert(self@ =~= old(self)@);
        r
    }

    /// Takes the exclusive borrow of node `i`'s cell.
    pub(crate) fn acquire_mut(&mut self, i: usize) -> (r: RefMutHedel)
        requires
            old(self).wf(),
            i < old(self)@.len(),
        ensures
            final(self)@ == old(self)@,
            final(self).heads() == old(self).heads(),
            final(self).held_by_writer(i),
    {
        let ghost before = self.cells@;
        let cell = &mut self.cells[i];
        let guard = cell.get_mut();
        proof {
            assert(self.cells@ == before.update(i as int, self.cells@[i as int]));
        }
        assert(self@ =~= old(self)@);
        guard
    }

    /// Sets the `next` link of node `i` under its cell's exclusive guard.
    pub(crate) fn set_next(&mut self, i: usize, v: Option<Node>)
        requires
            old(self).wf(),
            i < old(self)@.len(),
        ensures
            final(self).wf(),
            final(self)@ == old(self)@.update(i as int, with_next(old(self)@[i as int], v)),
            final(self).heads() == old(self).heads(),
    {
        let ghost before = self.cells@;
        let cell = &mut self.cells[i];
        let guard = cell.get_mut();
        cell.value_mut(&guard).next = v;
        guard.release(cell);
        proof {
            assert(self.cells@ == before.update(i as int, self.cells@[i as int]));
        }
        assert(self@ =~= old(self)@.update(i as int, with_next(old(self)@[i as int], v)));
    }

    /// Sets the `prev` link of node `i` under its cell's exclusive guard.
    pub(crate) fn set_prev(&mut self, i: usize, v: Option<WeakNode>)
        requires
            old(self).wf(),
            i < old(self)@.len(),
        ensures
            final(self).wf(),
            final(self)@ == old(self)@.update(i as int, with_prev(old(self)@[i as int], v)),
            final(self).heads() == old(self).heads(),
    {
        let ghost before = self.cells@;
        let cell = &mut self.cells[i];
        let guard = cell.get_mut();
        cell.value_mut(&guard).prev = v;
        guard.release(cell);
        proof {
            assert(self.cells@ == before.update(i as int, self.cells@[i as int]));
        }
        assert(self@ =~= old(self)@.update(i as int, with_prev(old(self)@[i as int], v)));
    }

    /// Sets the `child` link of node `i` under its cell's exclusive guard.
    pub(crate) fn set_child(&mut self, i: usize, v: Option<Node>)
        requires
            old(self).wf(),
            i < old(self)@.len(),
        ensures
            final(self).wf(),
            final(self)@ == old(self)@.update(i as int, with_child(old(self)@[i as int], v)),
            final(self).heads() == old(self).heads(),
    {
        let ghost before = self.cells@;
        let cell = &mut self.cells[i];
        let guard = cell.get_mut();
        cell.value_mut(&guard).child = v;
        guard.release(cell);
        proof {
            assert(self.cells@ == before.update(i as int, self.cells@[i as int]));
        }
        assert(self@ =~= old(self)@.update(i as int, with_child(old(self)@[i as int], v)));
    }

    /// Sets the `parent` link of node `i` under its cell's exclusive guard.
    pub(crate) fn set_parent(&mut self, i: usize, v: Option<WeakNode>)
        requires
            old(self).wf(),
            i < old(self)@.len(),
        ensures
            final(self).wf(),
            final(self)@ == old(self)@.update(i as int, with_parent(old(self)@[i as int], v)),
            final(self).heads() == old(self).heads(),
    {
        let ghost before = self.cells@;
        let cell = &mut self.cells[i];
        let guard = cell.get_mut();
        cell.value_mut(&guard).parent = v;
        guard.release(cell);
        proof {
            assert(self.cells@ == before.update(i as int, self.cells@[i as int]));
        }
        assert(self@ =~= old(self)@.update(i as int, with_parent(old(self)@[i as int], v)));
    }

    /// Sets the `list` link of node `i` under its cell's exclusive guard.
    pub(crate) fn set_list(&mut self, i: usize, v: Option<WeakList>)
        requires
            old(self).wf(),
            i < old(self)@.len(),
        ensures
            final(self).wf(),
            final(self)@ == old(self)@.update(i as int, with_list(old(self)@[i as int], v)),
            final(self).heads() == old(self).heads(),
    {
        let ghost before = self.cells@;
        let cell = &mut self.cells[i];
        let guard = cell.get_mut();
        cell.value_mut(&guard).list = v;
        guard.release(cell);
        proof {
            assert(self.cells@ == before.update(i as int, self.cells@[i as int]));
        }
        assert(self@ =~= old(self)@.update(i as int, with_list(old(self)@[i as int], v)));
    }

    /// Clears the `parent`, `next` and `prev` links of node `i` under its
    /// cell's exclusive guard.
    pub(crate) fn clear_links(&mut self, i: usize)
        requires
            old(self).wf(),
            i < old(self)@.len(),
        ensures
            final(self).wf(),
            final(self)@ == old(self)@.update(i as int, freed(old(self)@[i as int])),
            final(self).heads() == old(self).heads(),
    {
        let ghost before = self.cells@;
        let cell = &mut self.cells[i];
        let guard = cell.get_mut();
        let rec = cell.value_mut(&guard);
        rec.parent = None;
        rec.next = None;
        rec.prev = None;
        guard.release(cell);
        proof {
            assert(self.cells@ == before.update(i as int, self.cells@[i as int]));
        }
        assert(self@ =~= old(self)@.update(i as int, freed(old(self)@[i as int])));
    }
}

impl<T> Arena<T> {
    /// The borrow state of node `i`'s cell.
    pub closed spec fn flag_at(&self, i: int) -> BorrowFlag {
        self.cells@[i].spec_flag()
    }

    /// Node `i`'s cell is exclusively borrowed and every other cell is free.
    pub closed spec fn held_by_writer(&self, i: usize) -> bool {
        &&& i < self.cells@.len()
        &&& self.cells@[i as int].spec_flag() == BorrowFlag::Exclusive
        &&& forall|j: int| 0 <= j < self.cells@.len() && j != i ==> #[trigger] self.cells@[j].spec_flag()
            == BorrowFlag::Unused
        &&& forall|l: int| 0 <= l < self.lists@.len() && #[trigger] self.lists@[l] is Some
            ==> self.lists@[l]->Some_0.id < self.cells@.len()
    }

    /// Replaces `node`'s record under a granted exclusive borrow.
    pub fn store(&mut self, node: Node, guard: &RefMutHedel, rec: NodeInner<T>)
        requires
            old(self).held_by_writer(node.id),
        ensures
            final(self)@ == old(self)@.update(node.id as int, rec),
            final(self).heads() == old(self).heads(),
            final(self).held_by_writer(node.id),
    {
        let ghost before = self.cells@;
        let cell = &mut self.cells[node.id];
        *cell.value_mut(guard) = rec;
        proof {
            assert(self.cells@ == before.update(node.id as int, self.cells@[node.id as int]));
        }
        assert(self@ =~= old(self)@.update(node.id as int, rec));
    }

    /// Gives back the exclusive borrow of `node`'s record.
    pub fn release_mut(&mut self, node: Node, guard: RefMutHedel)
        requires
            old(self).held_by_writer(node.id),
        ensures
            final(self).wf(),
            final(self)@ == old(self)@,
            final(self).heads() == old(self).heads(),
    {
        let ghost before = self.cells@;
        let cell = &mut self.cells[node.id];
        guard.release(cell);
        proof {
            assert(self.cells@ == before.update(node.id as int, self.cells@[node.id as int]));
        }
        assert(self@ =~= old(self)@);
    }
}

impl WeakNode {
    /// The owning handle, if the node is still in the arena.
    pub fn upgrade<T>(&self, arena: &Arena<T>) -> (r: Option<Node>)
        ensures
            opt_id(r) == resolve_weak(arena@, Some(*self)),
    {
        if self.id < arena.len() {
            Some(Node { id: self.id })
        } else {
            None
        }
    }
}

/// The owning handle for an observing link, if it resolves.
fn upgrade_link<T>(arena: &Arena<T>, l: Option<WeakNode>) -> (r: Option<Node>)
    ensures
        opt_id(r) == resolve_weak(arena@, l),
{
    match l {
        Some(w) => w.upgrade(arena),
        None => None,
    }
}

/// The owning link itself, if it resolves.
fn check_link<T>(arena: &Arena<T>, l: Option<Node>) -> (r: Option<Node>)
    ensures
        opt_id(r) == resolve(arena@, l),
        r is Some ==> r == l,
{
    match l {
        Some(n) => if n.id < arena.len() {
            Some(n)
        } else {
            None
        },
        None => None,
    }
}

impl Node {
    /// A stand-alone node holding `content`: no parent, no siblings, no child.
    pub fn new<T>(arena: &mut Arena<T>, content: T) -> (r: Node)
        requires
            old(arena).wf(),
        ensures
            final(arena).wf(),
            final(arena)@ == old(arena)@.push(
                NodeInner { next: None, prev: None, child: None, parent: None, list: None, content },
            ),
            final(arena).heads() == old(arena).heads(),
            r.id == old(arena)@.len(),
    {
        arena.push_record(
            NodeInner { next: None, prev: None, child: None, parent: None, list: None, content },
        )
    }

    /// The observing handle to this node.
    pub fn downgrade(&self) -> (r: WeakNode)
        ensures
            r.id == self.id,
    {
        WeakNode { id: self.id }
    }

    /// The record, unless an exclusive guard is outstanding on it.
    pub fn try_get<'a, T>(&self, arena: &'a Arena<T>) -> (r: Result<&'a NodeInner<T>, HedelError>)
        requires
            arena.has(*self),
        ensures
            r is Ok <==> arena.flag_at(self.id as int) != BorrowFlag::Exclusive,
            r is Ok ==> *r->Ok_0 == arena@[self.id as int],
            r is Err ==> r == Err::<&NodeInner<T>, HedelError>(HedelError::ExclusiveActiveConflict),
    {
        let r = arena.try_record(self.id);
        r
    }

    /// The record.
    pub fn get<'a, T>(&self, arena: &'a Arena<T>) -> (r: &'a NodeInner<T>)
        requires
            arena.wf(),
            arena.has(*self),
        ensures
            *r == arena@[self.id as int],
    {
        arena.record(self.id)
    }

    /// Takes the exclusive borrow of the record, which fails while any guard
    /// is outstanding on it. Write through [`Arena::store`] and give the
    /// borrow back with [`Arena::release_mut`].
    pub fn try_get_mut<T>(&self, arena: &mut Arena<T>) -> (r: Result<RefMutHedel, HedelError>)
        requires
            old(arena).has(*self),
        ensures
            final(arena)@ == old(arena)@,
            final(arena).heads() == old(arena).heads(),
            forall|j: int| 0 <= j < old(arena)@.len() && j != self.id ==> #[trigger] final(arena).flag_at(j)
                == old(arena).flag_at(j),
            old(arena).flag_at(self.id as int) == BorrowFlag::Unused ==> r is Ok && final(arena).flag_at(
                self.id as int,
            ) == BorrowFlag::Exclusive,
            old(arena).flag_at(self.id as int) != BorrowFlag::Unused ==> r == Err::<RefMutHedel, HedelError>(
                HedelError::BorrowActiveConflict,
            ) && final(arena).flag_at(self.id as int) == old(arena).flag_at(self.id as int),
            old(arena).wf() ==> final(arena).held_by_writer(self.id),
    {
        arena.try_acquire_mut(self.id)
    }

    /// Takes the exclusive borrow of the record.
    pub fn get_mut<T>(&self, arena: &mut Arena<T>) -> (r: RefMutHedel)
        requires
            old(arena).wf(),
            old(arena).has(*self),
        ensures
            final(arena)@ == old(arena)@,
            final(arena).heads() == old(arena).heads(),
            final(arena).held_by_writer(self.id),
    {
        arena.acquire_mut(self.id)
    }

    /// The next sibling.
    pub fn next<T>(&self, arena: &Arena<T>) -> (r: Option<Node>)
        requires
            arena.wf(),
            arena.has(*self),
        ensures
            opt_id(r) == next_id(arena@, self.id),
    {
        check_link(arena, arena.record(self.id).next)
    }

    /// The previous sibling.
    pub fn prev<T>(&self, arena: &Arena<T>) -> (r: Option<Node>)
        requires
            arena.wf(),
            arena.has(*self),
        ensures
            opt_id(r) == prev_id(arena@, self.id),
    {
        upgrade_link(arena, arena.record(self.id).prev)
    }

    /// The parent.
    pub fn parent<T>(&self, arena: &Arena<T>) -> (r: Option<Node>)
        requires
            arena.wf(),
            arena.has(*self),
        ensures
            opt_id(r) == parent_id(arena@, self.id),
    {
        upgrade_link(arena, arena.record(self.id).parent)
    }

    /// The first child.
    pub fn child<T>(&self, arena: &Arena<T>) -> (r: Option<Node>)
        requires
            arena.wf(),
            arena.has(*self),
        ensures
            opt_id(r) == child_id(arena@, self.id),
    {
        check_link(arena, arena.record(self.id).child)
    }

    /// A copy of the content.
    pub fn to_content<T: Copy>(self, arena: &Arena<T>) -> (r: T)
        requires
            arena.wf(),
            arena.has(self),
        ensures
            r == arena@[self.id as int].content,
    {
        arena.record(self.id).content
    }

    /// Clears `parent`, `next` and `prev`, leaving `child` and the content.
    /// Used after [`crate::DetachNode::detach_preserve`], on nodes that are
    /// already out of their chain; on any other node it breaks the chain.
    pub fn free<T>(&self, arena: &mut Arena<T>)
        requires
            old(arena).wf(),
            old(arena).has(*self),
        ensures
            final(arena).wf(),
            final(arena)@ == old(arena)@.update(self.id as int, freed(old(arena)@[self.id as int])),
            final(arena).heads() == old(arena).heads(),
    {
        arena.clear_links(self.id);
    }
}

/// An ordered batch of handles, with no link among them implied: the
/// result of a collection, or the nodes put aside by
/// [`crate::DetachNode::detach_preserve`].
#[derive(Debug)]
pub struct NodeCollection {
    pub nodes: Vec<Node>,
}

/// Node `i` is one of `v`.
pub open spec fn in_batch(v: Seq<Node>, i: int) -> bool {
    exists|j: int| 0 <= j < v.len() && v[j].id == i
}

/// `s` with `parent`, `next` and `prev` cleared on every node of `v`.
pub open spec fn freed_all<T>(s: Seq<NodeInner<T>>, v: Seq<Node>) -> Seq<NodeInner<T>> {
    Seq::new(s.len(), |i: int| if in_batch(v, i) { freed(s[i]) } else { s[i] })
}

impl NodeCollection {
    /// A collection holding `nodes`.
    pub fn from_vec(nodes: Vec<Node>) -> (r: Self)
        ensures
            r.nodes@ == nodes@,
    {
        NodeCollection { nodes }
    }

    /// An empty collection.
    pub fn new() -> (r: Self)
        ensures
            r.nodes@ == Seq::<Node>::empty(),
    {
        NodeCollection { nodes: Vec::new() }
    }

    /// The handles, by value.
    pub fn into_nodes(self) -> (r: Vec<Node>)
        ensures
            r@ == self.nodes@,
    {
        self.nodes
    }

    /// The handles.
    pub fn as_nodes(&self) -> (r: &Vec<Node>)
        ensures
            r@ == self.nodes@,
    {
        &self.nodes
    }

    /// The handles, for changing.
    pub fn as_mut_nodes(&mut self) -> (r: &mut Vec<Node>)
        ensures
            *r == old(self).nodes,
            final(self).nodes == *final(r),
    {
        &mut self.nodes
    }

    /// Adds a handle at the end.
    pub fn push(&mut self, node: Node)
        ensures
            final(self).nodes@ == old(self).nodes@.push(node),
    {
        self.nodes.push(node);
    }

    /// Clears `parent`, `next` and `prev` on every node of the collection:
    /// the second step after [`crate::DetachNode::detach_preserve`].
    pub fn free<T>(&self, arena: &mut Arena<T>)
        requires
            old(arena).wf(),
            forall|i: int| 0 <= i < self.nodes@.len() ==> old(arena).has(#[trigger] self.nodes@[i]),
        ensures
            final(arena).wf(),
            final(arena)@ == freed_all(old(arena)@, self.nodes@),
            final(arena).heads() == old(arena).heads(),
    {
        let mut k: usize = 0;
        while k < self.nodes.len()
            invariant
                arena.wf(),
                k <= self.nodes@.len(),
                forall|i: int| 0 <= i < self.nodes@.len() ==> old(arena).has(#[trigger] self.nodes@[i]),
                arena@ == freed_all(old(arena)@, self.nodes@.subrange(0, k as int)),
                arena.heads() == old(arena).heads(),
            decreases self.nodes@.len() - k,
        {
            let ghost before = arena@;
            let node = self.nodes[k];
            node.free(arena);
            proof {
                let done = self.nodes@.subrange(0, k as int);
                let next = self.nodes@.subrange(0, k + 1);
                assert(next =~= done.push(node));
                assert forall|i: int| 0 <= i < arena@.len() implies arena@[i] == freed_all(old(arena)@, next)[i] by {
                    if i == node.id {
                        assert(next[k as int].id == i);
                    } else {
                        if in_batch(next, i) {
                            let w = choose|w: int| 0 <= w < next.len() && next[w].id == i;
                            assert(w < k);
                            assert(done[w].id == i);
                        }
                        if in_batch(done, i) {
                            let w = choose|w: int| 0 <= w < done.len() && done[w].id == i;
                            assert(next[w].id == i);
                        }
                    }
                }
                assert(arena@ =~= freed_all(old(arena)@, next));
            }
            k += 1;
        }
        assert(self.nodes@.subrange(0, self.nodes@.len() as int) =~= self.nodes@);
    }
}

} // verus!
