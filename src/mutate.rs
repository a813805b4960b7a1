//! Detaching, appending and inserting nodes, each stated as an exact edit
//! of the records, with the proofs that sibling links stay symmetric and
//! that parent and first-child links stay consistent with them.

use vstd::prelude::*;

use crate::list::list_id;
use crate::node::{
    child_id, freed, freed_all, in_batch, next_id, parent_id, prev_id, with_child, with_list, with_next, with_parent,
    with_prev, Arena, Node, NodeCollection, NodeInner, WeakNode,
};
use crate::traverse::{lemma_next_chain_in_range, last_of, next_chain, GetNode, Handle};

verus! {

/// Node `i`'s sibling links agree: its next sibling points back to it
/// through `prev`, and its previous sibling forward to it through `next`.
pub open spec fn symmetric_at<T>(s: Seq<NodeInner<T>>, i: usize) -> bool {
    &&& (next_id(s, i) is Some ==> prev_id(s, next_id(s, i)->Some_0) == Some(i))
    &&& (prev_id(s, i) is Some ==> next_id(s, prev_id(s, i)->Some_0) == Some(i))
}

/// Every node's sibling links agree.
pub open spec fn linked<T>(s: Seq<NodeInner<T>>) -> bool {
    forall|i: usize| i < s.len() ==> #[trigger] symmetric_at(s, i)
}

/// Node `n` sits in no chain: it has neither a previous nor a next sibling.
pub open spec fn unchained<T>(s: Seq<NodeInner<T>>, n: usize) -> bool {
    prev_id(s, n) is None && next_id(s, n) is None
}

/// Node `i`'s parent and child links agree with its sibling links: its
/// first child has no previous sibling and has `i` as parent; its next
/// sibling has the same parent; and when it has a parent but no previous
/// sibling, it is that parent's first child. Together with [`linked`], along
/// a chain that ends this makes every node whose parent is `p` lie on the
/// chain that starts at `p`'s first child.
pub open spec fn family_at<T>(s: Seq<NodeInner<T>>, i: usize) -> bool {
    &&& (child_id(s, i) is Some ==> prev_id(s, child_id(s, i)->Some_0) is None && parent_id(
        s,
        child_id(s, i)->Some_0,
    ) == Some(i))
    &&& (next_id(s, i) is Some ==> parent_id(s, next_id(s, i)->Some_0) == parent_id(s, i))
    &&& (parent_id(s, i) is Some && prev_id(s, i) is None ==> child_id(s, parent_id(s, i)->Some_0)
        == Some(i))
}

/// Sibling links are symmetric and every node's family links agree.
pub open spec fn consistent<T>(s: Seq<NodeInner<T>>) -> bool {
    &&& linked(s)
    &&& forall|i: usize| i < s.len() ==> #[trigger] family_at(s, i)
}

/// Node `n` sits nowhere: no siblings and no parent (so, in a consistent
/// arena, no node has it as first child).
pub open spec fn standalone<T>(s: Seq<NodeInner<T>>, n: usize) -> bool {
    unchained(s, n) && parent_id(s, n) is None
}

/// `s` after node `x`'s neighbours are joined around it: the previous
/// sibling's `next` and the next sibling's `prev` skip `x`, and when `x` is
/// a first child its parent's `child` moves on to the next sibling. Node
/// `x`'s own record is left as it was.
pub open spec fn unlinked<T>(s: Seq<NodeInner<T>>, x: usize) -> Seq<NodeInner<T>> {
    match (prev_id(s, x), next_id(s, x)) {
        (Some(p), Some(m)) => {
            let s1 = s.update(p as int, with_next(s[p as int], Some(Node { id: m })));
            s1.update(m as int, with_prev(s1[m as int], Some(WeakNode { id: p })))
        },
        (Some(p), None) => s.update(p as int, with_next(s[p as int], None)),
        (None, Some(m)) => {
            let s1 = s.update(m as int, with_prev(s[m as int], None));
            match parent_id(s, x) {
                Some(q) => s1.update(q as int, with_child(s1[q as int], Some(Node { id: m }))),
                None => s1,
            }
        },
        (None, None) => match parent_id(s, x) {
            Some(q) => s.update(q as int, with_child(s[q as int], None)),
            None => s,
        },
    }
}

/// `s` after node `x` is taken out of its chain and its own `parent`,
/// `prev` and `next` are cleared.
pub open spec fn detached<T>(s: Seq<NodeInner<T>>, x: usize) -> Seq<NodeInner<T>> {
    let s1 = unlinked(s, x);
    s1.update(x as int, freed(s1[x as int]))
}

/// `s` after node `n` is spliced in right after node `x`, taking `x`'s
/// parent.
pub open spec fn appended_next<T>(s: Seq<NodeInner<T>>, x: usize, n: usize) -> Seq<NodeInner<T>> {
    let s1 = s.update(n as int, with_parent(s[n as int], s[x as int].parent));
    let s2 = match next_id(s1, x) {
        Some(m) => {
            let t = s1.update(m as int, with_prev(s1[m as int], Some(WeakNode { id: n })));
            t.update(n as int, with_next(t[n as int], Some(Node { id: m })))
        },
        None => s1,
    };
    let s3 = s2.update(x as int, with_next(s2[x as int], Some(Node { id: n })));
    s3.update(n as int, with_prev(s3[n as int], Some(WeakNode { id: x })))
}

/// Node `x` has nothing before it to splice into: no previous sibling, no
/// list it heads, and no parent.
pub open spec fn nowhere_before<T>(s: Seq<NodeInner<T>>, heads: Seq<Option<Node>>, x: usize) -> bool {
    prev_id(s, x) is None && list_id(s, heads, x) is None && parent_id(s, x) is None
}

/// The records and list heads after node `n` is spliced in right before
/// node `x`, taking `x`'s parent. When `x` has no previous sibling, `n`
/// becomes the first child of `x`'s parent and takes over the head of the
/// list `x` headed. When `x` has none of the three, nothing changes.
pub open spec fn appended_prev<T>(
    s: Seq<NodeInner<T>>,
    heads: Seq<Option<Node>>,
    x: usize,
    n: usize,
) -> (Seq<NodeInner<T>>, Seq<Option<Node>>) {
    if nowhere_before(s, heads, x) {
        (s, heads)
    } else {
        spliced_before(s, heads, x, n)
    }
}

/// The splice of [`appended_prev`] when `x` has a previous sibling, a list
/// or a parent.
pub open spec fn spliced_before<T>(
    s: Seq<NodeInner<T>>,
    heads: Seq<Option<Node>>,
    x: usize,
    n: usize,
) -> (Seq<NodeInner<T>>, Seq<Option<Node>>) {
    let par = s[x as int].parent;
    let (s4, h) = match prev_id(s, x) {
        Some(p) => {
            let s1 = s.update(p as int, with_next(s[p as int], Some(Node { id: n })));
            let s2 = s1.update(n as int, with_prev(s1[n as int], Some(WeakNode { id: p })));
            let s3 = s2.update(x as int, with_prev(s2[x as int], Some(WeakNode { id: n })));
            (s3.update(n as int, with_next(s3[n as int], Some(Node { id: x }))), heads)
        },
        None => {
            let s1 = s.update(x as int, with_prev(s[x as int], Some(WeakNode { id: n })));
            let s2 = s1.update(n as int, with_next(s1[n as int], Some(Node { id: x })));
            let (s3, h) = match list_id(s2, heads, x) {
                Some(l) => {
                    let t = s2.update(n as int, with_list(s2[n as int], Some(crate::list::WeakList { id: l })));
                    (t.update(x as int, with_list(t[x as int], None)), heads.update(l as int, Some(Node { id: n })))
                },
                None => (s2, heads),
            };
            match parent_id(s3, x) {
                Some(q) => (s3.update(q as int, with_child(s3[q as int], Some(Node { id: n }))), h),
                None => (s3, h),
            }
        },
    };
    (s4.update(n as int, with_parent(s4[n as int], par)), h)
}

/// The last child of node `x`: the end of the `next` walk from its first
/// child, within as many steps as `s` has nodes.
pub open spec fn last_child_of<T>(s: Seq<NodeInner<T>>, x: usize) -> Option<usize> {
    match child_id(s, x) {
        Some(c) => match last_of(next_chain(s, c, s.len() as nat)) {
            Some(l) => Some(l),
            None => Some(c),
        },
        None => None,
    }
}

/// The walk along `x`'s children ends at a child with no next sibling: the
/// child chain is not a ring.
pub open spec fn children_end<T>(s: Seq<NodeInner<T>>, x: usize) -> bool {
    last_child_of(s, x) is Some ==> next_id(s, last_child_of(s, x)->Some_0) is None
}

/// `s` after node `n` becomes the last child of node `x`.
pub open spec fn appended_child<T>(s: Seq<NodeInner<T>>, x: usize, n: usize) -> Seq<NodeInner<T>> {
    let s1 = s.update(n as int, with_parent(s[n as int], Some(WeakNode { id: x })));
    match last_child_of(s1, x) {
        Some(l) => {
            let s2 = s1.update(l as int, with_next(s1[l as int], Some(Node { id: n })));
            s2.update(n as int, with_prev(s2[n as int], Some(WeakNode { id: l })))
        },
        None => s1.update(x as int, with_child(s1[x as int], Some(Node { id: n }))),
    }
}

/// Joins the neighbours of `x` around it, leaving `x`'s own record.
fn unlink<T>(arena: &mut Arena<T>, x: Node)
    requires
        old(arena).wf(),
        old(arena).has(x),
    ensures
        final(arena).wf(),
        final(arena)@ == unlinked(old(arena)@, x.id),
        final(arena).heads() == old(arena).heads(),
{
    let prev = x.prev(arena);
    let next = x.next(arena);
    let parent = x.parent(arena);
    match (prev, next) {
        (Some(p), Some(m)) => {
            arena.set_next(p.id, Some(m));
            arena.set_prev(m.id, Some(p.downgrade()));
        },
        (Some(p), None) => {
            arena.set_next(p.id, None);
        },
        (None, Some(m)) => {
            arena.set_prev(m.id, None);
            if let Some(q) = parent {
                arena.set_child(q.id, Some(m));
            }
        },
        (None, None) => {
            if let Some(q) = parent {
                arena.set_child(q.id, None);
            }
        },
    }
}

/// Takes a node out of its chain.
pub trait DetachNode<T>: Handle {
    /// Joins this node's neighbours around it, moves its parent's `child`
    /// on when it was the first child, and clears its own `parent`, `prev`
    /// and `next`. Its subtree stays with it.
    fn detach(&self, arena: &mut Arena<T>)
        requires
            old(arena).wf(),
            old(arena).has(self.handle()),
        ensures
            final(arena).wf(),
            final(arena)@ == detached(old(arena)@, self.handle().id),
            final(arena).heads() == old(arena).heads(),
            linked(old(arena)@) ==> linked(final(arena)@),
            consistent(old(arena)@) ==> consistent(final(arena)@),
    ;

    /// Joins this node's neighbours around it like [`DetachNode::detach`]
    /// but keeps its own links, so that a walk along the chain can go on
    /// from it, and adds it to `vec`. Clear its links afterwards with
    /// [`NodeCollection::free`]: once they are cleared, sibling links are
    /// symmetric again.
    fn detach_preserve(&self, arena: &mut Arena<T>, vec: &mut NodeCollection)
        requires
            old(arena).wf(),
            old(arena).has(self.handle()),
        ensures
            final(arena).wf(),
            final(arena)@ == unlinked(old(arena)@, self.handle().id),
            final(arena).heads() == old(arena).heads(),
            final(vec).nodes@ == old(vec).nodes@.push(self.handle()),
            linked(old(arena)@) ==> linked(
                final(arena)@.update(
                    self.handle().id as int,
                    freed(final(arena)@[self.handle().id as int]),
                ),
            ),
            consistent(old(arena)@) ==> consistent(
                final(arena)@.update(
                    self.handle().id as int,
                    freed(final(arena)@[self.handle().id as int]),
                ),
            ),
    ;
}

impl<T> DetachNode<T> for Node {
    fn detach(&self, arena: &mut Arena<T>) {
        proof {
            lemma_detach_family(arena@, self.id);
        }
        unlink(arena, *self);
        self.free(arena);
    }

    fn detach_preserve(&self, arena: &mut Arena<T>, vec: &mut NodeCollection) {
        proof {
            lemma_detach_family(arena@, self.id);
        }
        unlink(arena, *self);
        vec.push(*self);
    }
}

proof fn lemma_detach_linked<T>(s: Seq<NodeInner<T>>, x: usize)
    requires
        x < s.len(),
    ensures
        linked(s) ==> linked(detached(s, x)),
{
    if linked(s) {
        let t = detached(s, x);
        assert(symmetric_at(s, x));
        assert forall|i: usize| i < t.len() implies #[trigger] symmetric_at(t, i) by {
            assert(symmetric_at(s, i));
            if next_id(s, i) is Some {
                assert(symmetric_at(s, next_id(s, i)->Some_0));
            }
            if prev_id(s, i) is Some {
                assert(symmetric_at(s, prev_id(s, i)->Some_0));
            }
        }
    }
}

/// Splices a node in next to another.
pub trait AppendNode<T>: Handle {
    /// Splices `node` in right after this node, with this node's parent.
    fn append_next(&self, arena: &mut Arena<T>, node: Node)
        requires
            old(arena).wf(),
            old(arena).has(self.handle()),
            old(arena).has(node),
        ensures
            final(arena).wf(),
            final(arena)@ == appended_next(old(arena)@, self.handle().id, node.id),
            final(arena).heads() == old(arena).heads(),
            linked(old(arena)@) && unchained(old(arena)@, node.id) && node != self.handle() ==> linked(
                final(arena)@,
            ),
            consistent(old(arena)@) && standalone(old(arena)@, node.id) && node != self.handle()
                ==> consistent(final(arena)@),
            parent_id(final(arena)@, node.id) == parent_id(old(arena)@, self.handle().id),
    ;

    /// Makes `node` the last child of this node, after any children it has.
    fn append_child(&self, arena: &mut Arena<T>, node: Node)
        requires
            old(arena).wf(),
            old(arena).has(self.handle()),
            old(arena).has(node),
        ensures
            final(arena).wf(),
            final(arena)@ == appended_child(old(arena)@, self.handle().id, node.id),
            final(arena).heads() == old(arena).heads(),
            linked(old(arena)@) && unchained(old(arena)@, node.id) && children_end(
                old(arena)@,
                self.handle().id,
            ) ==> linked(final(arena)@),
            consistent(old(arena)@) && standalone(old(arena)@, node.id) && children_end(
                old(arena)@,
                self.handle().id,
            ) && node != self.handle() ==> consistent(final(arena)@),
    ;

    /// Splices `node` in right before this node, with this node's parent.
    /// When this node has no previous sibling, `node` also becomes its
    /// parent's first child and the head of the list this node headed. When
    /// this node has no previous sibling, heads no list and has no parent,
    /// there is no place to splice into and the call changes nothing.
    fn append_prev(&self, arena: &mut Arena<T>, node: Node)
        requires
            old(arena).wf(),
            old(arena).has(self.handle()),
            old(arena).has(node),
        ensures
            final(arena).wf(),
            (final(arena)@, final(arena).heads()) == appended_prev(
                old(arena)@,
                old(arena).heads(),
                self.handle().id,
                node.id,
            ),
            linked(old(arena)@) && unchained(old(arena)@, node.id) && node != self.handle() ==> linked(
                final(arena)@,
            ),
            consistent(old(arena)@) && standalone(old(arena)@, node.id) && node != self.handle()
                ==> consistent(final(arena)@),
            standalone(old(arena)@, node.id) ==> parent_id(final(arena)@, node.id) == parent_id(
                old(arena)@,
                self.handle().id,
            ),
    ;
}

impl<T> AppendNode<T> for Node {
    fn append_next(&self, arena: &mut Arena<T>, node: Node) {
        proof {
            lemma_append_next_family(arena@, self.id, node.id);
        }
        let par = self.get(arena).parent;
        arena.set_parent(node.id, par);
        if let Some(m) = self.next(arena) {
            arena.set_prev(m.id, Some(node.downgrade()));
            arena.set_next(node.id, Some(m));
        }
        arena.set_next(self.id, Some(node));
        arena.set_prev(node.id, Some(self.downgrade()));
    }

    fn append_child(&self, arena: &mut Arena<T>, node: Node) {
        proof {
            lemma_append_child_family(arena@, self.id, node.id);
        }
        arena.set_parent(node.id, Some(self.downgrade()));
        if let Some(last) = self.get_last_child(arena) {
            arena.set_next(last.id, Some(node));
            arena.set_prev(node.id, Some(last.downgrade()));
        } else {
            arena.set_child(self.id, Some(node));
        }
    }

    fn append_prev(&self, arena: &mut Arena<T>, node: Node) {
        proof {
            lemma_append_prev_family(arena@, arena.heads(), self.id, node.id);
        }
        let par = self.get(arena).parent;
        let prev = self.prev(arena);
        if prev.is_none() && self.list(arena).is_none() && self.parent(arena).is_none() {
            return;
        }
        if let Some(p) = prev {
            arena.set_next(p.id, Some(node));
            arena.set_prev(node.id, Some(p.downgrade()));
            arena.set_prev(self.id, Some(node.downgrade()));
            arena.set_next(node.id, Some(*self));
        } else {
            arena.set_prev(self.id, Some(node.downgrade()));
            arena.set_next(node.id, Some(*self));
            if let Some(l) = self.list(arena) {
                arena.set_list(node.id, Some(l.downgrade()));
                arena.set_list(self.id, None);
                arena.set_head(l.id, Some(node));
            }
            if let Some(q) = self.parent(arena) {
                arena.set_child(q.id, Some(node));
            }
        }
        arena.set_parent(node.id, par);
    }
}

proof fn lemma_detach_family<T>(s: Seq<NodeInner<T>>, x: usize)
    requires
        x < s.len(),
    ensures
        linked(s) ==> linked(detached(s, x)),
        consistent(s) ==> consistent(detached(s, x)),
{
    lemma_detach_linked(s, x);
    if consistent(s) {
        let t = detached(s, x);
        assert(symmetric_at(s, x));
        assert(family_at(s, x));
        assert forall|i: usize| i < t.len() implies #[trigger] family_at(t, i) by {
            assert(symmetric_at(s, i));
            assert(family_at(s, i));
            if next_id(s, i) is Some {
                assert(family_at(s, next_id(s, i)->Some_0));
                assert(symmetric_at(s, next_id(s, i)->Some_0));
            }
            if prev_id(s, i) is Some {
                assert(symmetric_at(s, prev_id(s, i)->Some_0));
                assert(family_at(s, prev_id(s, i)->Some_0));
            }
            if child_id(s, i) is Some {
                assert(family_at(s, child_id(s, i)->Some_0));
            }
            if parent_id(s, i) is Some {
                assert(family_at(s, parent_id(s, i)->Some_0));
            }
        }
    }
}

proof fn lemma_append_next_family<T>(s: Seq<NodeInner<T>>, x: usize, n: usize)
    requires
        x < s.len(),
        n < s.len(),
    ensures
        linked(s) && unchained(s, n) && n != x ==> linked(appended_next(s, x, n)),
        consistent(s) && standalone(s, n) && n != x ==> consistent(appended_next(s, x, n)),
{
    lemma_append_next_linked(s, x, n);
    if consistent(s) && standalone(s, n) && n != x {
        let t = appended_next(s, x, n);
        assert(symmetric_at(s, x));
        assert(family_at(s, x));
        assert(family_at(s, n));
        if next_id(s, x) is Some {
            assert(family_at(s, next_id(s, x)->Some_0));
        }
        assert forall|i: usize| i < t.len() implies #[trigger] family_at(t, i) by {
            assert(symmetric_at(s, i));
            assert(family_at(s, i));
            if next_id(s, i) is Some {
                assert(family_at(s, next_id(s, i)->Some_0));
                assert(symmetric_at(s, next_id(s, i)->Some_0));
            }
            if prev_id(s, i) is Some {
                assert(symmetric_at(s, prev_id(s, i)->Some_0));
                assert(family_at(s, prev_id(s, i)->Some_0));
            }
            if child_id(s, i) is Some {
                assert(family_at(s, child_id(s, i)->Some_0));
            }
            if parent_id(s, i) is Some {
                assert(family_at(s, parent_id(s, i)->Some_0));
            }
        }
    }
}

#[verifier::rlimit(80)]
proof fn lemma_append_prev_family<T>(s: Seq<NodeInner<T>>, heads: Seq<Option<Node>>, x: usize, n: usize)
    requires
        x < s.len(),
        n < s.len(),
    ensures
        linked(s) && unchained(s, n) && n != x ==> linked(appended_prev(s, heads, x, n).0),
        consistent(s) && standalone(s, n) && n != x ==> consistent(appended_prev(s, heads, x, n).0),
{
    lemma_append_prev_linked(s, heads, x, n);
    if consistent(s) && standalone(s, n) && n != x && !nowhere_before(s, heads, x) {
        let t = appended_prev(s, heads, x, n).0;
        assert(symmetric_at(s, x));
        assert(family_at(s, x));
        assert(family_at(s, n));
        if prev_id(s, x) is Some {
            assert(family_at(s, prev_id(s, x)->Some_0));
        }
        if parent_id(s, x) is Some {
            assert(family_at(s, parent_id(s, x)->Some_0));
        }
        assert forall|i: usize| i < t.len() implies #[trigger] family_at(t, i) by {
            assert(symmetric_at(s, i));
            assert(family_at(s, i));
            if next_id(s, i) is Some {
                assert(family_at(s, next_id(s, i)->Some_0));
                assert(symmetric_at(s, next_id(s, i)->Some_0));
            }
            if prev_id(s, i) is Some {
                assert(symmetric_at(s, prev_id(s, i)->Some_0));
                assert(family_at(s, prev_id(s, i)->Some_0));
            }
            if child_id(s, i) is Some {
                assert(family_at(s, child_id(s, i)->Some_0));
            }
            if parent_id(s, i) is Some {
                assert(family_at(s, parent_id(s, i)->Some_0));
            }
        }
    }
}

proof fn lemma_chain_parent<T>(s: Seq<NodeInner<T>>, c: usize, fuel: nat)
    requires
        consistent(s),
        c < s.len(),
    ensures
        forall|k: int| 0 <= k < next_chain(s, c, fuel).len() ==> parent_id(s, #[trigger] next_chain(s, c, fuel)[k])
            == parent_id(s, c),
    decreases fuel,
{
    if fuel > 0 {
        if let Some(m) = next_id(s, c) {
            assert(family_at(s, c));
            lemma_chain_parent(s, m, (fuel - 1) as nat);
            assert forall|k: int| 0 <= k < next_chain(s, c, fuel).len() implies parent_id(s, #[trigger] next_chain(s, c, fuel)[k])
                == parent_id(s, c) by {
                if k > 0 {
                    assert(next_chain(s, c, fuel)[k] == next_chain(s, m, (fuel - 1) as nat)[k - 1]);
                }
            }
        }
    }
}

proof fn lemma_append_child_family<T>(s: Seq<NodeInner<T>>, x: usize, n: usize)
    requires
        x < s.len(),
        n < s.len(),
    ensures
        linked(s) && unchained(s, n) && children_end(s, x) ==> linked(appended_child(s, x, n)),
        consistent(s) && standalone(s, n) && children_end(s, x) && n != x ==> consistent(appended_child(s, x, n)),
{
    lemma_append_child_linked(s, x, n);
    if consistent(s) && standalone(s, n) && children_end(s, x) && n != x {
        let t = appended_child(s, x, n);
        let s1 = s.update(n as int, with_parent(s[n as int], Some(WeakNode { id: x })));
        assert forall|i: usize| i < s1.len() implies #[trigger] next_id(s1, i) == next_id(s, i) && prev_id(s1, i) == prev_id(s, i) && child_id(s1, i) == child_id(s, i) by {}
        lemma_same_links_same_chain(s, s1, child_id(s, x), s.len() as nat);
        assert(last_child_of(s1, x) == last_child_of(s, x));
        assert(family_at(s, x));
        assert(family_at(s, n));
        if let Some(c) = child_id(s, x) {
            lemma_next_chain_in_range(s, c, s.len() as nat);
            lemma_chain_parent(s, c, s.len() as nat);
            let ch = next_chain(s, c, s.len() as nat);
            if ch.len() > 0 {
                assert(parent_id(s, ch[ch.len() - 1]) == parent_id(s, c));
            }
            let l = last_child_of(s, x)->Some_0;
            assert(parent_id(s, l) == Some(x));
            assert(family_at(s, l));
            assert(symmetric_at(s, l));
        }
        assert(t.len() == s.len());
        assert forall|i: usize| i < t.len() implies #[trigger] family_at(t, i) by {
            assert(symmetric_at(s, i));
            assert(family_at(s, i));
            if next_id(s, i) is Some {
                assert(family_at(s, next_id(s, i)->Some_0));
                assert(symmetric_at(s, next_id(s, i)->Some_0));
            }
            if prev_id(s, i) is Some {
                assert(symmetric_at(s, prev_id(s, i)->Some_0));
                assert(family_at(s, prev_id(s, i)->Some_0));
            }
            if child_id(s, i) is Some {
                assert(family_at(s, child_id(s, i)->Some_0));
            }
            if parent_id(s, i) is Some {
                assert(family_at(s, parent_id(s, i)->Some_0));
            }
        }
    }
}

proof fn lemma_adopt_family<T>(s: Seq<NodeInner<T>>, x: usize, n: usize)
    requires
        x < s.len(),
        n < s.len(),
        child_id(s, x) is None,
    ensures
        consistent(s) && standalone(s, n) ==> consistent(
            ({
                let s1 = s.update(n as int, with_parent(s[n as int], Some(WeakNode { id: x })));
                s1.update(x as int, with_child(s1[x as int], Some(Node { id: n })))
            }),
        ),
{
    if consistent(s) && standalone(s, n) {
        let s1 = s.update(n as int, with_parent(s[n as int], Some(WeakNode { id: x })));
        let t = s1.update(x as int, with_child(s1[x as int], Some(Node { id: n })));
        assert(family_at(s, x));
        assert(family_at(s, n));
        assert forall|i: usize| i < t.len() implies #[trigger] symmetric_at(t, i) by {
            assert(symmetric_at(s, i));
            if next_id(s, i) is Some {
                assert(symmetric_at(s, next_id(s, i)->Some_0));
            }
            if prev_id(s, i) is Some {
                assert(symmetric_at(s, prev_id(s, i)->Some_0));
            }
        }
        assert forall|i: usize| i < t.len() implies #[trigger] family_at(t, i) by {
            assert(symmetric_at(s, i));
            assert(family_at(s, i));
            if next_id(s, i) is Some {
                assert(family_at(s, next_id(s, i)->Some_0));
                assert(symmetric_at(s, next_id(s, i)->Some_0));
            }
            if prev_id(s, i) is Some {
                assert(symmetric_at(s, prev_id(s, i)->Some_0));
                assert(family_at(s, prev_id(s, i)->Some_0));
            }
            if child_id(s, i) is Some {
                assert(family_at(s, child_id(s, i)->Some_0));
            }
            if parent_id(s, i) is Some {
                assert(family_at(s, parent_id(s, i)->Some_0));
            }
        }
    }
}

proof fn lemma_append_next_linked<T>(s: Seq<NodeInner<T>>, x: usize, n: usize)
    requires
        x < s.len(),
        n < s.len(),
    ensures
        linked(s) && unchained(s, n) && n != x ==> linked(appended_next(s, x, n)),
{
    if linked(s) && unchained(s, n) && n != x {
        let t = appended_next(s, x, n);
        assert(symmetric_at(s, x));
        assert forall|i: usize| i < t.len() implies #[trigger] symmetric_at(t, i) by {
            assert(symmetric_at(s, i));
            if next_id(s, i) is Some {
                assert(symmetric_at(s, next_id(s, i)->Some_0));
            }
            if prev_id(s, i) is Some {
                assert(symmetric_at(s, prev_id(s, i)->Some_0));
            }
        }
    }
}

proof fn lemma_append_child_linked<T>(s: Seq<NodeInner<T>>, x: usize, n: usize)
    requires
        x < s.len(),
        n < s.len(),
    ensures
        linked(s) && unchained(s, n) && children_end(s, x) ==> linked(appended_child(s, x, n)),
{
    if linked(s) && unchained(s, n) && children_end(s, x) {
        let t = appended_child(s, x, n);
        let s1 = s.update(n as int, with_parent(s[n as int], Some(WeakNode { id: x })));
        assert forall|i: usize| i < s1.len() implies #[trigger] next_id(s1, i) == next_id(s, i) && prev_id(s1, i) == prev_id(s, i) by {}
        lemma_same_links_same_chain(s, s1, child_id(s, x), s.len() as nat);
        assert(last_child_of(s1, x) == last_child_of(s, x));
        if let Some(c) = child_id(s, x) {
            lemma_next_chain_in_range(s, c, s.len() as nat);
        }
        assert(t.len() == s.len());
        assert forall|i: usize| i < t.len() implies #[trigger] symmetric_at(t, i) by {
            assert(symmetric_at(s, i));
            if next_id(s, i) is Some {
                assert(symmetric_at(s, next_id(s, i)->Some_0));
            }
            if prev_id(s, i) is Some {
                assert(symmetric_at(s, prev_id(s, i)->Some_0));
            }
        }
    }
}

proof fn lemma_same_links_same_chain<T>(s: Seq<NodeInner<T>>, s1: Seq<NodeInner<T>>, c: Option<usize>, fuel: nat)
    requires
        s1.len() == s.len(),
        forall|i: usize| i < s1.len() ==> #[trigger] next_id(s1, i) == next_id(s, i),
        c is Some ==> c->Some_0 < s.len(),
    ensures
        c is Some ==> next_chain(s1, c->Some_0, fuel) == next_chain(s, c->Some_0, fuel),
    decreases fuel,
{
    if c is Some && fuel > 0 {
        lemma_same_links_same_chain(s, s1, next_id(s, c->Some_0), (fuel - 1) as nat);
    }
}

proof fn lemma_append_prev_linked<T>(s: Seq<NodeInner<T>>, heads: Seq<Option<Node>>, x: usize, n: usize)
    requires
        x < s.len(),
        n < s.len(),
    ensures
        linked(s) && unchained(s, n) && n != x ==> linked(appended_prev(s, heads, x, n).0),
{
    if linked(s) && unchained(s, n) && n != x {
        let t = appended_prev(s, heads, x, n).0;
        assert(symmetric_at(s, x));
        assert forall|i: usize| i < t.len() implies #[trigger] symmetric_at(t, i) by {
            assert(symmetric_at(s, i));
            if next_id(s, i) is Some {
                assert(symmetric_at(s, next_id(s, i)->Some_0));
            }
            if prev_id(s, i) is Some {
                assert(symmetric_at(s, prev_id(s, i)->Some_0));
            }
        }
    }
}

/// The node `pos` steps along `next` links from `i`, or the last node of
/// the chain when it ends sooner, with the number of steps taken.
pub open spec fn walk_next<T>(s: Seq<NodeInner<T>>, i: usize, pos: nat) -> (usize, nat)
    decreases pos,
{
    if pos == 0 {
        (i, 0)
    } else {
        match next_id(s, i) {
            None => (i, 0),
            Some(m) => {
                let (e, c) = walk_next(s, m, (pos - 1) as nat);
                (e, c + 1)
            },
        }
    }
}

/// The records and list heads after node `n` is put at `pos` places after
/// node `x` on its chain: right before the node found there, or after the
/// last node when the chain is shorter.
pub open spec fn inserted_sibling<T>(
    s: Seq<NodeInner<T>>,
    heads: Seq<Option<Node>>,
    x: usize,
    pos: nat,
    n: usize,
) -> (Seq<NodeInner<T>>, Seq<Option<Node>>) {
    let (e, c) = walk_next(s, x, pos);
    if c == pos {
        appended_prev(s, heads, e, n)
    } else {
        (appended_next(s, e, n), heads)
    }
}

/// The records and list heads after node `n` is put at place `pos` among
/// node `x`'s children (the last place when there are fewer), or becomes
/// its only child.
pub open spec fn inserted_child<T>(
    s: Seq<NodeInner<T>>,
    heads: Seq<Option<Node>>,
    x: usize,
    pos: nat,
    n: usize,
) -> (Seq<NodeInner<T>>, Seq<Option<Node>>) {
    match child_id(s, x) {
        Some(c) => inserted_sibling(s, heads, c, pos, n),
        None => {
            let s1 = s.update(n as int, with_parent(s[n as int], Some(WeakNode { id: x })));
            (s1.update(x as int, with_child(s1[x as int], Some(Node { id: n }))), heads)
        },
    }
}

/// Puts a node at a given place in a chain.
pub trait InsertNode<T>: Handle {
    /// Puts `node` at `position` places after this node on its chain, so
    /// that it ends up `position` places after this node's place; a position
    /// past the end puts it after the last node.
    fn insert_sibling(&self, arena: &mut Arena<T>, position: usize, node: Node)
        requires
            old(arena).wf(),
            old(arena).has(self.handle()),
            old(arena).has(node),
        ensures
            final(arena).wf(),
            (final(arena)@, final(arena).heads()) == inserted_sibling(
                old(arena)@,
                old(arena).heads(),
                self.handle().id,
                position as nat,
                node.id,
            ),
            linked(old(arena)@) && unchained(old(arena)@, node.id) && node != self.handle() ==> linked(
                final(arena)@,
            ),
            consistent(old(arena)@) && standalone(old(arena)@, node.id) && node != self.handle()
                ==> consistent(final(arena)@),
            consistent(old(arena)@) && standalone(old(arena)@, node.id) ==> parent_id(final(arena)@, node.id)
                == parent_id(old(arena)@, self.handle().id),
    ;

    /// Puts `node` at place `position` among this node's children, counting
    /// from zero; a position past the end makes it the last child.
    fn insert_child(&self, arena: &mut Arena<T>, position: usize, node: Node)
        requires
            old(arena).wf(),
            old(arena).has(self.handle()),
            old(arena).has(node),
        ensures
            final(arena).wf(),
            (final(arena)@, final(arena).heads()) == inserted_child(
                old(arena)@,
                old(arena).heads(),
                self.handle().id,
                position as nat,
                node.id,
            ),
            linked(old(arena)@) && unchained(old(arena)@, node.id) && child_id(old(arena)@, self.handle().id)
                != Some(node.id) ==> linked(final(arena)@),
            consistent(old(arena)@) && standalone(old(arena)@, node.id) ==> consistent(final(arena)@),
            consistent(old(arena)@) && standalone(old(arena)@, node.id) ==> parent_id(final(arena)@, node.id)
                == Some(self.handle().id),
    ;
}

impl<T> InsertNode<T> for Node {
    fn insert_sibling(&self, arena: &mut Arena<T>, position: usize, node: Node) {
        let ghost s = arena@;
        let mut sibling = *self;
        let mut c: usize = 0;
        while c < position
            invariant
                arena.wf(),
                arena@ == s,
                arena.has(sibling),
                c <= position,
                walk_next(s, self.id, position as nat).0 == walk_next(s, sibling.id, (position - c) as nat).0,
                walk_next(s, self.id, position as nat).1 == c + walk_next(s, sibling.id, (position - c) as nat).1,
                linked(s) ==> sibling == *self || prev_id(s, sibling.id) is Some,
                consistent(s) ==> parent_id(s, sibling.id) == parent_id(s, self.id),
            ensures
                consistent(s) ==> parent_id(s, sibling.id) == parent_id(s, self.id),
                walk_next(s, self.id, position as nat) == (sibling.id, c as nat),
                arena.has(sibling),
                linked(s) ==> sibling == *self || prev_id(s, sibling.id) is Some,
            decreases position - c,
        {
            match sibling.next(arena) {
                Some(m) => {
                    proof {
                        if linked(s) {
                            assert(symmetric_at(s, sibling.id));
                        }
                        if consistent(s) {
                            assert(family_at(s, sibling.id));
                        }
                    }
                    sibling = m;
                    c += 1;
                },
                None => {
                    break;
                },
            }
        }
        if c != position {
            sibling.append_next(arena, node);
        } else {
            sibling.append_prev(arena, node);
        }
    }

    fn insert_child(&self, arena: &mut Arena<T>, position: usize, node: Node) {
        if let Some(first) = self.child(arena) {
            proof {
                if consistent(arena@) {
                    assert(family_at(arena@, self.id));
                }
            }
            first.insert_sibling(arena, position, node);
        } else {
            let ghost s = arena@;
            proof {
                lemma_adopt_family(s, self.id, node.id);
            }
            arena.set_parent(node.id, Some(self.downgrade()));
            arena.set_child(self.id, Some(node));
            proof {
                let t = arena@;
                assert forall|i: usize| i < t.len() implies #[trigger] next_id(t, i) == next_id(s, i) && prev_id(t, i)
                    == prev_id(s, i) by {}
                if linked(s) {
                    assert forall|i: usize| i < t.len() implies #[trigger] symmetric_at(t, i) by {
                        assert(symmetric_at(s, i));
                        assert(next_id(t, i) == next_id(s, i) && prev_id(t, i) == prev_id(s, i));
                        if next_id(s, i) is Some {
                            let m = next_id(s, i)->Some_0;
                            assert(prev_id(t, m) == prev_id(s, m));
                        }
                        if prev_id(s, i) is Some {
                            let p = prev_id(s, i)->Some_0;
                            assert(next_id(t, p) == next_id(s, p));
                        }
                    }
                }
            }
        }
    }
}

/// Detaching a node whose previous sibling is `a` and next sibling is `b`
/// joins the two: `a`'s next sibling becomes `b` and `b`'s previous sibling
/// becomes `a`, while the node loses its parent and both siblings and keeps
/// its first child.
pub proof fn lemma_detach_joins_neighbours<T>(s: Seq<NodeInner<T>>, x: usize, a: usize, b: usize)
    requires
        x < s.len(),
        prev_id(s, x) == Some(a),
        next_id(s, x) == Some(b),
        a != x,
        b != x,
    ensures
        next_id(detached(s, x), a) == Some(b),
        prev_id(detached(s, x), b) == Some(a),
        parent_id(detached(s, x), x) is None,
        prev_id(detached(s, x), x) is None,
        next_id(detached(s, x), x) is None,
        detached(s, x)[x as int].child == s[x as int].child,
{
}

/// Detaching a node in two steps—joining its neighbours while it keeps its
/// links, then clearing the links of the batch it was put in—leaves the
/// records exactly as detaching it at once does.
pub proof fn lemma_preserve_then_free<T>(s: Seq<NodeInner<T>>, x: usize)
    requires
        x < s.len(),
    ensures
        freed_all(unlinked(s, x), seq![Node { id: x }]) == detached(s, x),
{
    let t = unlinked(s, x);
    let v = seq![Node { id: x }];
    assert(v[0].id == x);
    assert(in_batch(v, x as int));
    assert forall|i: int| 0 <= i < t.len() && i != x implies !in_batch(v, i) by {
        if in_batch(v, i) {
            let j = choose|j: int| 0 <= j < v.len() && v[j].id == i;
            assert(j == 0);
        }
    }
    assert(freed_all(t, v) =~= detached(s, x));
}

} // verus!
