//! Finding and collecting nodes at the scopes of a chain, a subtree and a
//! whole structure, and reaching the ends of a chain.

use vstd::prelude::*;

use crate::node::{child_id, next_id, opt_id, parent_id, prev_id, Arena, Node, NodeCollection, NodeInner};
use crate::search::{hit, ids, in_forest, lemma_push_contains, scan, CompareNode};

verus! {

/// Gives the node a handle designates, so that the traits below can state
/// their contracts over it.
pub trait Handle {
    spec fn handle(&self) -> Node;
}

impl Handle for Node {
    open spec fn handle(&self) -> Node {
        *self
    }
}

/// The first node identified by `ident` walking `next` links from `i`
/// (exclusive), within `fuel` steps.
pub open spec fn first_next<T, I: CompareNode<T>>(s: Seq<NodeInner<T>>, ident: I, i: usize, fuel: nat) -> Option<usize>
    decreases fuel,
{
    if fuel == 0 {
        None
    } else {
        match next_id(s, i) {
            None => None,
            Some(m) => if hit(s, ident, m) {
                Some(m)
            } else {
                first_next(s, ident, m, (fuel - 1) as nat)
            },
        }
    }
}

/// The first node identified by `ident` walking `prev` links from `i`
/// (exclusive), within `fuel` steps.
pub open spec fn first_prev<T, I: CompareNode<T>>(s: Seq<NodeInner<T>>, ident: I, i: usize, fuel: nat) -> Option<usize>
    decreases fuel,
{
    if fuel == 0 {
        None
    } else {
        match prev_id(s, i) {
            None => None,
            Some(m) => if hit(s, ident, m) {
                Some(m)
            } else {
                first_prev(s, ident, m, (fuel - 1) as nat)
            },
        }
    }
}

/// The nodes met walking `next` links from `i` (exclusive), nearest first,
/// within `fuel` steps.
pub open spec fn next_chain<T>(s: Seq<NodeInner<T>>, i: usize, fuel: nat) -> Seq<usize>
    decreases fuel,
{
    if fuel == 0 {
        Seq::empty()
    } else {
        match next_id(s, i) {
            None => Seq::empty(),
            Some(m) => seq![m] + next_chain(s, m, (fuel - 1) as nat),
        }
    }
}

/// The nodes met walking `prev` links from `i` (exclusive), nearest first,
/// within `fuel` steps.
pub open spec fn prev_chain<T>(s: Seq<NodeInner<T>>, i: usize, fuel: nat) -> Seq<usize>
    decreases fuel,
{
    if fuel == 0 {
        Seq::empty()
    } else {
        match prev_id(s, i) {
            None => Seq::empty(),
            Some(m) => seq![m] + prev_chain(s, m, (fuel - 1) as nat),
        }
    }
}

/// The top-most ancestor of `i`, following `parent` links within `fuel`
/// steps; `i` itself when it has no parent.
pub open spec fn top_of<T>(s: Seq<NodeInner<T>>, i: usize, fuel: nat) -> usize
    decreases fuel,
{
    if fuel == 0 {
        i
    } else {
        match parent_id(s, i) {
            None => i,
            Some(p) => top_of(s, p, (fuel - 1) as nat),
        }
    }
}

/// The entries of `xs` that `ident` identifies, in order.
pub open spec fn hits<T, I: CompareNode<T>>(s: Seq<NodeInner<T>>, ident: I, xs: Seq<usize>) -> Seq<usize>
    decreases xs.len(),
{
    if xs.len() == 0 {
        Seq::empty()
    } else {
        let h = hits(s, ident, xs.drop_last());
        if hit(s, ident, xs.last()) {
            h.push(xs.last())
        } else {
            h
        }
    }
}

/// The first children of the nodes of `heads` that have one, in order.
pub open spec fn child_roots<T>(s: Seq<NodeInner<T>>, heads: Seq<usize>) -> Seq<Node>
    decreases heads.len(),
{
    if heads.len() == 0 {
        Seq::empty()
    } else {
        let r = child_roots(s, heads.drop_last());
        match child_id(s, heads.last()) {
            Some(c) => r.push(Node { id: c }),
            None => r,
        }
    }
}

/// The handle for an optional index, as a sequence of zero or one.
pub open spec fn opt_roots(o: Option<usize>) -> Seq<Node> {
    match o {
        Some(i) => seq![Node { id: i }],
        None => Seq::empty(),
    }
}

/// `y` is one of `heads`, lies in the subtree of one of them, or is reached
/// from `tail` (along `tail`'s chain and below it).
pub open spec fn spread<T>(s: Seq<NodeInner<T>>, heads: Seq<usize>, tail: Option<usize>, y: usize) -> bool {
    heads.contains(y) || in_forest(s, child_roots(s, heads) + opt_roots(tail), y)
}

/// `y` lies in the subtree of `i`: below its first child, or after that
/// child along the chain, or below one of those.
pub open spec fn in_subtree<T>(s: Seq<NodeInner<T>>, i: usize, y: usize) -> bool {
    in_forest(s, opt_roots(child_id(s, i)), y)
}

/// `y` is a sibling of `i` before or after it, or lies in such a sibling's
/// subtree.
pub open spec fn in_siblings<T>(s: Seq<NodeInner<T>>, i: usize, y: usize) -> bool {
    spread(s, prev_chain(s, i, s.len() as nat), next_id(s, i), y)
}

/// `y` belongs to the structure that `i` sits in: the top-most ancestor of
/// `i`, its siblings, and all their subtrees.
pub open spec fn in_linked_list<T>(s: Seq<NodeInner<T>>, i: usize, y: usize) -> bool {
    let t = top_of(s, i, s.len() as nat);
    spread(s, seq![t] + prev_chain(s, t, s.len() as nat), next_id(s, t), y)
}

/// Exactly the identified nodes of a scope, each once and each a node of `s`.
pub open spec fn collects<T, I: CompareNode<T>>(
    s: Seq<NodeInner<T>>,
    ident: I,
    r: Seq<Node>,
    scope: spec_fn(usize) -> bool,
) -> bool {
    &&& forall|j: int| 0 <= j < r.len() ==> #[trigger] r[j].id < s.len()
    &&& forall|y: usize| y < s.len() ==> (#[trigger] ids(r).contains(y) <==> scope(y) && hit(s, ident, y))
    &&& ids(r).no_duplicates()
}

/// An identified node of a scope if one exists, else none.
pub open spec fn finds<T, I: CompareNode<T>>(
    s: Seq<NodeInner<T>>,
    ident: I,
    r: Option<Node>,
    scope: spec_fn(usize) -> bool,
) -> bool {
    match r {
        Some(m) => m.id < s.len() && scope(m.id) && hit(s, ident, m.id),
        None => forall|y: usize| y < s.len() && #[trigger] scope(y) ==> !hit(s, ident, y),
    }
}

proof fn lemma_prev_chain_in_range<T>(s: Seq<NodeInner<T>>, i: usize, fuel: nat)
    ensures
        forall|k: int| 0 <= k < prev_chain(s, i, fuel).len() ==> #[trigger] prev_chain(s, i, fuel)[k] < s.len(),
    decreases fuel,
{
    if fuel > 0 {
        if let Some(m) = prev_id(s, i) {
            lemma_prev_chain_in_range(s, m, (fuel - 1) as nat);
            assert forall|k: int| 0 <= k < prev_chain(s, i, fuel).len() implies #[trigger] prev_chain(s, i, fuel)[k] < s.len() by {
                if k > 0 {
                    assert(prev_chain(s, i, fuel)[k] == prev_chain(s, m, (fuel - 1) as nat)[k - 1]);
                }
            }
        }
    }
}

pub(crate) proof fn lemma_next_chain_in_range<T>(s: Seq<NodeInner<T>>, i: usize, fuel: nat)
    ensures
        forall|k: int| 0 <= k < next_chain(s, i, fuel).len() ==> #[trigger] next_chain(s, i, fuel)[k] < s.len(),
    decreases fuel,
{
    if fuel > 0 {
        if let Some(m) = next_id(s, i) {
            lemma_next_chain_in_range(s, m, (fuel - 1) as nat);
            assert forall|k: int| 0 <= k < next_chain(s, i, fuel).len() implies #[trigger] next_chain(s, i, fuel)[k] < s.len() by {
                if k > 0 {
                    assert(next_chain(s, i, fuel)[k] == next_chain(s, m, (fuel - 1) as nat)[k - 1]);
                }
            }
        }
    }
}

proof fn lemma_hits_contains<T, I: CompareNode<T>>(s: Seq<NodeInner<T>>, ident: I, xs: Seq<usize>)
    ensures
        forall|y: usize| #[trigger] hits(s, ident, xs).contains(y) <==> xs.contains(y) && hit(s, ident, y),
    decreases xs.len(),
{
    if xs.len() > 0 {
        let d = xs.drop_last();
        lemma_hits_contains(s, ident, d);
        assert(xs =~= d.push(xs.last()));
        assert forall|y: usize| #[trigger] hits(s, ident, xs).contains(y) <==> xs.contains(y) && hit(s, ident, y) by {
            let h = hits(s, ident, d);
            if hit(s, ident, xs.last()) {
                assert(hits(s, ident, xs) == h.push(xs.last()));
                if h.push(xs.last()).contains(y) {
                    let k = choose|k: int| 0 <= k < h.len() + 1 && h.push(xs.last())[k] == y;
                    if k < h.len() {
                        assert(h[k] == y);
                    }
                }
                if h.contains(y) {
                    let k = choose|k: int| 0 <= k < h.len() && h[k] == y;
                    assert(h.push(xs.last())[k] == y);
                }
                if y == xs.last() {
                    assert(h.push(xs.last())[h.len() as int] == y);
                }
            }
            if xs.contains(y) {
                let k = choose|k: int| 0 <= k < xs.len() && xs[k] == y;
                if k < d.len() {
                    assert(d[k] == y);
                }
            }
            if d.contains(y) {
                let k = choose|k: int| 0 <= k < d.len() && d[k] == y;
                assert(xs[k] == y);
            }
        }
    }
}

/// The nodes before `n` on its chain, nearest first.
fn prev_nodes<T>(arena: &Arena<T>, n: Node) -> (r: Vec<usize>)
    requires
        arena.wf(),
        arena.has(n),
    ensures
        r@ == prev_chain(arena@, n.id, arena@.len() as nat),
        forall|k: int| 0 <= k < r@.len() ==> #[trigger] r@[k] < arena@.len(),
{
    let ghost s = arena@;
    let mut out: Vec<usize> = Vec::new();
    let mut cur = n;
    let mut fuel = arena.len();
    while fuel > 0
        invariant
            arena.wf(),
            s == arena@,
            arena.has(cur),
            out@ + prev_chain(s, cur.id, fuel as nat) == prev_chain(s, n.id, s.len() as nat),
        ensures
            out@ == prev_chain(s, n.id, s.len() as nat),
        decreases fuel,
    {
        match cur.prev(arena) {
            None => {
                assert(out@ + prev_chain(s, cur.id, fuel as nat) =~= out@);
                break;
            },
            Some(p) => {
                assert(out@.push(p.id) + prev_chain(s, p.id, (fuel - 1) as nat) =~= out@ + prev_chain(s, cur.id, fuel as nat));
                out.push(p.id);
                cur = p;
                fuel -= 1;
            },
        }
    }
    proof {
        lemma_prev_chain_in_range(s, n.id, s.len() as nat);
    }
    out
}

/// The nodes after `n` on its chain, nearest first.
fn next_nodes<T>(arena: &Arena<T>, n: Node) -> (r: Vec<usize>)
    requires
        arena.wf(),
        arena.has(n),
    ensures
        r@ == next_chain(arena@, n.id, arena@.len() as nat),
        forall|k: int| 0 <= k < r@.len() ==> #[trigger] r@[k] < arena@.len(),
{
    let ghost s = arena@;
    let mut out: Vec<usize> = Vec::new();
    let mut cur = n;
    let mut fuel = arena.len();
    while fuel > 0
        invariant
            arena.wf(),
            s == arena@,
            arena.has(cur),
            out@ + next_chain(s, cur.id, fuel as nat) == next_chain(s, n.id, s.len() as nat),
        ensures
            out@ == next_chain(s, n.id, s.len() as nat),
        decreases fuel,
    {
        match cur.next(arena) {
            None => {
                assert(out@ + next_chain(s, cur.id, fuel as nat) =~= out@);
                break;
            },
            Some(p) => {
                assert(out@.push(p.id) + next_chain(s, p.id, (fuel - 1) as nat) =~= out@ + next_chain(s, cur.id, fuel as nat));
                out.push(p.id);
                cur = p;
                fuel -= 1;
            },
        }
    }
    proof {
        lemma_next_chain_in_range(s, n.id, s.len() as nat);
    }
    out
}

/// The top-most ancestor of `n`.
fn top<T>(arena: &Arena<T>, n: Node) -> (r: Node)
    requires
        arena.wf(),
        arena.has(n),
    ensures
        r.id == top_of(arena@, n.id, arena@.len() as nat),
        arena.has(r),
{
    let mut cur = n;
    let mut fuel = arena.len();
    while fuel > 0
        invariant
            arena.wf(),
            arena.has(cur),
            top_of(arena@, cur.id, fuel as nat) == top_of(arena@, n.id, arena@.len() as nat),
        ensures
            cur.id == top_of(arena@, n.id, arena@.len() as nat),
            arena.has(cur),
        decreases fuel,
    {
        match cur.parent(arena) {
            None => {
                break;
            },
            Some(p) => {
                cur = p;
                fuel -= 1;
            },
        }
    }
    cur
}

/// Appends to `out` the nodes of `xs` that `ident` identifies, in order.
fn keep_hits<T, I: CompareNode<T>>(arena: &Arena<T>, xs: &Vec<usize>, ident: &I, out: &mut Vec<Node>)
    requires
        arena.wf(),
        forall|k: int| 0 <= k < xs@.len() ==> #[trigger] xs@[k] < arena@.len(),
    ensures
        ids(final(out)@) == ids(old(out)@) + hits(arena@, *ident, xs@),
        final(out)@.len() >= old(out)@.len(),
        forall|j: int| 0 <= j < old(out)@.len() ==> final(out)@[j] == old(out)@[j],
        forall|j: int| old(out)@.len() <= j < final(out)@.len() ==> #[trigger] final(out)@[j].id < arena@.len(),
{
    let ghost start = out@;
    let mut k: usize = 0;
    assert(xs@.subrange(0, 0) =~= Seq::<usize>::empty());
    assert(ids(out@) =~= ids(start) + hits(arena@, *ident, Seq::<usize>::empty()));
    while k < xs.len()
        invariant
            arena.wf(),
            k <= xs@.len(),
            forall|k: int| 0 <= k < xs@.len() ==> #[trigger] xs@[k] < arena@.len(),
            ids(out@) == ids(start) + hits(arena@, *ident, xs@.subrange(0, k as int)),
            out@.len() >= start.len(),
            forall|j: int| 0 <= j < start.len() ==> out@[j] == start[j],
            forall|j: int| start.len() <= j < out@.len() ==> #[trigger] out@[j].id < arena@.len(),
            start == old(out)@,
        decreases xs@.len() - k,
    {
        let x = xs[k];
        let ghost pre = xs@.subrange(0, k as int);
        let ghost post = xs@.subrange(0, k + 1);
        assert(post.drop_last() =~= pre);
        assert(post.last() == x);
        if ident.compare(&arena.record(x).content) {
            let ghost before = out@;
            out.push(Node { id: x });
            assert(ids(out@) =~= ids(before).push(x));
            assert(ids(out@) =~= ids(start) + hits(arena@, *ident, post));
        } else {
            assert(ids(out@) =~= ids(start) + hits(arena@, *ident, post));
        }
        k += 1;
    }
    assert(xs@.subrange(0, xs@.len() as int) =~= xs@);
}

/// The first children of the nodes of `heads`, in order.
fn child_roots_of<T>(arena: &Arena<T>, heads: &Vec<usize>) -> (r: Vec<Node>)
    requires
        arena.wf(),
        forall|k: int| 0 <= k < heads@.len() ==> #[trigger] heads@[k] < arena@.len(),
    ensures
        r@ == child_roots(arena@, heads@),
{
    let mut out: Vec<Node> = Vec::new();
    let mut k: usize = 0;
    assert(heads@.subrange(0, 0) =~= Seq::<usize>::empty());
    while k < heads.len()
        invariant
            arena.wf(),
            k <= heads@.len(),
            forall|k: int| 0 <= k < heads@.len() ==> #[trigger] heads@[k] < arena@.len(),
            out@ == child_roots(arena@, heads@.subrange(0, k as int)),
        decreases heads@.len() - k,
    {
        let h = Node { id: heads[k] };
        let ghost post = heads@.subrange(0, k + 1);
        assert(post.drop_last() =~= heads@.subrange(0, k as int));
        match h.child(arena) {
            Some(c) => {
                out.push(c);
            },
            None => {},
        }
        k += 1;
    }
    assert(heads@.subrange(0, heads@.len() as int) =~= heads@);
    out
}

proof fn lemma_child_roots_in_range<T>(s: Seq<NodeInner<T>>, heads: Seq<usize>)
    ensures
        forall|k: int| 0 <= k < child_roots(s, heads).len() ==> #[trigger] child_roots(s, heads)[k].id < s.len(),
    decreases heads.len(),
{
    if heads.len() > 0 {
        let r = child_roots(s, heads.drop_last());
        lemma_child_roots_in_range(s, heads.drop_last());
        assert forall|k: int| 0 <= k < child_roots(s, heads).len() implies #[trigger] child_roots(s, heads)[k].id < s.len() by {
            if k < r.len() {
                assert(child_roots(s, heads)[k] == r[k]);
            }
        }
    }
}

/// The handles of `v`, each kept once, in the order of first appearance.
fn dedup(v: &Vec<Node>, n: usize) -> (r: Vec<Node>)
    requires
        forall|j: int| 0 <= j < v@.len() ==> #[trigger] v@[j].id < n,
    ensures
        forall|y: usize| #[trigger] ids(r@).contains(y) <==> ids(v@).contains(y),
        ids(r@).no_duplicates(),
        forall|j: int| 0 <= j < r@.len() ==> #[trigger] r@[j].id < n,
{
    let mut seen: Vec<bool> = Vec::new();
    while seen.len() < n
        invariant
            seen.len() <= n,
            forall|x: int| 0 <= x < seen.len() ==> !seen@[x],
        decreases n - seen.len(),
    {
        seen.push(false);
    }
    let mut out: Vec<Node> = Vec::new();
    let mut k: usize = 0;
    while k < v.len()
        invariant
            seen.len() == n,
            k <= v@.len(),
            forall|j: int| 0 <= j < v@.len() ==> #[trigger] v@[j].id < n,
            forall|x: usize| x < n ==> (#[trigger] seen@[x as int] <==> ids(out@).contains(x)),
            forall|y: usize| #[trigger] ids(out@).contains(y) <==> ids(v@.subrange(0, k as int)).contains(y),
            ids(out@).no_duplicates(),
            forall|j: int| 0 <= j < out@.len() ==> #[trigger] out@[j].id < n,
        decreases v@.len() - k,
    {
        let node = v[k];
        let ghost before = out@;
        let ghost pre = v@.subrange(0, k as int);
        let ghost post = v@.subrange(0, k + 1);
        assert(ids(post) =~= ids(pre).push(node.id));
        proof {
            lemma_push_contains(ids(pre), node.id);
        }
        if !seen[node.id] {
            out.push(node);
            seen.set(node.id, true);
            proof {
                assert(ids(out@) =~= ids(before).push(node.id));
                lemma_push_contains(ids(before), node.id);
            }
        } else {
            assert(ids(before).contains(node.id));
        }
        k += 1;
    }
    assert(v@.subrange(0, v@.len() as int) =~= v@);
    out
}

/// Searches `heads`, their subtrees, and everything reached from `tail`:
/// every identified node, or with `first_only` the first one met.
fn spread_scan<T, I: CompareNode<T>>(
    arena: &Arena<T>,
    heads: &Vec<usize>,
    tail: Option<Node>,
    ident: &I,
    first_only: bool,
) -> (r: Vec<Node>)
    requires
        arena.wf(),
        forall|k: int| 0 <= k < heads@.len() ==> #[trigger] heads@[k] < arena@.len(),
        tail is Some ==> arena.has(tail->Some_0),
    ensures
        forall|j: int| 0 <= j < r@.len() ==> #[trigger] r@[j].id < arena@.len(),
        !first_only ==> collects(arena@, *ident, r@, |y: usize| spread(arena@, heads@, opt_id(tail), y)),
        first_only ==> r@.len() <= 1,
        first_only && r@.len() == 1 ==> spread(arena@, heads@, opt_id(tail), r@[0].id) && hit(arena@, *ident, r@[0].id),
        first_only && r@.len() == 0 ==> forall|y: usize|
            y < arena@.len() && spread(arena@, heads@, opt_id(tail), y) ==> !hit(arena@, *ident, y),
{
    let ghost s = arena@;
    let mut out: Vec<Node> = Vec::new();
    keep_hits(arena, heads, ident, &mut out);
    proof {
        lemma_hits_contains(s, *ident, heads@);
        assert(ids(out@) =~= hits(s, *ident, heads@));
    }
    if first_only && out.len() > 0 {
        let mut one: Vec<Node> = Vec::new();
        one.push(out[0]);
        proof {
            assert(ids(out@)[0] == out@[0].id);
            assert(hits(s, *ident, heads@).contains(out@[0].id));
        }
        return one;
    }
    let mut roots = child_roots_of(arena, heads);
    let ghost croots = roots@;
    match tail {
        Some(t) => {
            roots.push(t);
        },
        None => {},
    }
    proof {
        assert(roots@ =~= croots + opt_roots(opt_id(tail)));
        lemma_child_roots_in_range(s, heads@);
        assert forall|i: int| 0 <= i < roots@.len() implies arena.has(#[trigger] roots@[i]) by {
            if i < croots.len() {
                assert(roots@[i] == croots[i]);
            }
        }
    }
    let found = scan(arena, &roots, ident, first_only);
    if first_only {
        proof {
            assert forall|y: usize| y < s.len() && spread(s, heads@, opt_id(tail), y) && found@.len() == 0 implies !hit(s, *ident, y) by {
                if heads@.contains(y) && hit(s, *ident, y) {
                    assert(hits(s, *ident, heads@).contains(y));
                    assert(ids(out@).contains(y));
                }
            }
        }
        return found;
    }
    let ghost first = out@;
    let mut k: usize = 0;
    while k < found.len()
        invariant
            k <= found@.len(),
            out@ == first + found@.subrange(0, k as int),
            forall|j: int| 0 <= j < found@.len() ==> #[trigger] found@[j].id < s.len(),
            forall|j: int| 0 <= j < first.len() ==> #[trigger] first[j].id < s.len(),
        decreases found@.len() - k,
    {
        out.push(found[k]);
        assert(found@.subrange(0, k + 1) =~= found@.subrange(0, k as int).push(found@[k as int]));
        k += 1;
    }
    proof {
        assert(found@.subrange(0, found@.len() as int) =~= found@);
        assert(ids(out@) =~= ids(first) + ids(found@));
        assert forall|j: int| 0 <= j < out@.len() implies #[trigger] out@[j].id < s.len() by {
            if j < first.len() {
                assert(out@[j] == first[j]);
            } else {
                assert(out@[j] == found@[j - first.len()]);
            }
        }
        assert forall|y: usize| y < s.len() implies (#[trigger] ids(out@).contains(y) <==> spread(s, heads@, opt_id(tail), y) && hit(s, *ident, y)) by {
            if ids(out@).contains(y) {
                let w = choose|w: int| 0 <= w < ids(out@).len() && ids(out@)[w] == y;
                if w < first.len() {
                    assert(ids(first)[w] == y);
                    assert(ids(first).contains(y));
                } else {
                    assert(ids(found@)[w - first.len()] == y);
                    assert(found@[w - first.len()].id == y);
                }
            }
            if spread(s, heads@, opt_id(tail), y) && hit(s, *ident, y) {
                if heads@.contains(y) {
                    assert(ids(first).contains(y));
                    let w = choose|w: int| 0 <= w < ids(first).len() && ids(first)[w] == y;
                    assert(ids(out@)[w] == y);
                } else {
                    assert(ids(found@).contains(y));
                    let w = choose|w: int| 0 <= w < ids(found@).len() && ids(found@)[w] == y;
                    assert(ids(out@)[w + first.len()] == y);
                }
            }
        }
    }
    dedup(&out, arena.len())
}

/// The last entry of `xs`, if any.
pub open spec fn last_of(xs: Seq<usize>) -> Option<usize> {
    if xs.len() == 0 {
        None
    } else {
        Some(xs.last())
    }
}

/// Looks for a node that an identifier picks out.
///
/// A walk along `next`, `prev` or `parent` links takes at most as many
/// steps as the arena has nodes: that covers every chain, and stops on a
/// ring that links set by hand may form. Subtrees are searched with an
/// explicit stack, each node once.
pub trait FindNode<T, I: CompareNode<T>>: Handle {
    /// The nearest identified node after this one on its chain.
    fn find_next(&self, arena: &Arena<T>, ident: &I) -> (r: Option<Node>)
        requires
            arena.wf(),
            arena.has(self.handle()),
        ensures
            opt_id(r) == first_next(arena@, *ident, self.handle().id, arena@.len() as nat),
    ;

    /// The nearest identified node before this one on its chain.
    fn find_prev(&self, arena: &Arena<T>, ident: &I) -> (r: Option<Node>)
        requires
            arena.wf(),
            arena.has(self.handle()),
        ensures
            opt_id(r) == first_prev(arena@, *ident, self.handle().id, arena@.len() as nat),
    ;

    /// An identified node among the siblings before and after this one and
    /// their subtrees; which one, when several are, is left open.
    fn find_sibling(&self, arena: &Arena<T>, ident: &I) -> (r: Option<Node>)
        requires
            arena.wf(),
            arena.has(self.handle()),
        ensures
            finds(arena@, *ident, r, |y: usize| in_siblings(arena@, self.handle().id, y)),
    ;

    /// An identified node in this node's subtree; which one, when several
    /// are, is left open.
    fn find_child(&self, arena: &Arena<T>, ident: &I) -> (r: Option<Node>)
        requires
            arena.wf(),
            arena.has(self.handle()),
        ensures
            finds(arena@, *ident, r, |y: usize| in_subtree(arena@, self.handle().id, y)),
    ;

    /// An identified node anywhere in the structure this node sits in; which
    /// one, when several are, is left open.
    fn find_linked_list(&self, arena: &Arena<T>, ident: &I) -> (r: Option<Node>)
        requires
            arena.wf(),
            arena.has(self.handle()),
        ensures
            finds(arena@, *ident, r, |y: usize| in_linked_list(arena@, self.handle().id, y)),
    ;
}

/// Gathers every node that an identifier picks out.
pub trait CollectNode<T, I: CompareNode<T>>: Handle {
    /// This node if identified, then the identified siblings before it,
    /// nearest first, then those after it, nearest first.
    fn collect_siblings(&self, arena: &Arena<T>, ident: &I) -> (r: NodeCollection)
        requires
            arena.wf(),
            arena.has(self.handle()),
        ensures
            ids(r.nodes@) == hits(
                arena@,
                *ident,
                seq![self.handle().id] + prev_chain(arena@, self.handle().id, arena@.len() as nat)
                    + next_chain(arena@, self.handle().id, arena@.len() as nat),
            ),
    ;

    /// The identified nodes of this node's subtree.
    fn collect_children(&self, arena: &Arena<T>, ident: &I) -> (r: NodeCollection)
        requires
            arena.wf(),
            arena.has(self.handle()),
        ensures
            collects(arena@, *ident, r.nodes@, |y: usize| in_subtree(arena@, self.handle().id, y)),
    ;

    /// The identified nodes of the whole structure this node sits in.
    fn collect_linked_list(&self, arena: &Arena<T>, ident: &I) -> (r: NodeCollection)
        requires
            arena.wf(),
            arena.has(self.handle()),
        ensures
            collects(arena@, *ident, r.nodes@, |y: usize| in_linked_list(arena@, self.handle().id, y)),
    ;
}

/// Reaches the ends of a chain.
pub trait GetNode<T>: Handle {
    /// The first node of this node's chain: the far end of the `prev`
    /// links, or none when this node has no previous sibling.
    fn get_first_sibling(&self, arena: &Arena<T>) -> (r: Option<Node>)
        requires
            arena.wf(),
            arena.has(self.handle()),
        ensures
            r is Some ==> arena.has(r->Some_0),
            opt_id(r) == last_of(prev_chain(arena@, self.handle().id, arena@.len() as nat)),
    ;

    /// The last node of this node's chain, or none when this node is last.
    fn get_last_sibling(&self, arena: &Arena<T>) -> (r: Option<Node>)
        requires
            arena.wf(),
            arena.has(self.handle()),
        ensures
            r is Some ==> arena.has(r->Some_0),
            opt_id(r) == last_of(next_chain(arena@, self.handle().id, arena@.len() as nat)),
    ;

    /// The last child, or none when this node has no child.
    fn get_last_child(&self, arena: &Arena<T>) -> (r: Option<Node>)
        requires
            arena.wf(),
            arena.has(self.handle()),
        ensures
            r is Some ==> arena.has(r->Some_0),
            opt_id(r) == match child_id(arena@, self.handle().id) {
                Some(c) => match last_of(next_chain(arena@, c, arena@.len() as nat)) {
                    Some(l) => Some(l),
                    None => Some(c),
                },
                None => None,
            },
    ;
}

impl<T, I: CompareNode<T>> FindNode<T, I> for Node {
    fn find_next(&self, arena: &Arena<T>, ident: &I) -> (r: Option<Node>) {
        let mut cur = *self;
        let mut fuel = arena.len();
        while fuel > 0
            invariant
                arena.wf(),
                arena.has(cur),
                first_next(arena@, *ident, cur.id, fuel as nat) == first_next(
                    arena@,
                    *ident,
                    self.id,
                    arena@.len() as nat,
                ),
            decreases fuel,
        {
            match cur.next(arena) {
                None => {
                    return None;
                },
                Some(m) => {
                    if ident.compare(&arena.record(m.id).content) {
                        return Some(m);
                    }
                    cur = m;
                    fuel -= 1;
                },
            }
        }
        None
    }

    fn find_prev(&self, arena: &Arena<T>, ident: &I) -> (r: Option<Node>) {
        let mut cur = *self;
        let mut fuel = arena.len();
        while fuel > 0
            invariant
                arena.wf(),
                arena.has(cur),
                first_prev(arena@, *ident, cur.id, fuel as nat) == first_prev(
                    arena@,
                    *ident,
                    self.id,
                    arena@.len() as nat,
                ),
            decreases fuel,
        {
            match cur.prev(arena) {
                None => {
                    return None;
                },
                Some(m) => {
                    if ident.compare(&arena.record(m.id).content) {
                        return Some(m);
                    }
                    cur = m;
                    fuel -= 1;
                },
            }
        }
        None
    }

    fn find_sibling(&self, arena: &Arena<T>, ident: &I) -> (r: Option<Node>) {
        let heads = prev_nodes(arena, *self);
        let tail = self.next(arena);
        let found = spread_scan(arena, &heads, tail, ident, true);
        if found.len() == 0 {
            assert forall|y: usize| y < arena@.len() && in_siblings(arena@, self.id, y) implies !hit(arena@, *ident, y) by {
                assert(spread(arena@, heads@, opt_id(tail), y));
            }
            None
        } else {
            Some(found[0])
        }
    }

    fn find_child(&self, arena: &Arena<T>, ident: &I) -> (r: Option<Node>) {
        let heads: Vec<usize> = Vec::new();
        let tail = self.child(arena);
        let found = spread_scan(arena, &heads, tail, ident, true);
        proof {
            lemma_no_heads(arena@, child_id(arena@, self.id));
            assert(heads@ =~= Seq::<usize>::empty());
        }
        if found.len() == 0 {
            assert forall|y: usize| y < arena@.len() && in_subtree(arena@, self.id, y) implies !hit(arena@, *ident, y) by {
                assert(spread(arena@, heads@, opt_id(tail), y));
            }
            None
        } else {
            assert(spread(arena@, heads@, opt_id(tail), found@[0].id));
            Some(found[0])
        }
    }

    fn find_linked_list(&self, arena: &Arena<T>, ident: &I) -> (r: Option<Node>) {
        let t = top(arena, *self);
        let mut heads: Vec<usize> = Vec::new();
        heads.push(t.id);
        let mut before = prev_nodes(arena, t);
        heads.append(&mut before);
        assert(heads@ =~= seq![t.id] + prev_chain(arena@, t.id, arena@.len() as nat));
        let tail = t.next(arena);
        let found = spread_scan(arena, &heads, tail, ident, true);
        if found.len() == 0 {
            assert forall|y: usize| y < arena@.len() && in_linked_list(arena@, self.id, y) implies !hit(arena@, *ident, y) by {
                assert(spread(arena@, heads@, opt_id(tail), y));
            }
            None
        } else {
            Some(found[0])
        }
    }
}

proof fn lemma_no_heads<T>(s: Seq<NodeInner<T>>, tail: Option<usize>)
    ensures
        forall|y: usize| #[trigger] spread(s, Seq::<usize>::empty(), tail, y) == in_forest(s, opt_roots(tail), y),
{
    assert(child_roots(s, Seq::<usize>::empty()) + opt_roots(tail) =~= opt_roots(tail));
}

impl<T, I: CompareNode<T>> CollectNode<T, I> for Node {
    fn collect_siblings(&self, arena: &Arena<T>, ident: &I) -> (r: NodeCollection) {
        let mut all: Vec<usize> = Vec::new();
        all.push(self.id);
        let mut before = prev_nodes(arena, *self);
        all.append(&mut before);
        let mut after = next_nodes(arena, *self);
        all.append(&mut after);
        let mut out: Vec<Node> = Vec::new();
        keep_hits(arena, &all, ident, &mut out);
        assert(ids(out@) =~= hits(
            arena@,
            *ident,
            seq![self.id] + prev_chain(arena@, self.id, arena@.len() as nat) + next_chain(
                arena@,
                self.id,
                arena@.len() as nat,
            ),
        ));
        NodeCollection::from_vec(out)
    }

    fn collect_children(&self, arena: &Arena<T>, ident: &I) -> (r: NodeCollection) {
        let heads: Vec<usize> = Vec::new();
        let found = spread_scan(arena, &heads, self.child(arena), ident, false);
        proof {
            lemma_no_heads(arena@, child_id(arena@, self.id));
        }
        NodeCollection::from_vec(found)
    }

    fn collect_linked_list(&self, arena: &Arena<T>, ident: &I) -> (r: NodeCollection) {
        let t = top(arena, *self);
        let mut heads: Vec<usize> = Vec::new();
        heads.push(t.id);
        let mut before = prev_nodes(arena, t);
        heads.append(&mut before);
        assert(heads@ =~= seq![t.id] + prev_chain(arena@, t.id, arena@.len() as nat));
        let found = spread_scan(arena, &heads, t.next(arena), ident, false);
        NodeCollection::from_vec(found)
    }
}

impl<T> GetNode<T> for Node {
    fn get_first_sibling(&self, arena: &Arena<T>) -> (r: Option<Node>) {
        let before = prev_nodes(arena, *self);
        if before.len() == 0 {
            None
        } else {
            Some(Node { id: before[before.len() - 1] })
        }
    }

    fn get_last_sibling(&self, arena: &Arena<T>) -> (r: Option<Node>) {
        let after = next_nodes(arena, *self);
        if after.len() == 0 {
            None
        } else {
            Some(Node { id: after[after.len() - 1] })
        }
    }

    fn get_last_child(&self, arena: &Arena<T>) -> (r: Option<Node>) {
        match self.child(arena) {
            Some(c) => match c.get_last_sibling(arena) {
                Some(l) => Some(l),
                None => Some(c),
            },
            None => None,
        }
    }
}

} // verus!
