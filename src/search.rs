//! Identifiers, reachability along `next` and `child` links, and the
//! explicit-stack walk that the find and collect operations share.

use vstd::prelude::*;

use crate::node::{child_id, next_id, Arena, Node, NodeInner};

verus! {

/// Decides whether a node's content is the one looked for.
///
/// Implement it for an identifier of your own; `identifies` states what
/// `compare` answers.
pub trait CompareNode<T> {
    spec fn identifies(&self, content: T) -> bool;

    fn compare(&self, content: &T) -> (r: bool)
        ensures
            r == self.identifies(*content),
    ;
}

/// An identifier for integer contents.
#[derive(Debug, Clone, Copy, PartialEq, Eq, Structural)]
pub enum NumIdent {
    /// Content equal to the value.
    Equal(i32),
    /// Content greater than the value.
    BiggerThan(i32),
    /// Content less than the value.
    SmallerThan(i32),
    /// Odd content.
    Odd,
    /// Even content.
    Even,
}

impl CompareNode<i32> for NumIdent {
    open spec fn identifies(&self, content: i32) -> bool {
        match *self {
            NumIdent::Equal(n) => content == n,
            NumIdent::BiggerThan(n) => content > n,
            NumIdent::SmallerThan(n) => content < n,
            NumIdent::Odd => content % 2 != 0,
            NumIdent::Even => content % 2 == 0,
        }
    }

    fn compare(&self, content: &i32) -> (r: bool) {
        match *self {
            NumIdent::Equal(n) => *content == n,
            NumIdent::BiggerThan(n) => *content > n,
            NumIdent::SmallerThan(n) => *content < n,
            NumIdent::Odd => *content % 2 != 0,
            NumIdent::Even => *content % 2 == 0,
        }
    }
}

/// Node `i` of `s` is identified by `ident`.
pub open spec fn hit<T, I: CompareNode<T>>(s: Seq<NodeInner<T>>, ident: I, i: usize) -> bool {
    ident.identifies(s[i as int].content)
}

/// `to` is reached from `from` in at most `k` steps along `next` and `child`
/// links.
pub open spec fn reach_within<T>(s: Seq<NodeInner<T>>, from: usize, to: usize, k: nat) -> bool
    decreases k,
{
    from == to || (k > 0 && ((next_id(s, from) is Some && reach_within(
        s,
        next_id(s, from)->Some_0,
        to,
        (k - 1) as nat,
    )) || (child_id(s, from) is Some && reach_within(
        s,
        child_id(s, from)->Some_0,
        to,
        (k - 1) as nat,
    ))))
}

/// `to` is `from` or lies after it or below it: on the chain that starts at
/// `from`, or in the subtree of a node of that chain.
pub open spec fn reaches<T>(s: Seq<NodeInner<T>>, from: usize, to: usize) -> bool {
    exists|k: nat| reach_within(s, from, to, k)
}

/// `y` is reached from one of `roots`.
pub open spec fn in_forest<T>(s: Seq<NodeInner<T>>, roots: Seq<Node>, y: usize) -> bool {
    exists|i: int| 0 <= i < roots.len() && reaches(s, #[trigger] roots[i].id, y)
}

/// The indices of a sequence of handles.
pub open spec fn ids(v: Seq<Node>) -> Seq<usize> {
    Seq::new(v.len(), |j: int| v[j].id)
}

/// How many entries are still `false`.
pub open spec fn unmarked(v: Seq<bool>) -> nat
    decreases v.len(),
{
    if v.len() == 0 {
        0
    } else {
        unmarked(v.drop_last()) + if v.last() {
            0nat
        } else {
            1nat
        }
    }
}

proof fn lemma_unmarked_mark(v: Seq<bool>, i: int)
    requires
        0 <= i < v.len(),
        !v[i],
    ensures
        unmarked(v.update(i, true)) + 1 == unmarked(v),
    decreases v.len(),
{
    if i == v.len() - 1 {
        assert(v.update(i, true).drop_last() =~= v.drop_last());
    } else {
        assert(v.update(i, true).drop_last() =~= v.drop_last().update(i, true));
        lemma_unmarked_mark(v.drop_last(), i);
    }
}

proof fn lemma_reach_extend<T>(s: Seq<NodeInner<T>>, a: usize, x: usize, y: usize, k: nat)
    requires
        reach_within(s, a, x, k),
        next_id(s, x) == Some(y) || child_id(s, x) == Some(y),
    ensures
        reach_within(s, a, y, k + 1),
    decreases k,
{
    reveal_with_fuel(reach_within, 2);
    if a == x {
        assert(reach_within(s, y, y, k));
    } else {
        if next_id(s, a) is Some && reach_within(s, next_id(s, a)->Some_0, x, (k - 1) as nat) {
            lemma_reach_extend(s, next_id(s, a)->Some_0, x, y, (k - 1) as nat);
        } else {
            lemma_reach_extend(s, child_id(s, a)->Some_0, x, y, (k - 1) as nat);
        }
    }
}

pub(crate) proof fn lemma_push_contains(v: Seq<usize>, a: usize)
    ensures
        forall|x: usize| #[trigger] v.push(a).contains(x) <==> (v.contains(x) || x == a),
{
    assert forall|x: usize| #[trigger] v.push(a).contains(x) <==> (v.contains(x) || x == a) by {
        if v.contains(x) {
            let k = choose|k: int| 0 <= k < v.len() && v[k] == x;
            assert(v.push(a)[k] == x);
        }
        if x == a {
            assert(v.push(a)[v.len() as int] == x);
        }
        if v.push(a).contains(x) {
            let k = choose|k: int| 0 <= k < v.len() + 1 && v.push(a)[k] == x;
            if k < v.len() {
                assert(v[k] == x);
            }
        }
    }
}

/// Every marked node whose successors are all marked: a closed set.
pub open spec fn closed_at<T>(s: Seq<NodeInner<T>>, vis: Seq<bool>, x: usize) -> bool {
    &&& (next_id(s, x) is Some ==> vis[next_id(s, x)->Some_0 as int])
    &&& (child_id(s, x) is Some ==> vis[child_id(s, x)->Some_0 as int])
}

proof fn lemma_closed_reach<T>(s: Seq<NodeInner<T>>, vis: Seq<bool>, from: usize, y: usize, k: nat)
    requires
        vis.len() == s.len(),
        from < s.len(),
        vis[from as int],
        forall|x: usize| x < s.len() && #[trigger] vis[x as int] ==> closed_at(s, vis, x),
        reach_within(s, from, y, k),
    ensures
        y < s.len(),
        vis[y as int],
    decreases k,
{
    if from != y {
        assert(closed_at(s, vis, from));
        if next_id(s, from) is Some && reach_within(s, next_id(s, from)->Some_0, y, (k - 1) as nat) {
            lemma_closed_reach(s, vis, next_id(s, from)->Some_0, y, (k - 1) as nat);
        } else {
            lemma_closed_reach(s, vis, child_id(s, from)->Some_0, y, (k - 1) as nat);
        }
    }
}

/// The state of a walk from `roots`: `vis` marks the nodes met, `stack`
/// holds those still to visit, and `out` the identified nodes visited.
pub open spec fn scan_inv<T, I: CompareNode<T>>(
    s: Seq<NodeInner<T>>,
    ident: I,
    roots: Seq<Node>,
    vis: Seq<bool>,
    stack: Seq<usize>,
    out: Seq<usize>,
) -> bool {
    &&& vis.len() == s.len()
    &&& forall|i: int| 0 <= i < roots.len() ==> vis[#[trigger] roots[i].id as int]
    &&& forall|k: int| 0 <= k < stack.len() ==> #[trigger] stack[k] < s.len()
    &&& forall|k: int| 0 <= k < stack.len() ==> vis[#[trigger] stack[k] as int]
    &&& stack.no_duplicates()
    &&& forall|x: usize| x < s.len() && #[trigger] vis[x as int] ==> in_forest(s, roots, x)
    &&& forall|x: usize| x < s.len() && #[trigger] vis[x as int] && !stack.contains(x) ==> closed_at(s, vis, x)
    &&& forall|x: usize| x < s.len() ==> (vis[x as int] && !stack.contains(x) && hit(s, ident, x)
        <==> #[trigger] out.contains(x))
    &&& forall|j: int| 0 <= j < out.len() ==> #[trigger] out[j] < s.len()
    &&& out.no_duplicates()
}

proof fn lemma_scan_inv_member<T, I: CompareNode<T>>(
    s: Seq<NodeInner<T>>,
    ident: I,
    roots: Seq<Node>,
    vis: Seq<bool>,
    stack: Seq<usize>,
    out: Seq<usize>,
    x: usize,
)
    requires
        scan_inv(s, ident, roots, vis, stack, out),
        stack.len() > 0,
        x == stack[stack.len() - 1],
    ensures
        x < s.len(),
        in_forest(s, roots, x),
{
    assert(vis[stack[stack.len() - 1] as int]);
}

proof fn lemma_scan_step<T, I: CompareNode<T>>(
    s: Seq<NodeInner<T>>,
    ident: I,
    roots: Seq<Node>,
    vis: Seq<bool>,
    stack: Seq<usize>,
    out: Seq<usize>,
    x: usize,
    vis2: Seq<bool>,
    stack2: Seq<usize>,
    out2: Seq<usize>,
)
    requires
        scan_inv(s, ident, roots, vis, stack, out),
        forall|j: int| 0 <= j < roots.len() ==> #[trigger] roots[j].id < s.len(),
        stack.len() > 0,
        x == stack[stack.len() - 1],
        out2 == (if hit(s, ident, x) { out.push(x) } else { out }),
        vis2 == ({
            let v1 = if next_id(s, x) is Some { vis.update(next_id(s, x)->Some_0 as int, true) } else { vis };
            if child_id(s, x) is Some { v1.update(child_id(s, x)->Some_0 as int, true) } else { v1 }
        }),
        forall|k: int| 0 <= k < stack2.len() ==> #[trigger] stack2[k] < s.len(),
        forall|k: int| 0 <= k < stack2.len() ==> vis2[#[trigger] stack2[k] as int],
        stack2.no_duplicates(),
        forall|z: usize| #[trigger] stack2.contains(z) <==> (stack.drop_last().contains(z) || (z < s.len() && vis2[z as int] && !vis[z as int])),
    ensures
        scan_inv(s, ident, roots, vis2, stack2, out2),
{
    let popped = stack.drop_last();
    assert(stack =~= popped.push(x));
    lemma_push_contains(popped, x);
    lemma_push_contains(out, x);
    assert(x < s.len() && vis[x as int]);
    assert(!popped.contains(x));
    assert(in_forest(s, roots, x));
    let i = choose|i: int| 0 <= i < roots.len() && reaches(s, #[trigger] roots[i].id, x);
    let k = choose|k: nat| reach_within(s, roots[i].id, x, k);
    if next_id(s, x) is Some {
        lemma_reach_extend(s, roots[i].id, x, next_id(s, x)->Some_0, k);
    }
    if child_id(s, x) is Some {
        lemma_reach_extend(s, roots[i].id, x, child_id(s, x)->Some_0, k);
    }
    assert forall|z: usize| z < s.len() && #[trigger] vis2[z as int] implies in_forest(s, roots, z) by {
        if !vis[z as int] {
            if next_id(s, x) == Some(z) {
                assert(reach_within(s, roots[i].id, z, k + 1));
            } else {
                assert(reach_within(s, roots[i].id, z, k + 1));
            }
        }
    }
    assert forall|z: usize| z < s.len() && #[trigger] vis2[z as int] && !stack2.contains(z) implies closed_at(s, vis2, z) by {
        if z != x {
            assert(vis[z as int]);
            assert(!stack.contains(z));
            assert(closed_at(s, vis, z));
        }
    }
    assert forall|z: usize| z < s.len() implies (vis2[z as int] && !stack2.contains(z) && hit(s, ident, z)
        <==> #[trigger] out2.contains(z)) by {
        if z != x {
            if vis2[z as int] && !stack2.contains(z) {
                assert(vis[z as int]);
                assert(!stack.contains(z));
            }
            if out2.contains(z) {
                assert(out.contains(z));
                assert(!stack.contains(z));
            }
        }
    }
    assert forall|z: int| 0 <= z < vis.len() && vis[z] implies #[trigger] vis2[z] by {}
    assert forall|j: int| 0 <= j < roots.len() implies vis2[#[trigger] roots[j].id as int] by {
        assert(vis[roots[j].id as int]);
    }
    assert(vis2.len() == s.len());
    assert forall|j: int| 0 <= j < out2.len() implies #[trigger] out2[j] < s.len() by {
        if j < out.len() {
            assert(out2[j] == out[j]);
        }
    }
    assert(out2.no_duplicates()) by {
        if hit(s, ident, x) {
            assert(!out.contains(x));
        }
    }
}

proof fn lemma_scan_done<T, I: CompareNode<T>>(
    s: Seq<NodeInner<T>>,
    ident: I,
    roots: Seq<Node>,
    vis: Seq<bool>,
    out: Seq<usize>,
)
    requires
        scan_inv(s, ident, roots, vis, Seq::<usize>::empty(), out),
        forall|j: int| 0 <= j < roots.len() ==> #[trigger] roots[j].id < s.len(),
    ensures
        forall|y: usize| y < s.len() && in_forest(s, roots, y) ==> (hit(s, ident, y) <==> out.contains(y)),
        forall|j: int| 0 <= j < out.len() ==> hit(s, ident, #[trigger] out[j]) && in_forest(s, roots, out[j]),
{
    assert forall|y: usize| y < s.len() && in_forest(s, roots, y) implies (hit(s, ident, y) <==> out.contains(y)) by {
        let i = choose|i: int| 0 <= i < roots.len() && reaches(s, #[trigger] roots[i].id, y);
        let k = choose|k: nat| reach_within(s, roots[i].id, y, k);
        assert(vis[roots[i].id as int]);
        lemma_closed_reach(s, vis, roots[i].id, y, k);
    }
    assert forall|j: int| 0 <= j < out.len() implies hit(s, ident, #[trigger] out[j]) && in_forest(s, roots, out[j]) by {
        assert(out.contains(out[j]));
    }
}

/// Marks `y` and puts it on the stack, unless it is marked already.
fn mark(visited: &mut Vec<bool>, stack: &mut Vec<usize>, y: usize)
    requires
        y < old(visited)@.len(),
        forall|k: int| 0 <= k < old(stack)@.len() ==> #[trigger] old(stack)@[k] < old(visited)@.len(),
        forall|k: int| 0 <= k < old(stack)@.len() ==> old(visited)@[#[trigger] old(stack)@[k] as int],
        old(stack)@.no_duplicates(),
    ensures
        final(visited)@ == old(visited)@.update(y as int, true),
        old(visited)@[y as int] ==> final(stack)@ == old(stack)@ && unmarked(final(visited)@) == unmarked(old(visited)@),
        !old(visited)@[y as int] ==> final(stack)@ == old(stack)@.push(y) && unmarked(final(visited)@) + 1
            == unmarked(old(visited)@),
        forall|k: int| 0 <= k < final(stack)@.len() ==> #[trigger] final(stack)@[k] < final(visited)@.len(),
        forall|k: int| 0 <= k < final(stack)@.len() ==> final(visited)@[#[trigger] final(stack)@[k] as int],
        final(stack)@.no_duplicates(),
        forall|z: usize| #[trigger] final(stack)@.contains(z) <==> (old(stack)@.contains(z) || (z == y
            && !old(visited)@[y as int])),
{
    if !visited[y] {
        proof {
            lemma_unmarked_mark(visited@, y as int);
            lemma_push_contains(stack@, y);
        }
        visited.set(y, true);
        stack.push(y);
    } else {
        assert(visited@.update(y as int, true) =~= visited@);
    }
}

/// Walks every node reached from `roots` once, with an explicit stack, and
/// returns the identified ones; with `first_only`, stops at the first.
#[verifier::rlimit(30)]
pub(crate) fn scan<T, I: CompareNode<T>>(
    arena: &Arena<T>,
    roots: &Vec<Node>,
    ident: &I,
    first_only: bool,
) -> (r: Vec<Node>)
    requires
        arena.wf(),
        forall|i: int| 0 <= i < roots@.len() ==> arena.has(#[trigger] roots@[i]),
    ensures
        forall|j: int|
            0 <= j < r@.len() ==> arena.has(#[trigger] r@[j]) && hit(arena@, *ident, r@[j].id)
                && in_forest(arena@, roots@, r@[j].id),
        ids(r@).no_duplicates(),
        first_only ==> r@.len() <= 1,
        forall|y: usize|
            y < arena@.len() && in_forest(arena@, roots@, y) && hit(arena@, *ident, y) ==> (
            first_only || ids(r@).contains(y)),
        first_only && r@.len() == 0 ==> forall|y: usize|
            y < arena@.len() && in_forest(arena@, roots@, y) ==> !hit(arena@, *ident, y),
{
    let ghost s = arena@;
    let n = arena.len();
    let mut visited: Vec<bool> = Vec::new();
    while visited.len() < n
        invariant
            visited.len() <= n,
            forall|x: int| 0 <= x < visited.len() ==> !visited@[x],
        decreases n - visited.len(),
    {
        visited.push(false);
    }
    let mut stack: Vec<usize> = Vec::new();
    let mut j: usize = 0;
    while j < roots.len()
        invariant
            arena.wf(),
            s == arena@,
            n == s.len(),
            visited.len() == n,
            j <= roots.len(),
            forall|i: int| 0 <= i < roots@.len() ==> arena.has(#[trigger] roots@[i]),
            forall|i: int| 0 <= i < j ==> visited@[#[trigger] roots@[i].id as int],
            forall|k: int| 0 <= k < stack@.len() ==> #[trigger] stack@[k] < n,
            stack@.no_duplicates(),
            forall|x: usize| x < n ==> (#[trigger] visited@[x as int] <==> stack@.contains(x)),
            forall|x: usize| x < n && #[trigger] visited@[x as int] ==> in_forest(s, roots@, x),
        decreases roots.len() - j,
    {
        let r = roots[j].id;
        if !visited[r] {
            proof {
                lemma_push_contains(stack@, r);
            }
            visited.set(r, true);
            stack.push(r);
            assert(reach_within(s, r, r, 0));
        }
        j += 1;
    }
    let mut out: Vec<Node> = Vec::new();
    assert(ids(out@) =~= Seq::<usize>::empty());
    while stack.len() > 0
        invariant
            arena.wf(),
            s == arena@,
            n == s.len(),
            forall|j: int| 0 <= j < roots@.len() ==> arena.has(#[trigger] roots@[j]),
            scan_inv(s, *ident, roots@, visited@, stack@, ids(out@)),
            first_only ==> out@.len() == 0,
        decreases 2 * unmarked(visited@) + stack@.len(),
    {
        let ghost old_stack = stack@;
        let ghost old_vis = visited@;
        let ghost old_out = ids(out@);
        let x = stack.pop().unwrap();
        let ghost popped = stack@;
        proof {
            assert(old_stack =~= popped.push(x));
            assert(old_stack[old_stack.len() - 1] == x);
        }
        let xn = Node { id: x };
        if ident.compare(&arena.record(x).content) {
            if first_only {
                proof {
                    lemma_scan_inv_member(s, *ident, roots@, old_vis, old_stack, old_out, x);
                }
                let mut one: Vec<Node> = Vec::new();
                one.push(xn);
                assert(ids(one@) =~= seq![x]);
                return one;
            }
            out.push(xn);
            assert(ids(out@) =~= old_out.push(x));
        } else {
            assert(ids(out@) =~= old_out);
        }
        match xn.next(arena) {
            Some(m) => {
                mark(&mut visited, &mut stack, m.id);
            },
            None => {},
        }
        match xn.child(arena) {
            Some(c) => {
                mark(&mut visited, &mut stack, c.id);
            },
            None => {},
        }
        proof {
            lemma_scan_step(s, *ident, roots@, old_vis, old_stack, old_out, x, visited@, stack@, ids(out@));
        }
    }
    proof {
        lemma_scan_done(s, *ident, roots@, visited@, ids(out@));
        if first_only {
            assert(ids(out@) =~= Seq::<usize>::empty());
            assert forall|y: usize| y < arena@.len() && in_forest(arena@, roots@, y) implies !hit(arena@, *ident, y) by {
                assert(!ids(out@).contains(y));
            }
        }
        assert forall|j: int| 0 <= j < out@.len() implies arena.has(#[trigger] out@[j]) && hit(arena@, *ident, out@[j].id)
            && in_forest(arena@, roots@, out@[j].id) by {
            assert(ids(out@)[j] == out@[j].id);
        }
    }
    out
}

} // verus!
