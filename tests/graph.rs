use hedel_rs::errors::HedelError;
use hedel_rs::{
    AppendNode, Arena, CollectNode, DetachNode, FindNode, GetNode, InsertNode, Node,
    NodeCollection, NodeList, NumIdent, WeakNode,
};

/// A node holding `content` with the given children, in order.
fn tree(arena: &mut Arena<i32>, content: i32, children: &[i32]) -> Node {
    let root = Node::new(arena, content);
    for c in children {
        let child = Node::new(arena, *c);
        root.append_child(arena, child);
    }
    root
}

/// Top-level siblings holding `contents`, in order; returns the first.
fn chain(arena: &mut Arena<i32>, contents: &[i32]) -> Vec<Node> {
    let mut nodes: Vec<Node> = Vec::new();
    for c in contents {
        let n = Node::new(arena, *c);
        if let Some(last) = nodes.last() {
            last.append_next(arena, n);
        }
        nodes.push(n);
    }
    nodes
}

fn contents(arena: &Arena<i32>, nodes: &[Node]) -> Vec<i32> {
    nodes.iter().map(|n| n.to_content(arena)).collect()
}

fn children(arena: &Arena<i32>, node: Node) -> Vec<i32> {
    let mut out = Vec::new();
    let mut cur = node.child(arena);
    while let Some(c) = cur {
        out.push(c.to_content(arena));
        cur = c.next(arena);
    }
    out
}

/// Every `next` link is answered by a `prev` link and the other way round.
fn symmetric(arena: &Arena<i32>) -> bool {
    for i in 0..arena.len() {
        let n = Node { id: i };
        if let Some(m) = n.next(arena) {
            if m.prev(arena) != Some(n) {
                return false;
            }
        }
        if let Some(p) = n.prev(arena) {
            if p.next(arena) != Some(n) {
                return false;
            }
        }
    }
    true
}

/// Every first child has no previous sibling and names its parent, next
/// siblings share a parent, and a parented node without a previous sibling
/// is its parent's first child.
fn families_agree(arena: &Arena<i32>) -> bool {
    for i in 0..arena.len() {
        let n = Node { id: i };
        if let Some(c) = n.child(arena) {
            if c.prev(arena).is_some() || c.parent(arena) != Some(n) {
                return false;
            }
        }
        if let Some(m) = n.next(arena) {
            if m.parent(arena) != n.parent(arena) {
                return false;
            }
        }
        if let Some(p) = n.parent(arena) {
            if n.prev(arena).is_none() && p.child(arena) != Some(n) {
                return false;
            }
        }
    }
    true
}

#[test]
fn new_node_stands_alone() {
    let mut arena = Arena::new();
    let n = Node::new(&mut arena, 45);
    assert_eq!(n.next(&arena), None);
    assert_eq!(n.prev(&arena), None);
    assert_eq!(n.parent(&arena), None);
    assert_eq!(n.child(&arena), None);
    assert!(n.list(&arena).is_none());
    assert_eq!(n.to_content(&arena), 45);
    assert_eq!(n.get(&arena).content, 45);
}

#[test]
fn weak_handle_upgrades_while_in_arena() {
    let mut arena = Arena::new();
    let n = Node::new(&mut arena, 1);
    assert_eq!(n.downgrade().upgrade(&arena), Some(n));
    assert_eq!(WeakNode { id: 7 }.upgrade(&arena), None);
}

#[test]
fn exclusive_borrow_of_a_record() {
    let mut arena = Arena::new();
    let a = Node::new(&mut arena, 1);
    let b = Node::new(&mut arena, 2);
    assert!(a.try_get(&arena).is_ok());
    let guard = a.try_get_mut(&mut arena).unwrap();
    assert!(matches!(a.try_get(&arena), Err(HedelError::ExclusiveActiveConflict)));
    let mut rec = *b.get(&arena);
    rec.content = 10;
    arena.store(a, &guard, rec);
    arena.release_mut(a, guard);
    assert_eq!(a.to_content(&arena), 10);
    assert!(a.try_get(&arena).is_ok());
}

#[test]
fn children_are_linked_both_ways() {
    let mut arena = Arena::new();
    let root = tree(&mut arena, 1, &[2, 3, 4]);
    assert_eq!(children(&arena, root), vec![2, 3, 4]);
    let two = root.child(&arena).unwrap();
    let three = two.next(&arena).unwrap();
    assert_eq!(three.prev(&arena), Some(two));
    assert_eq!(three.parent(&arena), Some(root));
    assert_eq!(root.get_last_child(&arena).unwrap().to_content(&arena), 4);
    assert!(symmetric(&arena));
    assert!(families_agree(&arena));
}

#[test]
fn ends_of_a_chain() {
    let mut arena = Arena::new();
    let nodes = chain(&mut arena, &[1, 2, 3]);
    assert_eq!(nodes[1].get_first_sibling(&arena), Some(nodes[0]));
    assert_eq!(nodes[0].get_first_sibling(&arena), None);
    assert_eq!(nodes[0].get_last_sibling(&arena), Some(nodes[2]));
    assert_eq!(nodes[2].get_last_sibling(&arena), None);
    let mut arena = Arena::new();
    let root = tree(&mut arena, 1, &[2, 3]);
    let three = root.get_last_child(&arena).unwrap();
    assert_eq!(three.get_first_sibling(&arena).unwrap().to_content(&arena), 2);
    let leaf = Node::new(&mut arena, 9);
    assert_eq!(leaf.get_last_child(&arena), None);
}

#[test]
fn find_next_is_the_nearest() {
    let mut arena = Arena::new();
    let root = tree(&mut arena, 33, &[1, 34, 66, 70]);
    let one = root.child(&arena).unwrap();
    let found = one.find_next(&arena, &NumIdent::BiggerThan(50)).unwrap();
    assert_eq!(found.to_content(&arena), 66);
    assert_eq!(one.find_next(&arena, &NumIdent::Equal(1)), None);
    assert_eq!(one.find_next(&arena, &NumIdent::BiggerThan(100)), None);
}

#[test]
fn find_prev_is_the_nearest() {
    let mut arena = Arena::new();
    let nodes = chain(&mut arena, &[5, 7, 1, 9]);
    let found = nodes[3].find_prev(&arena, &NumIdent::BiggerThan(4)).unwrap();
    assert_eq!(found, nodes[1]);
    assert_eq!(nodes[0].find_prev(&arena, &NumIdent::BiggerThan(0)), None);
}

#[test]
fn find_child_searches_the_subtree() {
    let mut arena = Arena::new();
    let root = tree(&mut arena, 1, &[2, 3]);
    let three = root.get_last_child(&arena).unwrap();
    let deep = Node::new(&mut arena, 8);
    three.append_child(&mut arena, deep);
    assert_eq!(root.find_child(&arena, &NumIdent::Equal(8)), Some(deep));
    assert_eq!(root.find_child(&arena, &NumIdent::Equal(1)), None);
    assert_eq!(three.find_child(&arena, &NumIdent::Equal(2)), None);
}

#[test]
fn find_sibling_skips_self() {
    let mut arena = Arena::new();
    let nodes = chain(&mut arena, &[4, 6, 8]);
    let below = Node::new(&mut arena, 10);
    nodes[0].append_child(&mut arena, below);
    assert_eq!(nodes[1].find_sibling(&arena, &NumIdent::Equal(6)), None);
    assert_eq!(nodes[1].find_sibling(&arena, &NumIdent::Equal(8)), Some(nodes[2]));
    assert_eq!(nodes[1].find_sibling(&arena, &NumIdent::Equal(10)), Some(below));
}

#[test]
fn find_linked_list_covers_the_whole_structure() {
    let mut arena = Arena::new();
    let root = tree(&mut arena, 16, &[56, 7, 4, 8]);
    let fifty_six = root.child(&arena).unwrap();
    let eleven = Node::new(&mut arena, 11);
    fifty_six.append_child(&mut arena, eleven);
    let found = eleven.find_linked_list(&arena, &NumIdent::SmallerThan(5)).unwrap();
    assert_eq!(found.to_content(&arena), 4);
    assert_eq!(eleven.find_linked_list(&arena, &NumIdent::Equal(16)), Some(root));
    assert_eq!(eleven.find_linked_list(&arena, &NumIdent::Equal(99)), None);
}

#[test]
fn collect_siblings_self_then_prev_then_next() {
    let mut arena = Arena::new();
    let nodes = chain(&mut arena, &[1, 2, 3, 4, 5]);
    let got = nodes[2].collect_siblings(&arena, &NumIdent::Odd);
    assert_eq!(contents(&arena, got.as_nodes()), vec![3, 1, 5]);
}

#[test]
fn collect_children_gathers_every_match() {
    let mut arena = Arena::new();
    let root = tree(&mut arena, 1, &[2, 3, 4, 5]);
    let five = root.get_last_child(&arena).unwrap();
    let six = Node::new(&mut arena, 6);
    five.append_child(&mut arena, six);
    let got = root.collect_children(&arena, &NumIdent::BiggerThan(3));
    let mut values = contents(&arena, &got.into_nodes());
    values.sort();
    assert_eq!(values, vec![4, 5, 6]);
    let none = root.collect_children(&arena, &NumIdent::BiggerThan(10));
    assert!(none.as_nodes().is_empty());
}

#[test]
fn collect_linked_list_from_a_leaf() {
    let mut arena = Arena::new();
    let root = tree(&mut arena, 1, &[8, 3, 7, 6]);
    let six = root.get_last_child(&arena).unwrap();
    let three = Node::new(&mut arena, 3);
    six.append_child(&mut arena, three);
    let got = three.collect_linked_list(&arena, &NumIdent::SmallerThan(5));
    let mut values = contents(&arena, got.as_nodes());
    values.sort();
    assert_eq!(values, vec![1, 3, 3]);
}

#[test]
fn detach_joins_the_neighbours() {
    let mut arena = Arena::new();
    let root = tree(&mut arena, 0, &[1, 2, 3]);
    let a = root.child(&arena).unwrap();
    let me = a.next(&arena).unwrap();
    let b = me.next(&arena).unwrap();
    let below = Node::new(&mut arena, 20);
    me.append_child(&mut arena, below);
    me.detach(&mut arena);
    assert_eq!(a.next(&arena), Some(b));
    assert_eq!(b.prev(&arena), Some(a));
    assert_eq!(me.parent(&arena), None);
    assert_eq!(me.prev(&arena), None);
    assert_eq!(me.next(&arena), None);
    assert_eq!(me.child(&arena), Some(below));
    assert_eq!(children(&arena, root), vec![1, 3]);
    assert!(symmetric(&arena));
    assert!(families_agree(&arena));
}

#[test]
fn detach_first_child_moves_the_parent_on() {
    let mut arena = Arena::new();
    let root = tree(&mut arena, 1, &[2, 3]);
    let two = root.child(&arena).unwrap();
    two.detach(&mut arena);
    assert_eq!(children(&arena, root), vec![3]);
    let three = root.child(&arena).unwrap();
    assert_eq!(three.prev(&arena), None);
    three.detach(&mut arena);
    assert_eq!(root.child(&arena), None);
    assert!(symmetric(&arena));
    assert!(families_agree(&arena));
}

#[test]
fn detach_preserve_then_free() {
    let mut arena = Arena::new();
    let root = tree(&mut arena, 1, &[2, 3]);
    let two = root.child(&arena).unwrap();
    let three = two.next(&arena).unwrap();
    let mut batch = NodeCollection::new();
    let mut seen = Vec::new();
    let mut cur = two;
    loop {
        seen.push(cur.to_content(&arena));
        if cur == three {
            cur.detach_preserve(&mut arena, &mut batch);
        }
        match cur.next(&arena) {
            Some(n) => cur = n,
            None => break,
        }
    }
    assert_eq!(seen, vec![2, 3]);
    assert_eq!(three.prev(&arena), Some(two));
    assert_eq!(three.parent(&arena), Some(root));
    assert_eq!(two.next(&arena), None);
    batch.free(&mut arena);
    assert_eq!(three.prev(&arena), None);
    assert_eq!(three.parent(&arena), None);
    assert_eq!(children(&arena, root), vec![2]);
    assert!(symmetric(&arena));
    assert!(families_agree(&arena));
}

#[test]
fn detach_preserve_while_walking() {
    let mut arena = Arena::new();
    let nodes = chain(&mut arena, &[1, 2, 3, 4, 5, 6]);
    let list = NodeList::new(&mut arena, nodes[0]);
    let ident = NumIdent::SmallerThan(4);
    let mut batch = NodeCollection::new();
    let mut next = list.first(&arena).unwrap();
    if next.to_content(&arena) < 4 {
        next.detach_preserve(&mut arena, &mut batch);
    }
    while let Some(n) = next.next(&arena) {
        next = n;
        if next.to_content(&arena) < 4 {
            next.detach_preserve(&mut arena, &mut batch);
        }
    }
    batch.free(&mut arena);
    assert_eq!(batch.as_nodes().len(), 3);
    assert_eq!(nodes[3].prev(&arena), None);
    assert_eq!(nodes[3].find_next(&arena, &ident), None);
    let rest = nodes[3].collect_siblings(&arena, &NumIdent::BiggerThan(0));
    assert_eq!(contents(&arena, rest.as_nodes()), vec![4, 5, 6]);
    assert!(symmetric(&arena));
    assert!(families_agree(&arena));
}

#[test]
fn append_next_inherits_the_parent() {
    let mut arena = Arena::new();
    let root = tree(&mut arena, 1, &[2]);
    let two = root.child(&arena).unwrap();
    let three = Node::new(&mut arena, 3);
    two.append_next(&mut arena, three);
    assert_eq!(root.get_last_child(&arena), Some(three));
    assert_eq!(three.parent(&arena), Some(root));
    let between = Node::new(&mut arena, 25);
    two.append_next(&mut arena, between);
    assert_eq!(children(&arena, root), vec![2, 25, 3]);
    assert!(symmetric(&arena));
    assert!(families_agree(&arena));
}

#[test]
fn append_prev_on_first_child() {
    let mut arena = Arena::new();
    let root = tree(&mut arena, 1, &[2]);
    let two = root.child(&arena).unwrap();
    let three = Node::new(&mut arena, 3);
    two.append_prev(&mut arena, three);
    assert_eq!(root.child(&arena), Some(three));
    assert_eq!(children(&arena, root), vec![3, 2]);
    assert_eq!(three.parent(&arena), Some(root));
    let mid = Node::new(&mut arena, 9);
    two.append_prev(&mut arena, mid);
    assert_eq!(children(&arena, root), vec![3, 9, 2]);
    assert!(symmetric(&arena));
    assert!(families_agree(&arena));
}

#[test]
fn append_prev_moves_the_list_head() {
    let mut arena = Arena::new();
    let nodes = chain(&mut arena, &[2, 3]);
    let list = NodeList::new(&mut arena, nodes[0]);
    assert_eq!(nodes[0].list(&arena), Some(list));
    let one = Node::new(&mut arena, 1);
    nodes[0].append_prev(&mut arena, one);
    assert_eq!(list.first(&arena), Some(one));
    assert_eq!(one.list(&arena), Some(list));
    assert_eq!(nodes[0].list(&arena), None);
    assert_eq!(list.get_first_sibling(&arena), Some(one));
    assert_eq!(list.get_last_sibling(&arena), Some(nodes[1]));
    assert!(symmetric(&arena));
    assert!(families_agree(&arena));
}

#[test]
fn append_child_keeps_existing_children() {
    let mut arena = Arena::new();
    let root = tree(&mut arena, 1, &[3, 4, 5]);
    let two = Node::new(&mut arena, 2);
    root.insert_child(&mut arena, 0, two);
    assert_eq!(root.child(&arena).unwrap().to_content(&arena), 2);
    let six = Node::new(&mut arena, 6);
    root.append_child(&mut arena, six);
    assert_eq!(root.get_last_child(&arena).unwrap().to_content(&arena), 6);
    assert_eq!(children(&arena, root), vec![2, 3, 4, 5, 6]);
    assert!(symmetric(&arena));
    assert!(families_agree(&arena));
}

#[test]
fn insert_child_at_position_two() {
    let mut arena = Arena::new();
    let root = tree(&mut arena, 1, &[2, 3, 4]);
    let nine = Node::new(&mut arena, 9);
    root.insert_child(&mut arena, 2, nine);
    assert_eq!(children(&arena, root), vec![2, 3, 9, 4]);
    assert_eq!(nine.parent(&arena), Some(root));
    assert!(symmetric(&arena));
    assert!(families_agree(&arena));
}

#[test]
fn insert_child_at_position_zero() {
    let mut arena = Arena::new();
    let root = tree(&mut arena, 1, &[2, 3, 4]);
    let nine = Node::new(&mut arena, 9);
    root.insert_child(&mut arena, 0, nine);
    assert_eq!(children(&arena, root), vec![9, 2, 3, 4]);
    assert_eq!(root.child(&arena), Some(nine));
    assert!(symmetric(&arena));
    assert!(families_agree(&arena));
}

#[test]
fn insert_child_into_a_leaf() {
    let mut arena = Arena::new();
    let root = tree(&mut arena, 1, &[]);
    let nine = Node::new(&mut arena, 9);
    root.insert_child(&mut arena, 5, nine);
    assert_eq!(children(&arena, root), vec![9]);
    assert_eq!(nine.parent(&arena), Some(root));
}

#[test]
fn insert_sibling_past_the_end_appends() {
    let mut arena = Arena::new();
    let root = tree(&mut arena, 1, &[2, 4]);
    let two = root.child(&arena).unwrap();
    let three = Node::new(&mut arena, 3);
    two.insert_sibling(&mut arena, 23, three);
    assert_eq!(root.get_last_child(&arena).unwrap().to_content(&arena), 3);
    assert_eq!(children(&arena, root), vec![2, 4, 3]);
    assert!(symmetric(&arena));
    assert!(families_agree(&arena));
}

#[test]
fn insert_sibling_position_hundred_on_three() {
    let mut arena = Arena::new();
    let nodes = chain(&mut arena, &[1, 2, 3]);
    let x = Node::new(&mut arena, 10);
    nodes[0].insert_sibling(&mut arena, 100, x);
    assert_eq!(nodes[2].next(&arena), Some(x));
    assert_eq!(x.prev(&arena), Some(nodes[2]));
    assert_eq!(x.next(&arena), None);
    assert!(symmetric(&arena));
    assert!(families_agree(&arena));
}

#[test]
fn insert_sibling_at_the_chain_length() {
    let mut arena = Arena::new();
    let nodes = chain(&mut arena, &[1, 2, 3]);
    let x = Node::new(&mut arena, 10);
    nodes[0].insert_sibling(&mut arena, 3, x);
    assert_eq!(nodes[2].next(&arena), Some(x));
    let y = Node::new(&mut arena, 11);
    nodes[0].insert_sibling(&mut arena, 1, y);
    let all = nodes[0].collect_siblings(&arena, &NumIdent::BiggerThan(0));
    assert_eq!(contents(&arena, all.as_nodes()), vec![1, 11, 2, 3, 10]);
}

#[test]
fn node_list_lookups() {
    let mut arena = Arena::new();
    let nodes = chain(&mut arena, &[2, 45, 36]);
    let list = NodeList::new(&mut arena, nodes[0]);
    assert_eq!(list.find_sibling(&arena, &NumIdent::Equal(36)), Some(nodes[2]));
    assert_eq!(list.find_sibling(&arena, &NumIdent::Equal(2)), Some(nodes[0]));
    assert_eq!(list.find_sibling(&arena, &NumIdent::Equal(7)), None);
    assert_eq!(list.find_linked_list(&arena, &NumIdent::BiggerThan(40)), Some(nodes[1]));
    assert_eq!(list.downgrade().upgrade(&arena), Some(list));
}

#[test]
fn collection_accessors() {
    let mut arena = Arena::new();
    let a = Node::new(&mut arena, 1);
    let b = Node::new(&mut arena, 2);
    let mut batch = NodeCollection::from_vec(vec![a]);
    batch.push(b);
    batch.as_mut_nodes().push(a);
    assert_eq!(batch.as_nodes().len(), 3);
    assert_eq!(batch.into_nodes(), vec![a, b, a]);
}

#[test]
fn free_clears_sibling_links_only() {
    let mut arena = Arena::new();
    let root = tree(&mut arena, 1, &[2, 3]);
    let two = root.child(&arena).unwrap();
    let below = Node::new(&mut arena, 7);
    two.append_child(&mut arena, below);
    two.free(&mut arena);
    assert_eq!(two.next(&arena), None);
    assert_eq!(two.parent(&arena), None);
    assert_eq!(two.child(&arena), Some(below));
    assert_eq!(two.to_content(&arena), 2);
}

#[test]
fn walks_stop_on_a_ring() {
    let mut arena = Arena::new();
    let a = Node::new(&mut arena, 1);
    let b = Node::new(&mut arena, 2);
    a.append_next(&mut arena, b);
    let mut rec = *b.get(&arena);
    rec.next = Some(a);
    let guard = b.get_mut(&mut arena);
    arena.store(b, &guard, rec);
    arena.release_mut(b, guard);
    assert_eq!(a.find_next(&arena, &NumIdent::Equal(9)), None);
    assert_eq!(a.find_next(&arena, &NumIdent::Equal(2)), Some(b));
    assert_eq!(a.find_linked_list(&arena, &NumIdent::Equal(9)), None);
    let got = a.collect_linked_list(&arena, &NumIdent::BiggerThan(0));
    assert_eq!(got.as_nodes().len(), 2);
}

#[test]
fn append_prev_with_nowhere_to_go_changes_nothing() {
    let mut arena = Arena::new();
    let a = Node::new(&mut arena, 1);
    let b = Node::new(&mut arena, 2);
    a.append_prev(&mut arena, b);
    assert_eq!(a.prev(&arena), None);
    assert_eq!(b.next(&arena), None);
    assert_eq!(b.parent(&arena), None);
    assert_eq!(a.get_first_sibling(&arena), None);
}

#[test]
fn second_exclusive_borrow_is_refused() {
    let mut arena = Arena::new();
    let a = Node::new(&mut arena, 1);
    let guard = a.try_get_mut(&mut arena).unwrap();
    assert!(matches!(a.try_get_mut(&mut arena), Err(HedelError::BorrowActiveConflict)));
    assert!(matches!(a.try_get(&arena), Err(HedelError::ExclusiveActiveConflict)));
    arena.release_mut(a, guard);
    assert!(a.try_get_mut(&mut arena).is_ok());
}

#[test]
fn first_sibling_follows_prev_links() {
    let mut arena = Arena::new();
    let root = tree(&mut arena, 1, &[2, 3, 4]);
    let two = root.child(&arena).unwrap();
    let four = root.get_last_child(&arena).unwrap();
    assert_eq!(two.get_first_sibling(&arena), None);
    assert_eq!(four.get_first_sibling(&arena), Some(two));
}

#[test]
fn list_first_sibling_after_append_before_head() {
    let mut arena = Arena::new();
    let head = Node::new(&mut arena, 5);
    let list = NodeList::new(&mut arena, head);
    assert_eq!(list.get_first_sibling(&arena), Some(head));
    let before = Node::new(&mut arena, 4);
    before.append_next(&mut arena, head);
    assert_eq!(list.first(&arena), Some(head));
    assert_eq!(list.get_first_sibling(&arena), Some(before));
}
