use cdlist::{Arena, LinkNode};

fn chain(arena: &mut Arena<i32>, values: &[i32]) -> Vec<LinkNode> {
    let mut nodes = Vec::new();
    for &v in values {
        nodes.push(LinkNode::new(arena, v));
    }
    for i in 0..nodes.len() - 1 {
        nodes[i].add(arena, nodes[i + 1]);
    }
    nodes
}

#[test]
fn singleton_on_construction() {
    let mut arena = Arena::new();
    let n = LinkNode::new(&mut arena, 41);
    assert_eq!(n.for_each(&arena), vec![41]);
    assert_eq!(n.for_each_rev(&arena), vec![41]);
}

#[test]
fn ring_closure_from_every_member() {
    let mut arena = Arena::new();
    let nodes = chain(&mut arena, &[0, 1, 2, 3, 4]);
    for start in 0..5 {
        let seen = nodes[start].for_each(&arena);
        assert_eq!(seen.len(), 5);
        assert_eq!(seen[0], start as i32);
        let mut sorted = seen.clone();
        sorted.sort();
        assert_eq!(sorted, vec![0, 1, 2, 3, 4]);
    }
}

#[test]
fn backward_is_reverse_of_forward() {
    let mut arena = Arena::new();
    let nodes = chain(&mut arena, &[10, 20, 30, 40]);
    for start in 0..4 {
        let forward = nodes[start].for_each(&arena);
        let backward = nodes[start].for_each_rev(&arena);
        let mut expected = vec![forward[0]];
        let mut rest: Vec<i32> = forward[1..].to_vec();
        rest.reverse();
        expected.extend(rest);
        assert_eq!(backward, expected);
    }
}

#[test]
fn detach_always_singleton() {
    let mut arena = Arena::new();
    let nodes = chain(&mut arena, &[0, 1, 2, 3]);
    nodes[2].take(&mut arena);
    assert_eq!(nodes[2].for_each(&arena), vec![2]);
    assert_eq!(nodes[0].for_each(&arena), vec![0, 1, 3]);
    nodes[2].take(&mut arena);
    assert_eq!(nodes[2].for_each(&arena), vec![2]);
    assert_eq!(nodes[0].for_each(&arena), vec![0, 1, 3]);
}

#[test]
fn detach_from_pair() {
    let mut arena = Arena::new();
    let nodes = chain(&mut arena, &[7, 8]);
    nodes[1].take(&mut arena);
    assert_eq!(nodes[0].for_each(&arena), vec![7]);
    assert_eq!(nodes[1].for_each(&arena), vec![8]);
}

#[test]
fn splice_moves_between_rings() {
    let mut arena = Arena::new();
    let left = chain(&mut arena, &[0, 1, 2]);
    let right = chain(&mut arena, &[5, 6, 7]);
    left[0].add(&mut arena, right[1]);
    assert_eq!(left[0].for_each(&arena), vec![0, 6, 1, 2]);
    assert_eq!(right[0].for_each(&arena), vec![5, 7]);
}

#[test]
fn splice_of_immediate_successor_is_noop() {
    let mut arena = Arena::new();
    let nodes = chain(&mut arena, &[0, 1, 2]);
    nodes[0].add(&mut arena, nodes[1]);
    assert_eq!(nodes[0].for_each(&arena), vec![0, 1, 2]);
    assert_eq!(nodes[0].for_each_rev(&arena), vec![0, 2, 1]);
}

#[test]
fn splice_before_mirrors_splice() {
    let mut arena_a = Arena::new();
    let a = chain(&mut arena_a, &[0, 1, 2, 3]);
    let mut arena_b = Arena::new();
    let b = chain(&mut arena_b, &[0, 1, 2, 3]);
    a[3].add_to(&mut arena_a, a[1]);
    b[1].add(&mut arena_b, b[3]);
    for i in 0..4 {
        assert_eq!(a[i].for_each(&arena_a), b[i].for_each(&arena_b));
        assert_eq!(a[i].for_each_rev(&arena_a), b[i].for_each_rev(&arena_b));
    }
}

#[test]
fn value_writes_leave_rings_alone() {
    let mut arena = Arena::new();
    let nodes = chain(&mut arena, &[0, 1, 2]);
    nodes[1].set_value(&mut arena, 99);
    assert_eq!(nodes[0].for_each(&arena), vec![0, 99, 2]);
    assert_eq!(nodes[2].for_each_rev(&arena), vec![2, 99, 0]);
    assert_eq!(*nodes[1].value_ref(&arena), 99);
}

#[test]
fn reading_traversals_leave_values_alone() {
    let mut arena = Arena::new();
    let nodes = chain(&mut arena, &[4, 5, 6]);
    let first = nodes[0].for_each(&arena);
    let second = nodes[0].for_each(&arena);
    assert_eq!(first, second);
    let back = nodes[2].for_each_rev(&arena);
    assert_eq!(back, vec![6, 5, 4]);
    assert_eq!(nodes[0].for_each(&arena), vec![4, 5, 6]);
}

#[test]
fn mutable_traversal_leaves_other_rings_alone() {
    let mut arena = Arena::new();
    let left = chain(&mut arena, &[1, 2, 3]);
    let right = chain(&mut arena, &[10, 20]);
    left[0].for_each_mut(&mut arena, vec![100, 200, 300]);
    assert_eq!(left[0].for_each(&arena), vec![100, 200, 300]);
    assert_eq!(right[0].for_each(&arena), vec![10, 20]);
}

#[test]
fn mutable_traversal_observed_in_order() {
    let mut arena = Arena::new();
    let nodes = chain(&mut arena, &[0, 0, 0, 0, 0, 0, 0, 0, 0, 0]);
    let seen = nodes[0].for_each(&arena);
    let mut updated = Vec::new();
    let mut offset: i32 = 0;
    for v in seen {
        updated.push(v + offset);
        offset += 1;
    }
    nodes[0].for_each_mut(&mut arena, updated);
    assert_eq!(
        nodes[0].for_each(&arena),
        vec![0, 1, 2, 3, 4, 5, 6, 7, 8, 9]
    );
}
