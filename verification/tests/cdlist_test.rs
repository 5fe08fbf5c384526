use cdlist::{Arena, LinkNode};

fn collect(arena: &Arena<i32>, node: LinkNode) -> Vec<i32> {
    node.for_each(arena)
}

fn collect_rev(arena: &Arena<i32>, node: LinkNode) -> Vec<i32> {
    node.for_each_rev(arena)
}

fn connect_all(arena: &mut Arena<i32>, nodes: &[LinkNode], start: usize, end: usize) {
    for i in start..(end - 1) {
        nodes[i].add(arena, nodes[i + 1]);
    }
}

fn make_nodes(arena: &mut Arena<i32>, count: i32) -> Vec<LinkNode> {
    let mut nodes = Vec::new();
    for i in 0..count {
        nodes.push(LinkNode::new(arena, i));
    }
    nodes
}

#[test]
fn deref_mut() {
    let mut arena = Arena::new();
    let node0 = LinkNode::new(&mut arena, 1);
    let node1 = LinkNode::new(&mut arena, 2);
    let sum = node0.value(&arena) + node1.value(&arena);
    node0.set_value(&mut arena, sum);
    assert_eq!(3, node0.value(&arena));
}

#[test]
fn iter_single() {
    let mut arena = Arena::new();
    let node0 = LinkNode::new(&mut arena, 0);
    assert_eq!(collect(&arena, node0), vec![0]);
}

#[test]
fn iter() {
    let mut arena = Arena::new();
    let nodes = make_nodes(&mut arena, 10);
    connect_all(&mut arena, &nodes, 0, 10);
    assert_eq!(collect(&arena, nodes[0]), (0..10).collect::<Vec<_>>());
    assert_eq!(collect_rev(&arena, nodes[9]), (0..10).rev().collect::<Vec<_>>());
}

#[test]
fn iter_mut() {
    let mut arena = Arena::new();
    let nodes = make_nodes(&mut arena, 10);
    connect_all(&mut arena, &nodes, 0, 10);
    let seen = nodes[5].for_each(&arena);
    let mut updated = Vec::new();
    let mut j: i32 = 0;
    for v in seen {
        updated.push(v + j);
        j += 1;
    }
    nodes[5].for_each_mut(&mut arena, updated);
    assert_eq!(collect(&arena, nodes[0]), vec![5, 7, 9, 11, 13, 5, 7, 9, 11, 13]);
    let seen = nodes[9].for_each_rev(&arena);
    let mut updated = Vec::new();
    let mut j: i32 = 0;
    for v in seen {
        updated.push(v + j);
        j += 1;
    }
    nodes[9].for_each_mut_rev(&mut arena, updated);
    assert_eq!(
        collect(&arena, nodes[0]),
        vec![14, 15, 16, 17, 18, 9, 10, 11, 12, 13]
    );
}

#[test]
fn pop_self() {
    let mut arena = Arena::new();
    let node0 = LinkNode::new(&mut arena, 0);
    node0.take(&mut arena);
    assert_eq!(collect(&arena, node0), vec![0]);
}

#[test]
fn requeue() {
    let mut arena = Arena::new();
    let n0 = LinkNode::new(&mut arena, 0);
    let n1 = LinkNode::new(&mut arena, 1);
    let n2 = LinkNode::new(&mut arena, 2);
    n0.add(&mut arena, n1);
    n1.add(&mut arena, n2);
    assert_eq!(collect(&arena, n0), vec![0, 1, 2]);
    n2.add(&mut arena, n1);
    assert_eq!(collect(&arena, n0), vec![0, 2, 1]);
    assert_eq!(collect(&arena, n2), vec![2, 1, 0]);
}

#[test]
fn take() {
    let mut arena = Arena::new();
    let nodes = make_nodes(&mut arena, 10);
    connect_all(&mut arena, &nodes, 0, 10);
    assert_eq!(collect(&arena, nodes[0]), (0..10).collect::<Vec<_>>());
    let to_take = [0, 2, 4, 6, 8];
    for i in to_take {
        nodes[i].take(&mut arena);
    }
    for i in to_take {
        assert_eq!(collect(&arena, nodes[i]), vec![i as i32]);
    }
    assert_eq!(collect(&arena, nodes[1]), vec![1, 3, 5, 7, 9]);
}

#[test]
fn add() {
    let mut arena = Arena::new();
    let nodes = make_nodes(&mut arena, 10);
    connect_all(&mut arena, &nodes, 0, 5);
    connect_all(&mut arena, &nodes, 5, 10);
    assert_eq!(collect(&arena, nodes[0]), (0..5).collect::<Vec<_>>());
    assert_eq!(collect(&arena, nodes[5]), (5..10).collect::<Vec<_>>());
    nodes[2].add(&mut arena, nodes[7]);
    assert_eq!(collect(&arena, nodes[0]), vec![0, 1, 2, 7, 3, 4]);
    assert_eq!(collect_rev(&arena, nodes[4]), vec![4, 3, 7, 2, 1, 0]);
    assert_eq!(collect(&arena, nodes[5]), vec![5, 6, 8, 9]);
    assert_eq!(collect_rev(&arena, nodes[9]), vec![9, 8, 6, 5]);
}
