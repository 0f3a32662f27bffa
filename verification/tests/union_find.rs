use lib::union_find::UnionFind;

#[test]
fn new_has_singleton_groups() {
    let mut uf = UnionFind::new(4);
    assert_eq!(uf.group_num(), 4);
    for v in 0..4 {
        assert_eq!(uf.root(v), v);
        assert_eq!(uf.group_size(v), 1);
        assert!(uf.graph[v].is_empty());
    }
    assert!(!uf.same(0, 1));
}

#[test]
fn unite_merges_from_into_into() {
    let mut uf = UnionFind::new(5);
    uf.unite(0, 1);
    assert_eq!(uf.root(1), 0);
    assert_eq!(uf.root(0), 0);
    assert!(uf.same(0, 1));
    assert_eq!(uf.group_num(), 4);
    assert_eq!(uf.group_size(1), 2);
    assert_eq!(uf.group_size(0), 2);
    assert_eq!(uf.group_size(2), 1);
}

#[test]
fn unite_chains_roots() {
    let mut uf = UnionFind::new(5);
    uf.unite(0, 1);
    uf.unite(2, 1);
    // the group of 1 (rooted at 0) goes under the root of 2
    assert_eq!(uf.root(0), 2);
    assert_eq!(uf.root(1), 2);
    assert_eq!(uf.group_size(0), 3);
    assert_eq!(uf.group_num(), 3);
    assert!(!uf.same(3, 4));
    uf.unite(4, 3);
    assert_eq!(uf.root(3), 4);
    assert_eq!(uf.group_num(), 2);
    uf.unite(3, 1);
    assert_eq!(uf.group_num(), 1);
    assert_eq!(uf.group_size(2), 5);
    for v in 0..5 {
        assert_eq!(uf.root(v), 4);
    }
}

#[test]
fn unite_within_a_group_records_edge_only() {
    let mut uf = UnionFind::new(3);
    uf.unite(0, 1);
    uf.unite(1, 0);
    assert_eq!(uf.group_num(), 2);
    assert_eq!(uf.group_size(0), 2);
    assert_eq!(uf.graph[0], vec![1, 1]);
    assert_eq!(uf.graph[1], vec![0, 0]);
    assert!(uf.graph[2].is_empty());
}

#[test]
fn unite_self_loop() {
    let mut uf = UnionFind::new(2);
    uf.unite(1, 1);
    assert_eq!(uf.group_num(), 2);
    assert_eq!(uf.graph[1], vec![1, 1]);
    assert_eq!(uf.group_size(1), 1);
}

#[test]
fn empty_union_find() {
    let uf = UnionFind::new(0);
    assert_eq!(uf.group_num(), 0);
    assert!(uf.graph.is_empty());
}

#[test]
fn union_find_clone_is_independent() {
    let mut uf = UnionFind::new(3);
    uf.unite(0, 1);
    let mut copy = uf.clone();
    copy.unite(2, 0);
    assert_eq!(copy.group_num(), 1);
    assert_eq!(uf.group_num(), 2);
    assert!(!uf.same(0, 2));
    assert!(copy.same(0, 2));
}

#[test]
fn group_sizes_add_up_to_the_elements() {
    let mut uf = UnionFind::new(7);
    uf.unite(0, 3);
    uf.unite(4, 5);
    uf.unite(3, 5);
    uf.unite(6, 1);
    let mut roots: Vec<usize> = Vec::new();
    for v in 0..7 {
        let r = uf.root(v);
        if !roots.contains(&r) {
            roots.push(r);
        }
    }
    assert_eq!(uf.group_num(), roots.len());
    let total: usize = roots.iter().map(|r| uf.clone().group_size(*r)).sum();
    assert_eq!(total, 7);
}
