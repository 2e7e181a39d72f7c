use procon::disjoint_set::DisjointSet;
use procon::union_find::UnionFind;

#[test]
fn disjoint_set_test_disjoint_set() {
    let mut set = DisjointSet::new(3);

    assert_eq!(set.same(0, 1), false);
    assert_ne!(set.find_set(0), set.find_set(1));

    set.unite(0, 1);

    assert_eq!(set.same(0, 1), true);
    assert_eq!(set.find_set(0), set.find_set(1));

    set.unite(0, 2);

    assert_eq!(set.same(0, 2), true);
    assert_eq!(set.find_set(0), set.find_set(1));
    assert_eq!(set.find_set(1), set.find_set(2));
}

#[test]
fn lib_test_disjoint_set() {
    let mut set = UnionFind::new(3);

    assert_eq!(set.equiv(0, 1), false);
    assert_ne!(set.find(0), set.find(1));

    set.union(0, 1);

    assert_eq!(set.equiv(0, 1), true);
    assert_eq!(set.find(0), set.find(1));

    set.union(0, 2);

    assert_eq!(set.equiv(0, 2), true);
    assert_eq!(set.find(0), set.find(1));
    assert_eq!(set.find(1), set.find(2));
}

#[test]
fn weighted_union_gives_the_declared_distance() {
    let mut set = DisjointSet::new(2);
    set.unite_weight(0, 1, 5);
    assert_eq!(set.diff(0, 1), 5);
    assert_eq!(set.diff(1, 0), -5);
}

#[test]
fn find_twice_gives_one_representative() {
    let mut set = DisjointSet::new(6);
    set.unite(0, 1);
    set.unite(2, 3);
    set.unite(1, 3);
    set.unite(4, 5);
    for x in 0..6 {
        let first = set.find_set(x);
        let second = set.find_set(x);
        assert_eq!(first, second);
        assert_eq!(set.find_set(first), first);
    }
}

#[test]
fn sets_form_a_partition() {
    let mut set = DisjointSet::new(7);
    set.unite(0, 1);
    set.unite(2, 3);
    set.unite(1, 2);
    set.unite(5, 6);
    for x in 0..7 {
        assert!(set.same(x, x));
        for y in 0..7 {
            assert_eq!(set.same(x, y), set.same(y, x));
            for z in 0..7 {
                if set.same(x, y) && set.same(y, z) {
                    assert!(set.same(x, z));
                }
            }
        }
    }
    assert!(set.same(0, 3));
    assert!(!set.same(0, 4));
    assert!(!set.same(4, 5));
    assert!(set.same(5, 6));
}

#[test]
fn united_elements_stay_united() {
    let mut set = DisjointSet::new(5);
    set.unite(0, 1);
    assert!(set.same(0, 1));
    set.unite(2, 3);
    assert!(set.same(0, 1));
    set.unite(1, 4);
    assert!(set.same(0, 1));
    set.unite(3, 4);
    assert!(set.same(0, 1));
    assert!(set.same(0, 2));
}

#[test]
fn distances_are_consistent() {
    let mut set = DisjointSet::new(5);
    set.unite_weight(0, 1, 5);
    set.unite_weight(2, 3, -2);
    set.unite_weight(1, 3, 10);
    assert_eq!(set.diff(0, 1), 5);
    assert_eq!(set.diff(2, 3), -2);
    assert_eq!(set.diff(1, 3), 10);
    assert_eq!(set.diff(0, 3), 15);
    assert_eq!(set.diff(0, 2), 17);
    for x in 0..4 {
        for y in 0..4 {
            assert_eq!(set.diff(x, y), -set.diff(y, x));
            for z in 0..4 {
                assert_eq!(set.diff(x, y) + set.diff(y, z), set.diff(x, z));
            }
        }
    }
    assert!(!set.same(0, 4));
}

#[test]
fn union_within_one_set_changes_nothing() {
    let mut set = DisjointSet::new(3);
    set.unite_weight(0, 1, 5);
    set.unite_weight(1, 2, 1);
    let root = set.find_set(0);
    set.unite_weight(0, 2, 100);
    assert_eq!(set.find_set(0), root);
    assert_eq!(set.find_set(2), root);
    assert_eq!(set.diff(0, 2), 6);
    assert_eq!(set.diff(0, 1), 5);
    assert_eq!(set.weight(root), 0);
}

#[test]
fn higher_rank_keeps_its_representative() {
    let mut set = DisjointSet::new(4);
    set.unite(0, 1);
    assert_eq!(set.find_set(1), 0);
    set.unite(2, 0);
    assert_eq!(set.find_set(2), 0);
    set.unite_weight(3, 1, 4);
    assert_eq!(set.find_set(3), 0);
    assert_eq!(set.weight(3), -4);
    assert_eq!(set.diff(3, 1), 4);
}

#[test]
fn weighted_union_find_by_its_other_names() {
    let mut set = UnionFind::new(2);
    set.union_weight(0, 1, 5);
    assert_eq!(set.diff(0, 1), 5);
    assert_eq!(set.diff(1, 0), -5);
    assert_eq!(set.weight(1) - set.weight(0), 5);
    assert!(set.equiv(0, 1));
}

#[test]
fn a_million_unions() {
    let n = 1_000_000;
    let mut set = DisjointSet::new(n);
    let mut seed: u64 = 88172645463325252;
    for _ in 0..n {
        seed ^= seed << 13;
        seed ^= seed >> 7;
        seed ^= seed << 17;
        let x = (seed % n as u64) as usize;
        seed ^= seed << 13;
        seed ^= seed >> 7;
        seed ^= seed << 17;
        let y = (seed % n as u64) as usize;
        set.unite(x, y);
        assert!(set.same(x, y));
    }
    let mut chain = DisjointSet::new(n);
    for x in 1..n {
        chain.unite(x - 1, x);
    }
    assert!(chain.same(0, n - 1));
}
