use union_find::UnionFind;

const SIZE: usize = 10000;

#[test]
fn union_all() {
    let mut uf = UnionFind::new(SIZE);
    for i in 0..SIZE {
        uf.union(i, i + 1 % SIZE);
    }
    let rep = uf.find(0).unwrap();
    for i in 0..SIZE {
        assert_eq!(uf.find(i).unwrap(), rep);
    }
}

#[test]
fn union_none() {
    let mut uf = UnionFind::new(SIZE);
    let rep = uf.find(0).unwrap();
    for i in 1..SIZE {
        assert_ne!(uf.find(i).unwrap(), rep);
    }
}

#[test]
fn union_evens() {
    let mut uf = UnionFind::new(SIZE);
    for i in 0..SIZE {
        uf.union(2 * i, 2 * (i + 1) % SIZE);
    }
    let rep = uf.find(0).unwrap();
    for i in 0..SIZE {
        if i % 2 == 0 {
            assert_eq!(uf.find(i).unwrap(), rep);
        } else {
            assert_ne!(uf.find(i).unwrap(), rep);
        }
    }
}

#[test]
fn union_cycle_merges_everything() {
    let mut uf = UnionFind::new(SIZE);
    for i in 0..SIZE {
        assert!(uf.union(i, (i + 1) % SIZE).is_some());
    }
    let rep = uf.find(0).unwrap();
    for i in 0..SIZE {
        assert_eq!(uf.find(i), Some(rep));
    }
}

#[test]
fn union_evens_of_ten() {
    let mut uf = UnionFind::new(10);
    for i in 0..5 {
        assert!(uf.union(2 * i, (2 * i + 2) % 10).is_some());
    }
    let rep = uf.find(0).unwrap();
    for i in 0..10 {
        if i % 2 == 0 {
            assert_eq!(uf.find(i), Some(rep));
        } else {
            assert_eq!(uf.find(i), Some(i));
        }
    }
}

#[test]
fn singletons_are_their_own_representatives() {
    let mut uf = UnionFind::new(5);
    for i in 0..5 {
        assert_eq!(uf.find(i), Some(i));
    }
}

#[test]
fn empty_store_has_no_elements() {
    let mut uf = UnionFind::new(0);
    assert_eq!(uf.find(0), None);
    assert_eq!(uf.union(0, 0), None);
    assert_eq!(uf.fresh(), 0);
    assert_eq!(uf.find(0), Some(0));
    assert_eq!(uf.union(0, 0), Some(0));
}

#[test]
fn fresh_returns_the_next_id() {
    let mut uf = UnionFind::new(3);
    assert_eq!(uf.fresh(), 3);
    assert_eq!(uf.fresh(), 4);
    assert_eq!(uf.find(3), Some(3));
    assert_eq!(uf.find(4), Some(4));
    assert_eq!(uf.find(5), None);
}

#[test]
fn fresh_keeps_existing_representatives() {
    let mut uf = UnionFind::new(4);
    uf.union(0, 1);
    uf.union(2, 3);
    let before: Vec<Option<usize>> = (0..4).map(|i| uf.find(i)).collect();
    let id = uf.fresh();
    assert_eq!(id, 4);
    let after: Vec<Option<usize>> = (0..4).map(|i| uf.find(i)).collect();
    assert_eq!(before, after);
    assert_eq!(uf.find(id), Some(id));
}

#[test]
fn find_out_of_range_is_none() {
    let mut uf = UnionFind::new(3);
    assert_eq!(uf.find(3), None);
    assert_eq!(uf.find(usize::MAX), None);
    for i in 0..3 {
        assert_eq!(uf.find(i), Some(i));
    }
}

#[test]
fn union_out_of_range_changes_nothing() {
    let mut uf = UnionFind::new(3);
    assert_eq!(uf.union(0, 3), None);
    assert_eq!(uf.union(3, 0), None);
    assert_eq!(uf.union(7, 9), None);
    for i in 0..3 {
        assert_eq!(uf.find(i), Some(i));
    }
}

#[test]
fn find_is_stable() {
    let mut uf = UnionFind::new(8);
    uf.union(0, 1);
    uf.union(2, 3);
    uf.union(1, 3);
    uf.union(4, 5);
    for i in 0..8 {
        let first = uf.find(i);
        assert_eq!(uf.find(i), first);
        assert_eq!(uf.find(i), first);
    }
}

#[test]
fn find_follows_the_whole_path() {
    let mut uf = UnionFind::new(8);
    assert_eq!(uf.union(0, 1), Some(1));
    assert_eq!(uf.union(2, 3), Some(3));
    assert_eq!(uf.union(1, 3), Some(3));
    assert_eq!(uf.union(4, 5), Some(5));
    assert_eq!(uf.union(6, 7), Some(7));
    assert_eq!(uf.union(5, 7), Some(7));
    assert_eq!(uf.union(3, 7), Some(7));
    // 0 hangs under 1, 1 under 3, 3 under 7.
    assert_eq!(uf.find(0), Some(7));
    for i in 0..8 {
        assert_eq!(uf.find(i), Some(7));
    }
}

#[test]
fn union_on_equal_ranks_returns_the_second_root() {
    let mut uf = UnionFind::new(4);
    assert_eq!(uf.union(0, 1), Some(1));
    assert_eq!(uf.find(0), Some(1));
    assert_eq!(uf.find(1), Some(1));
    assert_eq!(uf.union(3, 2), Some(2));
    assert_eq!(uf.find(3), Some(2));
    assert_eq!(uf.find(2), Some(2));
}

#[test]
fn union_keeps_the_root_of_higher_rank() {
    let mut uf = UnionFind::new(4);
    assert_eq!(uf.union(0, 1), Some(1));
    // The root 1 has rank 1, the roots 2 and 3 have rank 0.
    assert_eq!(uf.union(2, 0), Some(1));
    assert_eq!(uf.find(2), Some(1));
    assert_eq!(uf.union(1, 3), Some(1));
    assert_eq!(uf.find(3), Some(1));
}

#[test]
fn union_raises_the_rank_by_one_on_a_tie_only() {
    let mut uf = UnionFind::new(6);
    assert_eq!(uf.union(0, 1), Some(1));
    // Rank 1 against rank 0: no rank grows.
    assert_eq!(uf.union(1, 2), Some(1));
    assert_eq!(uf.union(3, 4), Some(4));
    // Rank 1 against rank 1: were the rank of 1 above 1, the root 1 would win.
    assert_eq!(uf.union(1, 4), Some(4));
    // The rank of 4 is now 2, above the rank 0 of 5, whichever comes first.
    assert_eq!(uf.union(4, 5), Some(4));
    for i in 0..6 {
        assert_eq!(uf.find(i), Some(4));
    }
}

#[test]
fn union_of_one_set_returns_its_representative() {
    let mut uf = UnionFind::new(3);
    assert_eq!(uf.union(1, 1), Some(1));
    assert_eq!(uf.union(0, 1), Some(1));
    assert_eq!(uf.union(0, 1), Some(1));
    assert_eq!(uf.union(1, 0), Some(1));
    assert_eq!(uf.find(2), Some(2));
}

#[test]
fn union_joins_both_arguments() {
    let mut uf = UnionFind::new(6);
    for (x, y) in [(0, 1), (2, 3), (1, 3), (4, 0), (5, 5)] {
        let rep = uf.union(x, y);
        assert!(rep.is_some());
        assert_eq!(uf.find(x), rep);
        assert_eq!(uf.find(y), rep);
    }
}

#[test]
fn union_leaves_other_sets_alone() {
    let mut uf = UnionFind::new(8);
    uf.union(4, 5);
    uf.union(6, 7);
    let before: Vec<Option<usize>> = (4..8).map(|i| uf.find(i)).collect();
    uf.union(0, 1);
    uf.union(2, 3);
    uf.union(0, 3);
    let after: Vec<Option<usize>> = (4..8).map(|i| uf.find(i)).collect();
    assert_eq!(before, after);
    assert_eq!(uf.find(4), uf.find(5));
    assert_eq!(uf.find(6), uf.find(7));
    assert_ne!(uf.find(4), uf.find(6));
    assert_ne!(uf.find(4), uf.find(0));
}

#[test]
fn union_twice_is_union_once() {
    let mut once = UnionFind::new(6);
    let mut twice = UnionFind::new(6);
    for uf in [&mut once, &mut twice] {
        uf.union(0, 1);
        uf.union(2, 3);
    }
    let first = once.union(1, 3);
    assert_eq!(twice.union(1, 3), first);
    assert_eq!(twice.union(1, 3), first);
    for i in 0..6 {
        assert_eq!(once.find(i), twice.find(i));
    }
}
