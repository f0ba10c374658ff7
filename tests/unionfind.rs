use unionfind::{Id, StaleReference, UnionFind};

fn ids(us: impl IntoIterator<Item = usize>) -> Vec<Id> {
    us.into_iter().map(|u| u.into()).collect()
}

#[test]
fn union_find() {
    let n = 10;
    let id = Id::from;

    let mut uf = UnionFind::default();
    for _ in 0..n {
        uf.make_set();
    }

    // everyone starts in a set of their own
    assert_eq!(uf.parents(), &ids(0..n));

    // build up one set
    uf.union(id(0), id(1));
    uf.union(id(0), id(2));
    uf.union(id(0), id(3));

    // build up another set
    uf.union(id(6), id(7));
    uf.union(id(6), id(8));
    uf.union(id(6), id(9));

    // this should compress all paths
    for i in 0..n {
        uf.find_mut(id(i));
    }

    // indexes:         0, 1, 2, 3, 4, 5, 6, 7, 8, 9
    let expected = vec![0, 0, 0, 0, 4, 5, 6, 6, 6, 6];
    assert_eq!(uf.parents(), &ids(expected));
}

#[test]
fn split_union_find() {
    let mut uf = UnionFind::default();
    //
    // clusters before the splits:
    //  <id1>  -> {<id1>, <id2>, <id3>}
    //  <id4>  -> {<id4>, <id5>}
    //  <id6>  -> {<id6>, <id7>, <id8>, <id9>, <id10>}
    //
    // split into:
    //  <id11> -> {<id2>}
    //  <id12> -> {<id3>}
    //  <id4>  -> {<id4>, <id5>}
    //  <id13> -> {<id7>}
    //  <id14> -> {<id8>}
    //  <id15> -> {<id9>, <id10>}
    //
    let id1 = uf.make_set();
    let id2 = uf.make_set();
    let id3 = uf.make_set();
    let id4 = uf.make_set();
    let id5 = uf.make_set();
    let id6 = uf.make_set();
    let id7 = uf.make_set();
    let id8 = uf.make_set();
    let id9 = uf.make_set();
    let id10 = uf.make_set();
    uf.union(id1, id2);
    uf.union(id1, id3);
    uf.union(id4, id5);
    uf.union(id6, id7);
    uf.union(id6, id8);
    uf.union(id6, id9);
    uf.union(id6, id10);

    let id11 = uf.make_set();
    let id12 = uf.make_set();
    let id13 = uf.make_set();
    let id14 = uf.make_set();
    let id15 = uf.make_set();

    uf.split(id1, vec![(id11, vec![id2]), (id12, vec![id3])]);
    uf.split(id6, vec![(id13, vec![id7]), (id14, vec![id8]), (id15, vec![id9, id10])]);

    assert_eq!(uf.find(id2), id11);
    assert_eq!(uf.find(id3), id12);
    assert_eq!(uf.find(id4), id4);
    assert_eq!(uf.find(id5), id4);
    assert_eq!(uf.find(id7), id13);
    assert_eq!(uf.find(id8), id14);
    assert_eq!(uf.find(id9), id15);
    assert_eq!(uf.find(id10), id15);

    let expected_parents =
        vec![id1, id11, id12, id4, id4, id6, id13, id14, id15, id15, id11, id12, id13, id14, id15];
    assert_eq!(uf.parents(), &expected_parents);
    let expected_deprecated_leaders = vec![id1, id6];
    assert_eq!(uf.deprecated_leaders(), &expected_deprecated_leaders);

    assert_eq!(uf.try_find(id1), Err(StaleReference { deprecated: id1, query: id1 }));
    assert_eq!(uf.try_find(id6), Err(StaleReference { deprecated: id6, query: id6 }));
}

#[test]
fn try_find_reports_deprecated_leader() {
    let mut uf = UnionFind::default();
    let id1 = uf.make_set();
    let id2 = uf.make_set();
    let id3 = uf.make_set();
    assert_eq!(Id::from(0), id1);
    assert_eq!(Id::from(1), id2);
    assert_eq!(Id::from(2), id3);
    uf.union(id1, id2);
    uf.union(id1, id3);

    let id4 = uf.make_set();
    let id5 = uf.make_set();

    uf.split(id1, vec![(id4, vec![id2]), (id5, vec![id3])]);
    let err = uf.try_find(id1).unwrap_err();
    assert_eq!(err, StaleReference { deprecated: Id::from(0), query: Id::from(0) });
}

#[test]
fn fresh_ids_are_their_own_leaders() {
    let mut uf = UnionFind::default();
    assert_eq!(uf.size(), 0);
    for i in 0..8usize {
        assert_eq!(uf.make_set(), Id::from(i));
    }
    assert_eq!(uf.size(), 8);
    for i in 0..8usize {
        assert_eq!(uf.find(Id::from(i)), Id::from(i));
        assert_eq!(uf.try_find(Id::from(i)), Ok(Id::from(i)));
    }
    assert!(uf.deprecated_leaders().is_empty());
}

#[test]
fn union_makes_first_argument_the_leader() {
    let mut uf = UnionFind::default();
    let a = uf.make_set();
    let b = uf.make_set();
    let c = uf.make_set();
    assert_eq!(uf.union(b, a), b);
    assert_eq!(uf.find(a), b);
    assert_eq!(uf.find(b), b);
    assert_eq!(uf.find(c), c);
    assert_eq!(uf.union(c, b), c);
    assert_eq!(uf.find(a), c);
    assert_eq!(uf.find(b), c);
    assert_eq!(uf.find(c), c);
    assert_eq!(uf.parents(), &ids(vec![1, 2, 2]));
}

#[test]
fn find_mut_agrees_with_find_and_halves_paths() {
    // a chain 0 <- 1 <- 2 <- 3 <- 4, built leader by leader
    let mut uf = UnionFind::default();
    for _ in 0..5 {
        uf.make_set();
    }
    for i in (0..4usize).rev() {
        uf.union(Id::from(i), Id::from(i + 1));
    }
    assert_eq!(uf.parents(), &ids(vec![0, 0, 1, 2, 3]));
    let leader = uf.find(Id::from(4));
    assert_eq!(leader, Id::from(0));

    assert_eq!(uf.find_mut(Id::from(4)), leader);
    // 4 now points at its old grandparent 2, and 2 at its old grandparent 0
    assert_eq!(uf.parents(), &ids(vec![0, 0, 0, 2, 2]));
    for _ in 0..3 {
        for i in 0..5usize {
            assert_eq!(uf.find_mut(Id::from(i)), uf.find(Id::from(i)));
            assert_eq!(uf.find(Id::from(i)), leader);
        }
    }
    assert_eq!(uf.parents(), &ids(vec![0, 0, 0, 0, 0]));
}

#[test]
fn split_reassigns_members() {
    let mut uf = UnionFind::default();
    let l = uf.make_set();
    let m1 = uf.make_set();
    let m2 = uf.make_set();
    let m3 = uf.make_set();
    uf.union(l, m1);
    uf.union(l, m2);
    uf.union(l, m3);
    let l1 = uf.make_set();
    let l2 = uf.make_set();
    uf.split(l, vec![(l1, vec![m1, m2]), (l2, vec![m3])]);
    assert_eq!(uf.find(m1), l1);
    assert_eq!(uf.find(m2), l1);
    assert_eq!(uf.find(m3), l2);
    assert_eq!(uf.find_mut(m1), l1);
    // the old leader keeps its self-loop but is retired
    assert_eq!(uf.parents()[0], l);
    assert_eq!(uf.try_find(l), Err(StaleReference { deprecated: l, query: l }));
}

#[test]
fn retired_leader_blocks_paths_through_it() {
    let mut uf = UnionFind::default();
    let l = uf.make_set();
    let kept = uf.make_set();
    let moved = uf.make_set();
    uf.union(l, kept);
    uf.union(l, moved);
    let fresh = uf.make_set();
    // `kept` is not relinked: its path still runs through `l`
    uf.split(l, vec![(fresh, vec![moved])]);
    assert_eq!(uf.try_find(kept), Err(StaleReference { deprecated: l, query: kept }));
    assert_eq!(uf.try_find(moved), Ok(fresh));

    // later operations do not revive it
    let other = uf.make_set();
    uf.union(fresh, other);
    uf.find_mut(moved);
    assert_eq!(uf.try_find(l), Err(StaleReference { deprecated: l, query: l }));
    assert_eq!(uf.try_find(kept), Err(StaleReference { deprecated: l, query: kept }));
    assert_eq!(uf.try_find(other), Ok(fresh));
}

#[test]
fn retired_leaders_listed_once() {
    let mut uf = UnionFind::default();
    let a = uf.make_set();
    let b = uf.make_set();
    let c = uf.make_set();
    uf.union(a, b);
    uf.union(a, c);
    let x = uf.make_set();
    let y = uf.make_set();
    uf.split(a, vec![(x, vec![b])]);
    uf.split(a, vec![(y, vec![c])]);
    uf.split(a, vec![]);
    assert_eq!(uf.deprecated_leaders(), &vec![a]);
    uf.split(x, vec![(y, vec![b])]);
    assert_eq!(uf.deprecated_leaders(), &vec![a, x]);
    assert_eq!(uf.find(b), y);
    assert_eq!(uf.find(c), y);
}

#[test]
fn split_new_leader_may_be_listed_in_its_own_cluster() {
    let mut uf = UnionFind::default();
    let l = uf.make_set();
    let m1 = uf.make_set();
    let m2 = uf.make_set();
    uf.union(l, m1);
    uf.union(l, m2);
    // m1 becomes a leader again and takes m2 along
    uf.split(l, vec![(m1, vec![m1, m2])]);
    assert_eq!(uf.parents(), &ids(vec![0, 1, 1]));
    assert_eq!(uf.find(m2), m1);
    assert_eq!(uf.find(m1), m1);
}

#[test]
fn ids_convert_to_and_from_integers() {
    let id = Id::from(42usize);
    assert_eq!(usize::from(id), 42);
    assert_eq!(id.index(), 42);
    assert_eq!(id, Id(42));
    assert_ne!(id, Id::from(7usize));
}

#[test]
fn cloned_forest_is_independent() {
    let mut uf = UnionFind::default();
    let a = uf.make_set();
    let b = uf.make_set();
    let snapshot = uf.clone();
    uf.union(a, b);
    assert_eq!(snapshot.find(b), b);
    assert_eq!(uf.find(b), a);
}

#[test]
fn parts_round_trip() {
    let mut uf = UnionFind::default();
    let a = uf.make_set();
    let b = uf.make_set();
    let c = uf.make_set();
    uf.union(a, b);
    uf.union(a, c);
    let d = uf.make_set();
    uf.split(a, vec![(d, vec![b, c])]);
    let back = UnionFind::from_parts(uf.parents().clone(), uf.deprecated_leaders().clone()).unwrap();
    assert_eq!(back.parents(), uf.parents());
    assert_eq!(back.deprecated_leaders(), uf.deprecated_leaders());
    assert_eq!(back.find(b), d);
    assert_eq!(back.try_find(a), Err(StaleReference { deprecated: a, query: a }));
}

#[test]
fn from_parts_rejects_what_is_no_forest() {
    // a parent out of range
    assert!(UnionFind::from_parts(ids(vec![0, 2]), vec![]).is_none());
    // a cycle of two ids
    assert!(UnionFind::from_parts(ids(vec![1, 0]), vec![]).is_none());
    // a retired leader out of range, and one listed twice
    assert!(UnionFind::from_parts(ids(vec![0, 0]), ids(vec![2])).is_none());
    assert!(UnionFind::from_parts(ids(vec![0, 0]), ids(vec![0, 0])).is_none());
    // a chain as deep as the table allows
    let uf = UnionFind::from_parts(ids(vec![0, 0, 1, 2]), ids(vec![1])).unwrap();
    assert_eq!(uf.find(Id::from(0usize)), Id::from(0usize));
    assert_eq!(uf.try_find(Id::from(3usize)), Err(StaleReference { deprecated: Id::from(1usize), query: Id::from(3usize) }));
    assert!(UnionFind::from_parts(vec![], vec![]).unwrap().size() == 0);
}
