use go::stone::Stone;
use go::union_find::UnionFind;

#[test]
fn test_union() {
    let mut uf = UnionFind::new(3 * 3);
    uf.parent = vec![0, 0, 2, 3, 4, 5, 6, 6, 6];
    uf.size = vec![2, 1, 1, 1, 1, 1, 3, 1, 1];
    uf.union(4, 1);
    let expected = vec![4, 0, 2, 3, 4, 5, 6, 6, 6];
    assert_eq!(uf.parent, expected);
    assert_eq!(uf.size[4], 3);

    uf.union(4, 7);
    let expected = vec![4, 0, 2, 3, 4, 5, 4, 6, 6];
    assert_eq!(uf.parent, expected);
    assert_eq!(uf.size[4], 6);
}

#[test]
fn liberties_unioned_stones() {
    let mut uf = UnionFind::new(3 * 3);
    uf.initialize_liberties_of_pos(0, vec![1, 3]).unwrap();
    uf.initialize_liberties_of_pos(1, vec![0, 2, 4]).unwrap();
    uf.union(0, 1);
    let libs = &uf.liberties[0];
    assert_eq!(libs.len(), 3);
    assert!(libs.contains(2));
    assert!(libs.contains(3));
    assert!(libs.contains(4));
}

#[test]
fn liberties_union_two_chains() {
    let mut uf = UnionFind::new(3 * 3);
    uf.initialize_liberties_of_pos(0, vec![1, 3]).unwrap();
    uf.initialize_liberties_of_pos(1, vec![0, 2, 4]).unwrap();
    uf.initialize_liberties_of_pos(2, vec![1, 5]).unwrap();
    uf.union(0, 1);
    uf.union(1, 2);
    let libs = &uf.liberties[0];
    assert_eq!(libs.len(), 3);
    assert!(libs.contains(3));
    assert!(libs.contains(4));
    assert!(libs.contains(5));
}

#[test]
fn reinitializing_liberties_is_refused() {
    let mut uf = UnionFind::new(3 * 3);
    uf.initialize_liberties_of_pos(4, vec![1, 3, 5, 7]).unwrap();
    let res = uf.initialize_liberties_of_pos(4, vec![1]);
    assert_eq!(res, Err(go::error::GoError::InternalInvariant));
    // the liberty set is untouched by the refused call
    assert_eq!(uf.liberties[4].len(), 4);
}

#[test]
fn connected_query_is_idempotent() {
    let mut uf = UnionFind::new(3 * 3);
    uf.union(0, 1);
    uf.union(1, 2);
    let first = uf.connected(0, 2);
    let parent_snapshot = uf.parent.clone();
    let size_snapshot = uf.size.clone();
    let second = uf.connected(0, 2);
    let third = uf.connected(0, 2);
    assert!(first && second && third);
    // repeated queries return identical results and leave the observable
    // state alone (path compression settles after the first query)
    assert_eq!(uf.parent, parent_snapshot);
    assert_eq!(uf.size, size_snapshot);
    assert!(!uf.connected(0, 3));
}

#[test]
fn no_liberties_resolves_to_representative() {
    let mut uf = UnionFind::new(3 * 3);
    uf.initialize_liberties_of_pos(0, vec![1, 3]).unwrap();
    uf.initialize_liberties_of_pos(1, vec![0, 2, 4]).unwrap();
    uf.union(0, 1);
    // member 1 is not the representative, but the query must consult the
    // representative's (non-empty) pooled set
    assert!(!uf.no_liberties(0));
    assert!(!uf.no_liberties(1));
    uf.remove_liberty_from_chain(1, 2);
    uf.remove_liberty_from_chain(1, 3);
    uf.remove_liberty_from_chain(1, 4);
    assert!(uf.no_liberties(0));
    assert!(uf.no_liberties(1));
}

#[test]
fn dissolve_group_isolates_members() {
    let mut uf = UnionFind::new(3 * 3);
    uf.initialize_liberties_of_pos(0, vec![1, 3]).unwrap();
    uf.initialize_liberties_of_pos(1, vec![0, 2, 4]).unwrap();
    uf.union(0, 1);
    let mut members = uf.dissolve_group(0);
    members.sort();
    assert_eq!(members, vec![0, 1]);
    assert!(!uf.connected(0, 1));
    assert_eq!(uf.size[0], 1);
    assert_eq!(uf.size[1], 1);
    assert_eq!(uf.liberties[0].len(), 0);
    assert_eq!(uf.liberties[1].len(), 0);
}

#[test]
fn opponents_swap_and_empty_has_none() {
    assert_eq!(Stone::Black.get_opponent(), Some(Stone::White));
    assert_eq!(Stone::White.get_opponent(), Some(Stone::Black));
    assert_eq!(Stone::Empty.get_opponent(), None);
}
