use msredis::skiplist::SkipList;

#[test]
fn test_rank_consistency() {
    let mut sl = SkipList::new();
    sl.insert(3, b"c");
    sl.insert(1, b"a");
    sl.insert(2, b"b");
    sl.insert(2, b"ab"); // tie on score: ordered by element bytes
    assert_eq!(sl.rank_of(1, b"a"), Some(1));
    assert_eq!(sl.rank_of(2, b"ab"), Some(2));
    assert_eq!(sl.rank_of(2, b"b"), Some(3));
    assert_eq!(sl.rank_of(3, b"c"), Some(4));
    assert_eq!(sl.rank_of(2, b"zz"), None);
    assert_eq!(sl.len(), 4);
}

#[test]
fn test_insert_position() {
    let mut sl = SkipList::new();
    assert_eq!(sl.insert(5, b"e"), 0);
    assert_eq!(sl.insert(1, b"a"), 0);
    assert_eq!(sl.insert(3, b"c"), 1);
    assert_eq!(sl.insert(3, b"d"), 2);
}

#[test]
fn test_insert_delete_round_trip() {
    let mut sl = SkipList::new();
    sl.insert(10, b"x");
    sl.insert(-4, b"y");
    sl.insert(0, b"z");
    sl.insert(10, b"w");
    assert_eq!(sl.len(), 4);
    // delete in a different order than insertion
    assert!(sl.delete(0, b"z"));
    assert!(sl.delete(10, b"w"));
    assert!(sl.delete(-4, b"y"));
    assert!(!sl.delete(-4, b"y"));
    assert!(sl.delete(10, b"x"));
    assert_eq!(sl.len(), 0);
    assert_eq!(sl.level(), 1);
    assert_eq!(sl.rank_of(10, b"x"), None);
}

#[test]
fn test_range_by_rank_full_and_reverse() {
    let mut sl = SkipList::new();
    sl.insert(2, b"b");
    sl.insert(1, b"a");
    sl.insert(3, b"c");
    let fwd = sl.range_by_rank(1, 3);
    let fwd_keys: Vec<(i64, Vec<u8>)> =
        fwd.iter().map(|n| (n.score, n.ele.clone())).collect();
    assert_eq!(
        fwd_keys,
        vec![(1, b"a".to_vec()), (2, b"b".to_vec()), (3, b"c".to_vec())]
    );
    let rev = sl.reverse_range(1, 3);
    let rev_keys: Vec<(i64, Vec<u8>)> =
        rev.iter().map(|n| (n.score, n.ele.clone())).collect();
    assert_eq!(
        rev_keys,
        vec![(3, b"c".to_vec()), (2, b"b".to_vec()), (1, b"a".to_vec())]
    );
    // clamped and crossed bounds
    assert_eq!(sl.range_by_rank(0, 99).len(), 3);
    assert_eq!(sl.range_by_rank(3, 2).len(), 0);
    assert_eq!(sl.range_by_rank(2, 2)[0].ele, b"b".to_vec());
}

#[test]
fn test_node_at_rank() {
    let mut sl = SkipList::new();
    sl.insert(7, b"q");
    sl.insert(5, b"p");
    assert!(sl.node_at_rank(0).is_none());
    assert_eq!(sl.node_at_rank(1).unwrap().score, 5);
    assert_eq!(sl.node_at_rank(2).unwrap().ele, b"q".to_vec());
    assert!(sl.node_at_rank(3).is_none());
}

#[test]
fn test_range_by_score() {
    let mut sl = SkipList::new();
    sl.insert(1, b"a");
    sl.insert(2, b"b");
    sl.insert(3, b"c");
    sl.insert(4, b"d");
    let incl = sl.range_by_score(2, 3, true, true);
    let keys: Vec<i64> = incl.iter().map(|n| n.score).collect();
    assert_eq!(keys, vec![2, 3]);
    let excl = sl.range_by_score(2, 3, false, false);
    assert_eq!(excl.len(), 0);
    let half = sl.range_by_score(1, 4, false, true);
    let keys2: Vec<i64> = half.iter().map(|n| n.score).collect();
    assert_eq!(keys2, vec![2, 3, 4]);
    let rev = sl.reverse_range_by_score(1, 4, false, true);
    let keys3: Vec<i64> = rev.iter().map(|n| n.score).collect();
    assert_eq!(keys3, vec![4, 3, 2]);
}

#[test]
fn test_level_entries_measure_ranks() {
    let mut sl = SkipList::new();
    sl.insert(4, b"d");
    sl.insert(2, b"b");
    sl.insert(1, b"a");
    sl.insert(3, b"c");
    // level-0 links chain the ascending order one position at a time
    for pos in 0..4usize {
        let (fw, sp) = sl.level_entry(pos, 0).unwrap();
        assert_eq!(fw, pos + 1);
        assert_eq!(sp, 1);
    }
    // every stored link advances the position by exactly its span
    for pos in 0..4usize {
        let mut lvl = 0u16;
        while let Some((fw, sp)) = sl.level_entry(pos, lvl) {
            assert_eq!(fw - pos, sp as usize);
            assert!(fw > pos && fw <= 4);
            lvl += 1;
        }
        assert!(lvl >= 1);
    }
    assert!(sl.level_entry(4, 0).is_none());
    assert!(sl.level_entry(0, 64).is_none());
}

#[test]
fn test_levels_in_bounds() {
    let mut sl = SkipList::new();
    for i in 0..200i64 {
        sl.insert(i, format!("e{}", i).as_bytes());
    }
    assert!(sl.level() >= 1 && sl.level() <= 64);
    assert_eq!(sl.len(), 200);
    let all = sl.range_by_rank(1, 200);
    for n in &all {
        assert!(n.level >= 1 && n.level <= 64);
    }
    for i in 0..200i64 {
        assert!(sl.delete(i, format!("e{}", i).as_bytes()));
    }
    assert_eq!(sl.len(), 0);
    assert_eq!(sl.level(), 1);
}
