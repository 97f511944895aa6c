use leveldb::database::Database;
use leveldb::iterator::{Iterable, LevelDBIterator};
use leveldb::options::ReadOptions;

fn store(keys: &[i32]) -> Database<i32> {
    let mut db = Database::new();
    for k in keys {
        db.put(k, &[*k as u8, 7]);
    }
    db
}

#[test]
fn forward_traversal_yields_entries_in_rising_order() {
    let db = store(&[3, 1, 2]);
    let mut it = db.iter(ReadOptions::new());
    let mut seen = vec![];
    while let Some(e) = it.next() {
        seen.push(e);
    }
    assert_eq!(seen, vec![(1, vec![1, 7]), (2, vec![2, 7]), (3, vec![3, 7])]);
}

#[test]
fn reversed_traversal_mirrors_the_forward_one() {
    let db = store(&[4, 8, 15, 16, 23, 42]);
    let mut forward = vec![];
    let mut it = db.iter(ReadOptions::new());
    while let Some(e) = it.next() {
        forward.push(e);
    }
    let mut backward = vec![];
    let mut it = db.iter(ReadOptions::new()).reverse();
    while let Some(e) = it.next() {
        backward.push(e);
    }
    forward.reverse();
    assert_eq!(backward, forward);
    assert_eq!(backward.len(), 6);
    assert_eq!(backward[0], (42, vec![42, 7]));
}

#[test]
fn reversing_twice_before_the_first_advance_starts_at_the_first_entry() {
    let db = store(&[1, 2, 3]);
    let mut it = db.iter(ReadOptions::new()).reverse().reverse();
    assert_eq!(it.next(), Some((1, vec![1, 7])));
    assert_eq!(it.next(), Some((2, vec![2, 7])));
}

#[test]
fn reversing_after_the_start_walks_back_from_the_current_entry() {
    let db = store(&[1, 2, 3, 4]);
    let mut it = db.iter(ReadOptions::new());
    assert_eq!(it.next().unwrap().0, 1);
    assert_eq!(it.next().unwrap().0, 2);
    assert_eq!(it.next().unwrap().0, 3);
    let mut back = it.reverse();
    assert_eq!(back.next().unwrap().0, 2);
    assert_eq!(back.next().unwrap().0, 1);
    assert_eq!(back.next(), None);
}

#[test]
fn bounds_are_lower_inclusive_and_upper_exclusive() {
    let db = store(&[1, 2, 3, 4, 5]);
    let (from, to) = (2, 4);
    let mut it = db.keys_iter(ReadOptions::new()).from(&from).to(&to);
    let mut keys = vec![];
    while let Some(k) = it.next() {
        keys.push(k);
    }
    assert_eq!(keys, vec![2, 3]);
}

#[test]
fn sparse_bounds_yield_the_keys_between() {
    let db = store(&[1, 3, 5, 7, 9]);
    let (from, to) = (2, 6);
    let mut it = db.keys_iter(ReadOptions::new()).from(&from).to(&to);
    let mut keys = vec![];
    while let Some(k) = it.next() {
        keys.push(k);
    }
    assert_eq!(keys, vec![3, 5]);
}

#[test]
fn lower_bound_beyond_every_key_yields_nothing() {
    let db = store(&[1]);
    let (from, to) = (2, 3);
    let mut it = db.iter(ReadOptions::new()).from(&from).to(&to);
    assert_eq!(it.next(), None);
    assert!(!it.valid());
}

#[test]
fn first_entry_is_yielded_without_a_look_at_the_upper_bound() {
    let db = store(&[5, 6]);
    let to = 2;
    let mut it = db.keys_iter(ReadOptions::new()).to(&to);
    assert_eq!(it.next(), Some(5));
    assert_eq!(it.next(), None);
    assert!(it.stopped());
}

#[test]
fn exhaustion_is_terminal() {
    let db = store(&[1, 2]);
    let mut it = db.iter(ReadOptions::new());
    assert!(it.next().is_some());
    assert!(it.next().is_some());
    for _ in 0..5 {
        assert_eq!(it.next(), None);
        assert!(!it.valid());
    }
    let to = 2;
    let mut it = db.iter(ReadOptions::new()).to(&to);
    assert!(it.next().is_some());
    for _ in 0..5 {
        assert_eq!(it.next(), None);
        assert!(!it.advance());
    }
}

#[test]
fn exhaustion_is_terminal_backward_and_on_an_empty_store() {
    let db = store(&[1, 2]);
    let mut it = db.iter(ReadOptions::new()).reverse();
    assert_eq!(it.next().unwrap().0, 2);
    assert_eq!(it.next().unwrap().0, 1);
    for _ in 0..4 {
        assert_eq!(it.next(), None);
    }
    let empty: Database<i32> = Database::new();
    let mut it = empty.iter(ReadOptions::new());
    for _ in 0..4 {
        assert_eq!(it.next(), None);
    }
}

#[test]
fn backward_traversal_starts_at_the_lower_bound_and_ignores_the_upper() {
    let db = store(&[1, 2, 3, 4, 5]);
    let (from, to) = (3, 2);
    let mut it = db.keys_iter(ReadOptions::new()).from(&from).to(&to).reverse();
    let mut keys = vec![];
    while let Some(k) = it.next() {
        keys.push(k);
    }
    assert_eq!(keys, vec![3, 2, 1]);
}

#[test]
fn seek_positions_at_the_first_key_not_before_the_target() {
    let db = store(&[10, 20, 30]);
    let mut it = db.iter(ReadOptions::new());
    it.seek(&0);
    assert!(it.valid());
    assert_eq!(it.key(), 10);
    it.seek(&20);
    assert_eq!(it.entry(), (20, vec![20, 7]));
    it.seek(&21);
    assert_eq!(it.key(), 30);
    assert_eq!(it.value(), vec![30, 7]);
    it.seek(&31);
    assert!(!it.valid());
}

#[test]
fn seek_leaves_the_flags_alone() {
    let db = store(&[1, 2, 3]);
    let to = 2;
    let mut it = db.iter(ReadOptions::new()).to(&to);
    assert!(!it.started());
    it.seek(&3);
    assert!(!it.started());
    assert!(it.valid());
    it.seek(&1);
    assert!(it.advance());
    assert!(it.started());
    assert!(!it.advance());
    assert!(it.stopped());
    it.seek(&1);
    assert!(it.stopped());
    assert!(!it.valid());
}

#[test]
fn seek_to_first_and_last_jump_to_the_ends() {
    let db = store(&[1, 2, 3]);
    let mut it = db.iter(ReadOptions::new());
    it.seek_to_last();
    assert_eq!(it.key(), 3);
    it.seek_to_first();
    assert_eq!(it.key(), 1);
    let to = 2;
    let mut it = db.iter(ReadOptions::new()).to(&to);
    it.seek_to_last();
    assert_eq!(it.key(), 2);
}

#[test]
fn last_jumps_to_the_upper_bound_or_the_last_entry() {
    let db = store(&[1, 2, 3, 4, 5]);
    assert_eq!(db.iter(ReadOptions::new()).last(), Some((5, vec![5, 7])));
    assert_eq!(db.keys_iter(ReadOptions::new()).last(), Some(5));
    assert_eq!(db.value_iter(ReadOptions::new()).last(), Some(vec![5, 7]));
    let to = 4;
    assert_eq!(db.keys_iter(ReadOptions::new()).to(&to).last(), Some(4));
    let to = 9;
    assert_eq!(db.keys_iter(ReadOptions::new()).to(&to).last(), None);
    let empty: Database<i32> = Database::new();
    assert_eq!(empty.iter(ReadOptions::new()).last(), None);
}

#[test]
fn projections_match_the_halves_of_the_entries() {
    let db = store(&[1, 3, 5, 7, 9]);
    let (from, to) = (2, 8);
    let mut entries = vec![];
    let mut it = db.iter(ReadOptions::new()).from(&from).to(&to);
    while let Some(e) = it.next() {
        entries.push(e);
    }
    let mut keys = vec![];
    let mut it = db.keys_iter(ReadOptions::new()).from(&from).to(&to);
    while let Some(k) = it.next() {
        keys.push(k);
    }
    let mut values = vec![];
    let mut it = db.value_iter(ReadOptions::new()).from(&from).to(&to);
    while let Some(v) = it.next() {
        values.push(v);
    }
    assert_eq!(entries.len(), 3);
    assert_eq!(keys, entries.iter().map(|e| e.0).collect::<Vec<_>>());
    assert_eq!(values, entries.iter().map(|e| e.1.clone()).collect::<Vec<_>>());
}

#[test]
fn reversed_projections_keep_their_kind() {
    let db = store(&[1, 2, 3]);
    let mut keys = db.keys_iter(ReadOptions::new()).reverse();
    assert_eq!(keys.next(), Some(3));
    assert_eq!(keys.next(), Some(2));
    let mut values = db.value_iter(ReadOptions::new()).reverse();
    assert_eq!(values.next(), Some(vec![3, 7]));
    assert_eq!(values.next(), Some(vec![2, 7]));
    assert_eq!(values.next(), Some(vec![1, 7]));
    assert_eq!(values.next(), None);
    let mut forward_again = db.value_iter(ReadOptions::new()).reverse().reverse();
    assert_eq!(forward_again.next(), Some(vec![1, 7]));
}

#[test]
fn bound_accessors_report_what_was_set() {
    let db = store(&[1]);
    let (from, to) = (2, 4);
    let it = db.iter(ReadOptions::new());
    assert_eq!(it.from_key(), None);
    assert_eq!(it.to_key(), None);
    let it = it.from(&from).to(&to);
    assert_eq!(it.from_key(), Some(&2));
    assert_eq!(it.to_key(), Some(&4));
    let back = it.reverse();
    assert_eq!(back.from_key(), Some(&2));
    assert_eq!(back.to_key(), Some(&4));
    assert!(back.runs_backward());
}

#[test]
fn keys_of_both_signs_are_visited_in_rising_order() {
    let db = store(&[-1, 0, 1, i32::MIN, i32::MAX]);
    let mut it = db.keys_iter(ReadOptions::new());
    let mut keys = vec![];
    while let Some(k) = it.next() {
        keys.push(k);
    }
    assert_eq!(keys, vec![i32::MIN, -1, 0, 1, i32::MAX]);
}

#[test]
fn bounds_of_both_signs_cut_the_range_in_key_order() {
    let db = store(&[0, -1]);
    let (from, to) = (-1, 1);
    let mut it = db.keys_iter(ReadOptions::new()).from(&from).to(&to);
    assert_eq!(it.next(), Some(-1));
    assert_eq!(it.next(), Some(0));
    assert_eq!(it.next(), None);
    let from = 0;
    let mut it = db.keys_iter(ReadOptions::new()).from(&from);
    assert_eq!(it.next(), Some(0));
    assert_eq!(it.next(), None);
}

#[test]
fn seek_to_a_negative_key_lands_on_the_least_key_not_below_it() {
    let db = store(&[0]);
    let mut it = db.iter(ReadOptions::new());
    it.seek(&-1);
    assert!(it.valid());
    assert_eq!(it.key(), 0);
    let to = -1;
    let mut it = db.iter(ReadOptions::new()).to(&to);
    it.seek_to_last();
    assert!(it.valid());
    assert_eq!(it.key(), 0);
}

#[test]
fn ends_of_the_keyspace_hold_the_least_and_the_greatest_key() {
    let db = store(&[5, -1]);
    let mut it = db.iter(ReadOptions::new());
    assert!(it.valid());
    assert_eq!(it.key(), -1);
    it.seek_to_last();
    assert_eq!(it.key(), 5);
    assert_eq!(db.keys_iter(ReadOptions::new()).last(), Some(5));
    let back = db.iter(ReadOptions::new()).reverse();
    assert_eq!(back.key(), 5);
    let again = back.reverse();
    assert_eq!(again.key(), -1);
    let mut back = db.keys_iter(ReadOptions::new()).reverse();
    assert_eq!(back.next(), Some(5));
    assert_eq!(back.next(), Some(-1));
    assert_eq!(back.next(), None);
}
