use leveldb::keyspace::Keyspace;

fn table(keys: &[&[u8]]) -> Keyspace {
    let mut t = Keyspace::new();
    for k in keys {
        t.put(k.to_vec(), vec![k[0], 100]);
    }
    t
}

#[test]
fn new_table_is_empty() {
    let t = Keyspace::new();
    assert_eq!(t.len(), 0);
    assert_eq!(t.seek(&[1]), 0);
    assert!(t.get(&[1]).is_none());
}

#[test]
fn put_keeps_keys_in_order() {
    let t = table(&[&[5], &[1], &[3], &[2], &[4]]);
    assert_eq!(t.len(), 5);
    for i in 0..5usize {
        assert_eq!(t.key(i), &[i as u8 + 1][..]);
        assert_eq!(t.value(i), &[i as u8 + 1, 100][..]);
    }
}

#[test]
fn put_replaces_the_value_of_a_present_key() {
    let mut t = table(&[&[1], &[2]]);
    t.put(vec![2], vec![9, 9]);
    assert_eq!(t.len(), 2);
    assert_eq!(t.get(&[2]), Some(&[9u8, 9][..]));
    assert_eq!(t.get(&[1]), Some(&[1u8, 100][..]));
}

#[test]
fn get_finds_only_present_keys() {
    let t = table(&[&[1], &[3], &[5]]);
    assert_eq!(t.get(&[3]), Some(&[3u8, 100][..]));
    assert!(t.get(&[2]).is_none());
    assert!(t.get(&[3, 0]).is_none());
    assert!(t.get(&[6]).is_none());
}

#[test]
fn seek_lands_on_the_first_key_not_before_the_target() {
    let t = table(&[&[1], &[3], &[5], &[7], &[9]]);
    assert_eq!(t.seek(&[0]), 0);
    assert_eq!(t.seek(&[1]), 0);
    assert_eq!(t.seek(&[2]), 1);
    assert_eq!(t.seek(&[3]), 1);
    assert_eq!(t.seek(&[3, 0]), 2);
    assert_eq!(t.seek(&[9]), 4);
    assert_eq!(t.seek(&[10]), 5);
}

#[test]
fn copy_holds_the_same_entries() {
    let mut t = table(&[&[2], &[1]]);
    let c = t.copy();
    t.put(vec![3], vec![3]);
    assert_eq!(c.len(), 2);
    assert_eq!(c.key(0), &[1u8][..]);
    assert_eq!(c.key(1), &[2u8][..]);
    assert!(c.get(&[3]).is_none());
    assert_eq!(t.len(), 3);
}
