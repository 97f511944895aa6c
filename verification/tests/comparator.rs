use leveldb::comparator::{bytes_equal, bytes_precede};

#[test]
fn first_differing_byte_decides() {
    assert!(bytes_precede(&[1, 2, 3], &[1, 2, 4]));
    assert!(!bytes_precede(&[1, 2, 4], &[1, 2, 3]));
    assert!(bytes_precede(&[0, 255], &[1, 0]));
    assert!(!bytes_precede(&[1, 0], &[0, 255]));
}

#[test]
fn proper_prefix_comes_first() {
    assert!(bytes_precede(&[1, 2], &[1, 2, 0]));
    assert!(!bytes_precede(&[1, 2, 0], &[1, 2]));
    assert!(bytes_precede(&[], &[0]));
    assert!(!bytes_precede(&[0], &[]));
}

#[test]
fn no_key_precedes_itself() {
    assert!(!bytes_precede(&[], &[]));
    assert!(!bytes_precede(&[7, 7], &[7, 7]));
}

#[test]
fn equality_compares_every_byte() {
    assert!(bytes_equal(&[], &[]));
    assert!(bytes_equal(&[1, 2, 3], &[1, 2, 3]));
    assert!(!bytes_equal(&[1, 2, 3], &[1, 2]));
    assert!(!bytes_equal(&[1, 2, 3], &[1, 2, 4]));
}
