use leveldb::comparator::bytes_precede;
use leveldb::serializable::{from_u8, Serializable};

#[test]
fn encodes_the_distance_from_the_least_key_most_significant_byte_first() {
    assert_eq!(i32::MIN.as_u8(), vec![0, 0, 0, 0]);
    assert_eq!((i32::MIN + 258).as_u8(), vec![0, 0, 1, 2]);
    assert_eq!(0i32.as_u8(), vec![128, 0, 0, 0]);
    assert_eq!(1i32.as_u8(), vec![128, 0, 0, 1]);
    assert_eq!(0x0102_0304i32.as_u8(), vec![129, 2, 3, 4]);
    assert_eq!(i32::MAX.as_u8(), vec![255, 255, 255, 255]);
}

#[test]
fn encodes_negative_keys_below_the_others() {
    assert_eq!((-1i32).as_u8(), vec![127, 255, 255, 255]);
    assert_eq!((-256i32).as_u8(), vec![127, 255, 255, 0]);
    assert_eq!((-2_147_483_647i32).as_u8(), vec![0, 0, 0, 1]);
}

#[test]
fn decodes_four_bytes() {
    let k: i32 = Serializable::from_u8(&[128, 0, 1, 2]);
    assert_eq!(k, 258);
    let k: i32 = from_u8(&[127, 255, 255, 254]);
    assert_eq!(k, -2);
    let k: i32 = from_u8(&[0, 0, 0, 0]);
    assert_eq!(k, i32::MIN);
    let k: i32 = from_u8(&[255, 255, 255, 255]);
    assert_eq!(k, i32::MAX);
}

#[test]
fn round_trip_gives_the_key_back() {
    for k in [0i32, 1, -1, 2, 255, 256, 65_535, 65_536, 16_777_216, -16_777_217, i32::MAX, i32::MIN]
    {
        let back: i32 = from_u8(&k.as_u8());
        assert_eq!(back, k);
    }
}

#[test]
fn bytes_stand_in_the_order_of_the_keys() {
    let rising = [i32::MIN, -70_000, -256, -2, -1, 0, 1, 2, 255, 256, 70_000, i32::MAX];
    for (i, a) in rising.iter().enumerate() {
        for (j, b) in rising.iter().enumerate() {
            assert_eq!(bytes_precede(&a.as_u8(), &b.as_u8()), i < j);
        }
    }
}

#[test]
fn negative_keys_stand_before_the_others() {
    assert!(bytes_precede(&(-1i32).as_u8(), &0i32.as_u8()));
    assert!(!bytes_precede(&0i32.as_u8(), &(-1i32).as_u8()));
    assert!(bytes_precede(&(-1i32).as_u8(), &1i32.as_u8()));
    assert!(bytes_precede(&i32::MIN.as_u8(), &i32::MAX.as_u8()));
}

#[test]
fn only_four_bytes_have_the_shape_of_a_key() {
    assert!(<i32 as Serializable>::can_decode(&[0, 0, 0, 0]));
    assert!(!<i32 as Serializable>::can_decode(&[0, 0, 0]));
    assert!(!<i32 as Serializable>::can_decode(&[0, 0, 0, 0, 0]));
    assert!(!<i32 as Serializable>::can_decode(&[]));
}
