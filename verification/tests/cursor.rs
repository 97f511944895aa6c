use leveldb::cursor::{
    limit_reached, motion, range_end, turning, valid_at, Jump, Motion, Turn,
};

#[test]
fn first_advance_seeks_when_a_lower_bound_is_set() {
    assert_eq!(motion(false, false, true, true), Motion::Seek);
    assert_eq!(motion(false, false, true, false), Motion::Seek);
    assert_eq!(motion(false, true, true, true), Motion::Seek);
}

#[test]
fn first_advance_holds_without_a_lower_bound() {
    assert_eq!(motion(false, false, false, true), Motion::Hold);
    assert_eq!(motion(false, false, false, false), Motion::Hold);
}

#[test]
fn later_advances_step_while_the_cursor_is_valid() {
    assert_eq!(motion(true, false, false, true), Motion::Step);
    assert_eq!(motion(true, false, true, true), Motion::Step);
}

#[test]
fn exhausted_cursor_rests() {
    assert_eq!(motion(true, true, false, true), Motion::Rest);
    assert_eq!(motion(true, false, false, false), Motion::Rest);
    assert_eq!(motion(true, true, true, false), Motion::Rest);
}

#[test]
fn forward_limit_is_reached_at_and_beyond_the_bound() {
    assert!(limit_reached(false, Some(&4), &4));
    assert!(limit_reached(false, Some(&4), &5));
    assert!(!limit_reached(false, Some(&4), &3));
    assert!(!limit_reached::<i32>(false, None, &3));
}

#[test]
fn backward_traversal_has_no_limit() {
    assert!(!limit_reached(true, Some(&4), &4));
    assert!(!limit_reached(true, Some(&4), &9));
    assert!(!limit_reached(true, Some(&4), &1));
}

#[test]
fn unstarted_traversal_turns_to_the_far_end() {
    assert_eq!(turning(false, false), Turn::ToLast);
    assert_eq!(turning(false, true), Turn::ToFirst);
}

#[test]
fn started_traversal_turns_in_place() {
    assert_eq!(turning(true, false), Turn::InPlace);
    assert_eq!(turning(true, true), Turn::InPlace);
}

#[test]
fn limit_goes_by_the_order_of_the_keys_across_signs() {
    assert!(!limit_reached(false, Some(&1), &-1));
    assert!(limit_reached(false, Some(&-1), &0));
    assert!(limit_reached(false, Some(&i32::MIN), &i32::MIN));
    assert!(!limit_reached(false, Some(&i32::MAX), &-5));
}

#[test]
fn range_ends_at_the_upper_bound_where_one_is_set() {
    assert_eq!(range_end(true), Jump::ToBound);
    assert_eq!(range_end(false), Jump::ToLast);
}

#[test]
fn cursor_is_valid_at_an_entry_while_not_stopped() {
    assert!(valid_at(true, false));
    assert!(!valid_at(true, true));
    assert!(!valid_at(false, false));
    assert!(!valid_at(false, true));
}
