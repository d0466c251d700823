use array_round::{Error, NumericArray};

#[test]
fn new_accepts_buffers_of_equal_length() {
    let a = NumericArray::new(vec![1u64, 2, 3], vec![true, false, true]).unwrap();
    assert_eq!(a.len(), 3);
    assert!(!a.is_empty());
    assert_eq!(a.to_options(), vec![Some(1), None, Some(3)]);
}

#[test]
fn new_rejects_buffers_of_different_length() {
    let r = NumericArray::new(vec![1u64, 2, 3], vec![true, false]);
    assert!(matches!(r, Err(Error::LengthMismatch)));
    let r = NumericArray::new(Vec::<u64>::new(), vec![true]);
    assert!(matches!(r, Err(Error::LengthMismatch)));
}

#[test]
fn new_accepts_two_empty_buffers() {
    let a = NumericArray::new(Vec::<u32>::new(), Vec::new()).unwrap();
    assert!(a.is_empty());
    assert_eq!(a.to_options(), Vec::<Option<u32>>::new());
}

#[test]
fn from_options_and_to_options_are_inverse() {
    let items = vec![Some(5u32), None, None, Some(0), Some(u32::MAX)];
    let a = NumericArray::from_options(&items, 77);
    assert_eq!(a.len(), 5);
    assert_eq!(a.to_options(), items);
}

#[test]
fn get_and_is_valid_read_one_slot() {
    let a = NumericArray::from_options(&vec![Some(5u64), None], 9);
    assert!(a.is_valid(0));
    assert!(!a.is_valid(1));
    assert_eq!(a.get(0), Some(5));
    assert_eq!(a.get(1), None);
}

#[test]
fn apply_transforms_present_values_and_keeps_the_shape() {
    let a = NumericArray::from_options(&vec![Some(1u64), None, Some(3), None], 0);
    let b = a.apply(|v| v * 10);
    assert_eq!(b.len(), a.len());
    assert_eq!(b.to_options(), vec![Some(10), None, Some(30), None]);
    // The input is untouched.
    assert_eq!(a.to_options(), vec![Some(1), None, Some(3), None]);
}

#[test]
fn apply_never_calls_the_function_for_an_absent_slot() {
    // What the value buffer holds at an absent slot must not reach the function.
    let a = NumericArray::new(vec![1u64, 666, 3], vec![true, false, true]).unwrap();
    let seen = std::cell::RefCell::new(Vec::new());
    let b = a.apply(|v| {
        seen.borrow_mut().push(v);
        v + 1
    });
    assert_eq!(*seen.borrow(), vec![1, 3]);
    assert_eq!(b.to_options(), vec![Some(2), None, Some(4)]);
}

#[test]
fn apply_on_an_empty_array_gives_an_empty_array() {
    let a = NumericArray::from_options(&Vec::<Option<u64>>::new(), 0);
    let b = a.apply(|v| v + 1);
    assert!(b.is_empty());
}

#[test]
fn apply_gives_the_same_result_each_time() {
    let a = NumericArray::from_options(&vec![Some(4u32), None, Some(6)], 0);
    let once = a.apply(|v| v / 2).to_options();
    let twice = a.apply(|v| v / 2).to_options();
    assert_eq!(once, twice);
}

#[test]
fn try_apply_succeeds_where_the_function_does() {
    let a = NumericArray::from_options(&vec![Some(1u64), None, Some(3)], 0);
    let b: Result<_, String> = a.try_apply(|v| Ok(v + 1));
    assert_eq!(b.unwrap().to_options(), vec![Some(2), None, Some(4)]);
}

#[test]
fn try_apply_hands_on_the_first_failure() {
    let a = NumericArray::from_options(&vec![Some(1u64), None, Some(3), Some(5), Some(7)], 0);
    let calls = std::cell::Cell::new(0);
    let b = a.try_apply(|v| {
        calls.set(calls.get() + 1);
        if v >= 3 {
            Err(v)
        } else {
            Ok(v)
        }
    });
    assert!(matches!(b, Err(3)));
    // It stopped at the failure.
    assert_eq!(calls.get(), 2);
}

#[test]
fn try_apply_does_not_fail_on_absent_slots() {
    let a = NumericArray::new(vec![100u64, 1], vec![false, true]).unwrap();
    let b = a.try_apply(|v| if v >= 100 { Err(()) } else { Ok(v) });
    assert_eq!(b.unwrap().to_options(), vec![None, Some(1)]);
}
