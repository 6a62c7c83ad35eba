use csv_tools::errors::Error;
use csv_tools::unpack_vec::{unpack_indexed, unpack_vec};

#[test]
fn unpack_to_correct_index() {
    assert_eq!(
        unpack_vec(vec![2, 4, 5], 7, |v| *v).unwrap(),
        vec![None, None, Some(2), None, Some(4), Some(5), None],
    );
}

#[test]
fn error_if_output_too_short() {
    assert!(unpack_vec(vec![1], 1, |v| *v).is_err());
}

#[test]
fn error_on_duplicate_indices() {
    assert!(unpack_vec(vec![0, 0], 2, |v| *v).is_err());
}

#[test]
fn unpack_reports_the_first_index_that_cannot_be_used() {
    assert_eq!(
        unpack_vec(vec![1usize], 1, |v| *v),
        Err(Error::IndexOutOfRange { output_len: 1, index: 1 }),
    );
    assert_eq!(unpack_vec(vec![0usize, 0], 2, |v| *v), Err(Error::DuplicateIndex { index: 0 }));
    assert_eq!(
        unpack_vec(vec![1usize, 0, 1, 9], 2, |v| *v),
        Err(Error::DuplicateIndex { index: 1 }),
    );
    assert_eq!(
        unpack_vec(vec![1usize, 9, 1], 2, |v| *v),
        Err(Error::IndexOutOfRange { output_len: 2, index: 9 }),
    );
}

#[test]
fn unpack_indexed_places_values_in_any_order() {
    assert_eq!(
        unpack_indexed(vec!["c", "a", "b"], &vec![2, 0, 1], 4).unwrap(),
        vec![Some("a"), Some("b"), Some("c"), None],
    );
    assert_eq!(unpack_indexed(Vec::<u8>::new(), &vec![], 0).unwrap(), vec![]);
    assert_eq!(unpack_indexed(Vec::<u8>::new(), &vec![], 2).unwrap(), vec![None, None]);
}
