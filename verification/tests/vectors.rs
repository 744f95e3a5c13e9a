use staff_roster::vectors::LastRemovable;

#[test]
fn the_last_element_leaves() {
    let mut v = vec![5, 6, 7, 8, 9];
    v.remove_last();
    assert_eq!(v, vec![5, 6, 7, 8]);
    v.remove_last();
    v.remove_last();
    assert_eq!(v, vec![5, 6]);
}

#[test]
fn a_single_element_leaves_nothing() {
    let mut v = vec!["only".to_string()];
    v.remove_last();
    assert!(v.is_empty());
}

#[test]
fn an_empty_vector_stays_empty() {
    let mut v: Vec<i32> = Vec::new();
    v.remove_last();
    assert!(v.is_empty());
    v.remove_last();
    assert!(v.is_empty());
}
