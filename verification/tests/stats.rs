use staff_roster::stats::{highest_count, mean, median, sort_by_size, sum};

const VALUES: [usize; 11] = [9, 8, 2, 3, 4, 5, 6, 7, 1, 0, 0];

#[test]
fn sum_of_the_sample() {
    assert_eq!(sum(&VALUES.to_vec()), 45);
}

#[test]
fn sum_examples() {
    assert_eq!(sum(&vec![]), 0);
    assert_eq!(sum(&vec![7]), 7);
    assert_eq!(sum(&vec![usize::MAX - 3, 1, 2]), usize::MAX);
}

#[test]
fn mean_of_the_sample_is_rounded_down() {
    assert_eq!(mean(&VALUES.to_vec()), 4);
}

#[test]
fn mean_examples() {
    assert_eq!(mean(&vec![5]), 5);
    assert_eq!(mean(&vec![1, 2]), 1);
    assert_eq!(mean(&vec![0, 0, 0]), 0);
    assert_eq!(mean(&vec![10, 20, 30]), 20);
}

#[test]
fn sorting_the_sample() {
    assert_eq!(sort_by_size(&VALUES.to_vec()), vec![0, 0, 1, 2, 3, 4, 5, 6, 7, 8, 9]);
    assert_eq!(sort_by_size(&vec![]), Vec::<usize>::new());
    assert_eq!(sort_by_size(&vec![3, 3, 1, 3]), vec![1, 3, 3, 3]);
}

#[test]
fn sorting_numbers_agrees_with_the_standard_library() {
    let given: Vec<usize> = (0..200).map(|k| (k * 7919 + 13) % 101).collect();
    let mut expected = given.clone();
    expected.sort();
    assert_eq!(sort_by_size(&given), expected);
}

#[test]
fn median_of_the_sample() {
    assert_eq!(median(&VALUES.to_vec()), 4);
}

#[test]
fn median_examples() {
    assert_eq!(median(&vec![7]), 7);
    assert_eq!(median(&vec![9, 1]), 9);
    assert_eq!(median(&vec![3, 1, 2]), 2);
    assert_eq!(median(&vec![4, 1, 3, 2]), 3);
    assert_eq!(median(&vec![5, 5, 5, 1]), 5);
}

#[test]
fn highest_count_of_the_sample() {
    assert_eq!(highest_count(&VALUES.to_vec()), Some(2));
}

#[test]
fn highest_count_examples() {
    assert_eq!(highest_count(&vec![]), None);
    assert_eq!(highest_count(&vec![4]), Some(1));
    assert_eq!(highest_count(&vec![1, 2, 3]), Some(1));
    assert_eq!(highest_count(&vec![2, 1, 2, 1, 2]), Some(3));
    assert_eq!(highest_count(&vec![0; 17]), Some(17));
}
