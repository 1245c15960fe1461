use raytracer::ordering::{first_at_least, sort_order};

#[test]
fn sort_order_ascending() {
    let keys = vec![5u64, 7, 1, 2];
    let order = sort_order(&keys);
    assert_eq!(order, vec![2, 3, 0, 1]);
    let sorted: Vec<u64> = order.iter().map(|&i| keys[i]).collect();
    assert_eq!(sorted, vec![1, 2, 5, 7]);
}

#[test]
fn sort_order_is_stable() {
    let keys = vec![3u64, 1, 3, 1, 2, 3];
    assert_eq!(sort_order(&keys), vec![1, 3, 4, 0, 2, 5]);
}

#[test]
fn sort_order_empty_and_sorted() {
    assert!(sort_order(&Vec::new()).is_empty());
    assert_eq!(sort_order(&vec![1u64, 2, 3]), vec![0, 1, 2]);
    assert_eq!(sort_order(&vec![u64::MAX, 0]), vec![1, 0]);
}

#[test]
fn first_at_least_finds_the_hit() {
    assert_eq!(first_at_least(&vec![1u64, 2, 5, 7], 2), Some(1));
    assert_eq!(first_at_least(&vec![1u64, 2, 5, 7], 3), Some(2));
    assert_eq!(first_at_least(&vec![1u64, 2], 3), None);
    assert_eq!(first_at_least(&Vec::new(), 0), None);
}
