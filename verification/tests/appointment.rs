use cowin_rs::appointment::{availability_order, FeeType};

#[test]
fn orders_by_descending_capacity() {
    let caps: Vec<i16> = vec![0, 5, 3, 5, -1, 7];
    // Sessions without capacity (indices 0 and 4) are dropped; the two
    // sessions with capacity 5 keep their fetched order.
    assert_eq!(availability_order(&caps), vec![5, 1, 3, 2]);
}

#[test]
fn keeps_fetched_order_on_ties() {
    let caps: Vec<i16> = vec![2, 2, 2];
    assert_eq!(availability_order(&caps), vec![0, 1, 2]);
}

#[test]
fn drops_everything_without_capacity() {
    let caps: Vec<i16> = vec![0, -3, 0];
    assert_eq!(availability_order(&caps), Vec::<usize>::new());
}

#[test]
fn empty_fetch_gives_empty_order() {
    assert_eq!(availability_order(&Vec::new()), Vec::<usize>::new());
}

#[test]
fn fee_types_are_distinct() {
    assert_ne!(FeeType::Paid, FeeType::Free);
    assert_eq!(FeeType::Free, FeeType::Free);
}
