use cowin_rs::utils::opti16_display;

#[test]
fn displays_present_capacity() {
    assert_eq!(opti16_display(&Some(42)), 42);
    assert_eq!(opti16_display(&Some(-1)), -1);
}

#[test]
fn displays_absent_capacity_as_zero() {
    assert_eq!(opti16_display(&None), 0);
}
