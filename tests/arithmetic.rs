#[test]
fn test_add() {
    assert_eq!(rustboard_core::add(2, 4), 6);
    assert_eq!(rustboard_core::add(999, 999), 1998);
}
