#[test]
fn test_dummy() {
    assert_eq!(1 + 1, 2);
}

#[test]
fn test_sum() {
    let result = 2 + 2;
    assert_eq!(result, 4);
}
