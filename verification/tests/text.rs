use airbyte_to_flow::text::{compare_text, decimal_text, Order};

#[test]
fn decimal_text_writes_numerals() {
    assert_eq!(decimal_text(0), "0");
    assert_eq!(decimal_text(7), "7");
    assert_eq!(decimal_text(10), "10");
    assert_eq!(decimal_text(1685098188), "1685098188");
}

#[test]
fn compare_text_orders_by_code_point() {
    assert_eq!(compare_text("a", "b"), Order::Before);
    assert_eq!(compare_text("b", "a"), Order::After);
    assert_eq!(compare_text("ab", "ab"), Order::Same);
    assert_eq!(compare_text("a", "ab"), Order::Before);
    assert_eq!(compare_text("", ""), Order::Same);
    assert_eq!(compare_text("Z", "a"), Order::Before);
}
