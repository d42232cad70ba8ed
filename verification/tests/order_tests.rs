use oxidized_relay::order::order_by_label;

fn labels(items: &[&str]) -> Vec<String> {
    items.iter().map(|s| s.to_string()).collect()
}

#[test]
fn order_by_label_sorts_as_strings_do() {
    let ls = labels(&["10.0.0.2:80 → 1.1.1.1:5", "10.0.0.10:80 → 1.1.1.1:5", "1.2.3.4:1 → 5.6.7.8:2"]);
    let order = order_by_label(&ls);
    assert_eq!(order, vec![2, 1, 0]);
    let mut sorted = ls.clone();
    sorted.sort();
    let by_order: Vec<String> = order.iter().map(|&i| ls[i].clone()).collect();
    assert_eq!(by_order, sorted);
}

#[test]
fn order_by_label_is_stable_for_equal_labels() {
    let ls = labels(&["b", "a", "b", "a"]);
    assert_eq!(order_by_label(&ls), vec![1, 3, 0, 2]);
}

#[test]
fn order_by_label_prefix_comes_first() {
    let ls = labels(&["abc", "ab", "", "b"]);
    assert_eq!(order_by_label(&ls), vec![2, 1, 0, 3]);
}

#[test]
fn order_by_label_by_code_point() {
    let ls = labels(&["→", "z", "Z", "é"]);
    assert_eq!(order_by_label(&ls), vec![2, 1, 3, 0]);
}

#[test]
fn order_by_label_empty() {
    assert!(order_by_label(&[]).is_empty());
}
