use easyenglish::sort::{sort_positions, KeyPart};

fn key(n: i64, t: &str) -> Vec<KeyPart> {
    vec![KeyPart::Num(n), KeyPart::Text(t.chars().collect())]
}

#[test]
fn sorts_by_number_then_text_keeping_ties_in_order() {
    let keys = vec![key(2, "b"), key(1, "z"), key(2, "a"), key(1, "z"), key(-5, "m")];
    assert_eq!(sort_positions(&keys), vec![4, 1, 3, 2, 0]);
}

#[test]
fn numbers_sort_before_texts_and_shorter_keys_first() {
    let keys = vec![
        vec![KeyPart::Text("a".chars().collect())],
        vec![KeyPart::Num(9)],
        vec![KeyPart::Num(9), KeyPart::Num(0)],
        Vec::new(),
    ];
    assert_eq!(sort_positions(&keys), vec![3, 1, 2, 0]);
}

#[test]
fn empty_input_sorts_to_nothing() {
    assert!(sort_positions(&Vec::new()).is_empty());
}
