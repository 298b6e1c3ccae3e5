use kvs::model::request::ScoreValue;
use kvs::model::sort_values::SortValues;

#[test]
fn new_set_is_empty() {
    let sv = SortValues::new();
    assert!(sv.range(0, u32::MAX).is_empty());
}

#[test]
fn range_lists_members_in_score_order() {
    let mut sv = SortValues::new();
    sv.insert("c".to_string(), 30);
    sv.insert("a".to_string(), 10);
    sv.insert("b".to_string(), 20);
    sv.insert("d".to_string(), 40);
    assert_eq!(
        sv.range(15, 35),
        vec![ScoreValue::new(20, "b".to_string()), ScoreValue::new(30, "c".to_string())]
    );
    assert_eq!(sv.range(0, u32::MAX).len(), 4);
}

#[test]
fn reinsert_moves_and_remove_drops() {
    let mut sv = SortValues::new();
    sv.insert("a".to_string(), 1);
    sv.insert("a".to_string(), 5);
    assert_eq!(sv.range(0, 10), vec![ScoreValue::new(5, "a".to_string())]);
    sv.remove(&"a".to_string());
    assert!(sv.range(0, 10).is_empty());
    sv.remove(&"a".to_string());
    assert!(sv.range(0, 10).is_empty());
}
