use graph_stats::intern::Interner;

#[test]
fn interning_same_label_twice_gives_same_id() {
    let mut it = Interner::new();
    let first = it.intern(&"node".to_string());
    let second = it.intern(&"node".to_string());
    assert_eq!(first, 0);
    assert_eq!(second, 0);
    assert_eq!(it.len(), 1);
}

#[test]
fn interning_distinct_labels_gives_dense_ids() {
    let mut it = Interner::new();
    assert_eq!(it.intern(&"x".to_string()), 0);
    assert_eq!(it.intern(&"y".to_string()), 1);
    assert_eq!(it.intern(&"z".to_string()), 2);
    assert_eq!(it.len(), 3);
    // re-interning keeps every id stable
    assert_eq!(it.intern(&"y".to_string()), 1);
    assert_eq!(it.intern(&"x".to_string()), 0);
    assert_eq!(it.intern(&"z".to_string()), 2);
    assert_eq!(it.len(), 3);
}

#[test]
fn empty_interner_has_no_labels() {
    let it = Interner::new();
    assert_eq!(it.len(), 0);
}
