use graph_stats::loader::load_graph;
use graph_stats::loader::LoadError;
use graph_stats::stats::degree_distribution;
use graph_stats::stats::distance2_distribution;

fn record(fields: &[&str]) -> Vec<String> {
    fields.iter().map(|f| f.to_string()).collect()
}

#[test]
fn load_empty_input_yields_empty_graph() {
    let records: Vec<Vec<String>> = Vec::new();
    let (g, it) = load_graph(&records).unwrap();
    assert_eq!(g.node_count(), 0);
    assert_eq!(g.edge_count(), 0);
    assert_eq!(it.len(), 0);
    assert_eq!(degree_distribution(&g), vec![]);
    assert_eq!(distance2_distribution(&g), vec![]);
}

#[test]
fn load_rejects_record_with_one_field() {
    let records = vec![record(&["a", "b"]), record(&["c"])];
    assert_eq!(load_graph(&records).unwrap_err(), LoadError::MissingField);
}

#[test]
fn load_rejects_empty_record() {
    let records = vec![record(&[])];
    assert_eq!(load_graph(&records).unwrap_err(), LoadError::MissingField);
}

#[test]
fn load_interns_labels_in_first_seen_order() {
    let records = vec![record(&["b", "a"]), record(&["a", "c"])];
    let (g, mut it) = load_graph(&records).unwrap();
    assert_eq!(it.len(), 3);
    assert_eq!(it.intern(&"b".to_string()), 0);
    assert_eq!(it.intern(&"a".to_string()), 1);
    assert_eq!(it.intern(&"c".to_string()), 2);
    assert_eq!(g.node_count(), 3);
    assert_eq!(g.edge_count(), 2);
    assert!(g.has_edge(0, 1));
    assert!(g.has_edge(1, 2));
    assert!(!g.has_edge(1, 0));
    assert!(!g.has_edge(2, 1));
}

#[test]
fn load_collapses_duplicate_records() {
    let records = vec![record(&["a", "b"]), record(&["a", "b"])];
    let (g, _) = load_graph(&records).unwrap();
    assert_eq!(g.node_count(), 2);
    assert_eq!(g.edge_count(), 1);
}

#[test]
fn load_stores_self_loops() {
    let records = vec![record(&["a", "a"])];
    let (g, _) = load_graph(&records).unwrap();
    assert_eq!(g.node_count(), 1);
    assert_eq!(g.edge_count(), 1);
    assert!(g.has_edge(0, 0));
}

#[test]
fn load_ignores_extra_fields() {
    let records = vec![record(&["a", "b", "extra", "columns"])];
    let (g, it) = load_graph(&records).unwrap();
    assert_eq!(it.len(), 2);
    assert_eq!(g.node_count(), 2);
    assert!(g.has_edge(0, 1));
}
