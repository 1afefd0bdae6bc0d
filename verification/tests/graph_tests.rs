use pgsubset::config::M2MTable;
use pgsubset::graph::{relationships_as_edges, tables_as_nodes, DepGraph};
use pgsubset::sql::Relationship;

fn rel(source_table: &str, source_column: &str, dest_table: &str, dest_column: &str) -> Relationship {
    Relationship {
        source_table: source_table.to_string(),
        source_column: source_column.to_string(),
        dest_table: dest_table.to_string(),
        dest_column: dest_column.to_string(),
    }
}

fn chain_tables() -> Vec<String> {
    vec![
        "table_1".to_string(),
        "table_2".to_string(),
        "table_3".to_string(),
        "table_4".to_string(),
    ]
}

fn chain_relationships() -> Vec<Relationship> {
    vec![
        rel("table_2", "table_1_id", "table_1", "id"),
        rel("table_3", "table_2_id", "table_2", "id"),
    ]
}

#[test]
fn dependency_order_of_chain() {
    let tables = chain_tables();
    let rels = chain_relationships();
    let edges = relationships_as_edges(&rels, &Vec::new());
    let graph = DepGraph::new(&tables, &edges).unwrap();
    let deps = graph.get_dependencies_of("table_3").unwrap();
    assert_eq!(
        deps,
        vec![
            "table_1".to_string(),
            "table_2".to_string(),
            "table_3".to_string()
        ]
    );
}

#[test]
fn unrelated_table_is_not_scheduled() {
    let tables = chain_tables();
    let rels = chain_relationships();
    let edges = relationships_as_edges(&rels, &Vec::new());
    let graph = DepGraph::new(&tables, &edges).unwrap();
    let deps = graph.get_dependencies_of("table_3").unwrap();
    assert!(!deps.contains(&"table_4".to_string()));
}

#[test]
fn unknown_root_is_rejected() {
    let tables = chain_tables();
    let edges = Vec::new();
    let graph = DepGraph::new(&tables, &edges).unwrap();
    let err = graph.get_dependencies_of("table_9").unwrap_err();
    assert_eq!(err.table, "table_9");
}

#[test]
fn unknown_edge_endpoint_is_rejected() {
    let tables = vec!["table_1".to_string()];
    let edges = vec![("table_1".to_string(), "table_9".to_string())];
    let err = match DepGraph::new(&tables, &edges) {
        Err(e) => e,
        Ok(_) => panic!("expected an unknown-table error"),
    };
    assert_eq!(err.table, "table_9");
}

#[test]
fn m2m_declaration_reverses_edge() {
    let rels = vec![rel("join_table", "left_id", "table_1", "id")];
    let m2m = vec![M2MTable {
        name: "join_table".to_string(),
        source: "table_1".to_string(),
    }];
    let edges = relationships_as_edges(&rels, &m2m);
    assert_eq!(
        edges,
        vec![("table_1".to_string(), "join_table".to_string())]
    );
}

#[test]
fn m2m_declaration_for_other_side_keeps_edge() {
    let rels = vec![rel("join_table", "right_id", "table_2", "id")];
    let m2m = vec![M2MTable {
        name: "join_table".to_string(),
        source: "table_1".to_string(),
    }];
    let edges = relationships_as_edges(&rels, &m2m);
    assert_eq!(
        edges,
        vec![("join_table".to_string(), "table_2".to_string())]
    );
}

#[test]
fn cycle_terminates() {
    let tables = vec!["a".to_string(), "b".to_string()];
    let edges = vec![
        ("a".to_string(), "b".to_string()),
        ("b".to_string(), "a".to_string()),
    ];
    let graph = DepGraph::new(&tables, &edges).unwrap();
    let deps = graph.get_dependencies_of("a").unwrap();
    assert_eq!(deps, vec!["b".to_string(), "a".to_string()]);
}

#[test]
fn self_loop_terminates() {
    let tables = vec!["a".to_string()];
    let edges = vec![("a".to_string(), "a".to_string())];
    let graph = DepGraph::new(&tables, &edges).unwrap();
    let deps = graph.get_dependencies_of("a").unwrap();
    assert_eq!(deps, vec!["a".to_string()]);
}

#[test]
fn root_appears_once_and_last() {
    let tables = chain_tables();
    let rels = chain_relationships();
    let edges = relationships_as_edges(&rels, &Vec::new());
    let graph = DepGraph::new(&tables, &edges).unwrap();
    let deps = graph.get_dependencies_of("table_3").unwrap();
    let occurrences = deps.iter().filter(|t| t.as_str() == "table_3").count();
    assert_eq!(occurrences, 1);
    assert_eq!(deps.last().unwrap(), "table_3");
}

#[test]
fn tables_as_nodes_keeps_names() {
    let tables = chain_tables();
    let nodes = tables_as_nodes(&tables);
    assert_eq!(nodes, tables);
}
