use pgsubset::config::{Config, M2MTable};
use pgsubset::graph::{relationships_as_edges, tables_as_nodes, DepGraph};
use pgsubset::run::{export_file_name, parse_csv_filename, sort_file_names};
use pgsubset::sql::{build_queries, Relationship};

fn rel(source_table: &str, source_column: &str, dest_table: &str, dest_column: &str) -> Relationship {
    Relationship {
        source_table: source_table.to_string(),
        source_column: source_column.to_string(),
        dest_table: dest_table.to_string(),
        dest_column: dest_column.to_string(),
    }
}

#[test]
fn file_names_use_two_digit_prefixes() {
    let m2m = Vec::new();
    assert_eq!(export_file_name(0, 3, "table_1", &m2m), "00-table_1.csv");
    assert_eq!(export_file_name(1, 3, "table_2", &m2m), "01-table_2.csv");
    assert_eq!(export_file_name(2, 3, "table_3", &m2m), "02-table_3.csv");
    assert_eq!(export_file_name(9, 12, "t", &m2m), "09-t.csv");
    assert_eq!(export_file_name(10, 12, "t", &m2m), "10-t.csv");
}

#[test]
fn m2m_file_sorts_after_every_primary_file() {
    let m2m = vec![M2MTable {
        name: "join_table".to_string(),
        source: "table_1".to_string(),
    }];
    let name = export_file_name(1, 4, "join_table", &m2m);
    assert_eq!(name, "05-join_table.csv");
    for (idx, table) in ["table_1", "table_2", "table_3", "join_table"].iter().enumerate() {
        if *table != "join_table" {
            let primary = export_file_name(idx, 4, table, &Vec::new());
            assert!(primary < name);
        }
    }
}

#[test]
fn csv_filenames_are_parsed_exactly() {
    assert_eq!(parse_csv_filename("00-table_1.csv").unwrap(), "table_1");
    assert_eq!(parse_csv_filename("42-a.b.csv").unwrap(), "a.b");
    assert_eq!(parse_csv_filename("12-.csv").unwrap(), "");
    assert!(parse_csv_filename("table_1.csv").is_none());
    assert!(parse_csv_filename("0a-table_1.csv").is_none());
    assert!(parse_csv_filename("00_table_1.csv").is_none());
    assert!(parse_csv_filename("00-table_1.txt").is_none());
    assert!(parse_csv_filename("00-table_1.csv ").is_none());
    assert!(parse_csv_filename("0-t.csv").is_none());
}

#[test]
fn file_names_sort_ascending() {
    let mut names = vec![
        "02-table_3.csv".to_string(),
        "00-table_1.csv".to_string(),
        "05-join_table.csv".to_string(),
        "01-table_2.csv".to_string(),
    ];
    sort_file_names(&mut names);
    assert_eq!(
        names,
        vec![
            "00-table_1.csv".to_string(),
            "01-table_2.csv".to_string(),
            "02-table_3.csv".to_string(),
            "05-join_table.csv".to_string(),
        ]
    );
}

#[test]
fn export_plan_for_chained_tables() {
    let cfg = Config {
        target_table: "table_3".to_string(),
        target_dir: "export_csv".to_string(),
        database_url: String::new(),
        m2m_tables: None,
        transforms: None,
    };
    let tables = vec![
        "table_1".to_string(),
        "table_2".to_string(),
        "table_3".to_string(),
        "table_4".to_string(),
    ];
    let rels = vec![
        rel("table_2", "table_1_id", "table_1", "id"),
        rel("table_3", "table_2_id", "table_2", "id"),
    ];
    let m2m = cfg.m2m_tables.unwrap_or_default();
    let nodes = tables_as_nodes(&tables);
    let edges = relationships_as_edges(&rels, &m2m);
    let graph = DepGraph::new(&nodes, &edges).unwrap();
    let deps = graph.get_dependencies_of(&cfg.target_table).unwrap();
    let queries = build_queries(&cfg.target_table, &rels, &deps);
    let names: Vec<String> = queries
        .iter()
        .enumerate()
        .map(|(idx, q)| export_file_name(idx, queries.len(), &q.table, &m2m))
        .collect();
    assert_eq!(
        names,
        vec![
            "00-table_1.csv".to_string(),
            "01-table_2.csv".to_string(),
            "02-table_3.csv".to_string(),
        ]
    );
    assert!(!names.iter().any(|n| n.contains("table_4")));
}
