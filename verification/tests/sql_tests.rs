use pgsubset::sql::{build_queries, relationship_from_parts, CopyCmd, ImportCmd, Relationship};

fn rel(source_table: &str, source_column: &str, dest_table: &str, dest_column: &str) -> Relationship {
    Relationship {
        source_table: source_table.to_string(),
        source_column: source_column.to_string(),
        dest_table: dest_table.to_string(),
        dest_column: dest_column.to_string(),
    }
}

#[test]
fn copy_query_without_filter() {
    let cmd = CopyCmd::new("table_1", "");
    assert_eq!(
        cmd.build_query(),
        "COPY (SELECT * FROM table_1 ) TO STDOUT CSV HEADER"
    );
}

#[test]
fn copy_query_with_filter() {
    let cmd = CopyCmd::new(
        "table_1",
        "WHERE table_1.id IN (SELECT DISTINCT table_1_id FROM table_2)",
    );
    assert_eq!(
        cmd.build_query(),
        "COPY (SELECT * FROM table_1 WHERE table_1.id IN (SELECT DISTINCT table_1_id FROM table_2)) TO STDOUT CSV HEADER"
    );
}

#[test]
fn queries_of_chain_filter_referenced_tables() {
    let rels = vec![
        rel("table_2", "table_1_id", "table_1", "id"),
        rel("table_3", "table_2_id", "table_2", "id"),
    ];
    let deps = vec![
        "table_1".to_string(),
        "table_2".to_string(),
        "table_3".to_string(),
    ];
    let queries = build_queries("table_3", &rels, &deps);
    assert_eq!(queries.len(), 3);
    assert_eq!(queries[0].table, "table_1");
    assert_eq!(
        queries[0].clauses,
        "WHERE table_1.id IN (SELECT DISTINCT table_1_id FROM table_2)"
    );
    assert_eq!(queries[1].table, "table_2");
    assert_eq!(
        queries[1].clauses,
        "WHERE table_2.id IN (SELECT DISTINCT table_2_id FROM table_3)"
    );
    assert_eq!(queries[2].table, "table_3");
    assert_eq!(queries[2].clauses, "");
}

#[test]
fn filters_are_or_combined() {
    let rels = vec![
        rel("table_2", "parent_id", "table_1", "id"),
        rel("table_3", "owner_id", "table_1", "id"),
    ];
    let deps = vec![
        "table_1".to_string(),
        "table_2".to_string(),
        "table_3".to_string(),
    ];
    let queries = build_queries("table_3", &rels, &deps);
    assert_eq!(
        queries[0].clauses,
        "WHERE table_1.id IN (SELECT DISTINCT parent_id FROM table_2) OR table_1.id IN (SELECT DISTINCT owner_id FROM table_3)"
    );
}

#[test]
fn unscheduled_referencing_table_is_ignored() {
    let rels = vec![rel("table_9", "t1", "table_1", "id")];
    let deps = vec!["table_1".to_string()];
    let queries = build_queries("table_1", &rels, &deps);
    assert_eq!(queries.len(), 1);
    assert_eq!(queries[0].clauses, "");
}

#[test]
fn filtered_target_gets_unfiltered_fallback() {
    let rels = vec![rel("table_1", "b_id", "table_2", "id")];
    let deps = vec!["table_1".to_string(), "table_2".to_string()];
    let queries = build_queries("table_2", &rels, &deps);
    assert_eq!(queries.len(), 3);
    assert_eq!(queries[1].table, "table_2");
    assert_eq!(
        queries[1].clauses,
        "WHERE table_2.id IN (SELECT DISTINCT b_id FROM table_1)"
    );
    assert_eq!(queries[2].table, "table_2");
    assert_eq!(queries[2].clauses, "");
}

#[test]
fn relationship_rows_with_missing_parts_are_dropped() {
    let r = relationship_from_parts(
        Some("a".to_string()),
        Some("b".to_string()),
        Some("a_id".to_string()),
        Some("id".to_string()),
    )
    .unwrap();
    assert_eq!(r.source_table, "a");
    assert_eq!(r.dest_table, "b");
    assert_eq!(r.source_column, "a_id");
    assert_eq!(r.dest_column, "id");
    assert!(relationship_from_parts(
        None,
        Some("b".to_string()),
        Some("a_id".to_string()),
        Some("id".to_string())
    )
    .is_none());
}

#[test]
fn import_statements_for_one_file() {
    let cmd = ImportCmd::new("table_1", "id,name");
    assert_eq!(cmd.table, "table_1");
    assert_eq!(
        cmd.create_temp_table_sql(),
        "CREATE TEMP TABLE table_1_temp (LIKE table_1 INCLUDING DEFAULTS) ON COMMIT DROP"
    );
    assert_eq!(
        cmd.copy_csv_sql(),
        "COPY table_1_temp(id,name) FROM STDIN WITH CSV"
    );
    assert_eq!(
        cmd.insert_sql(),
        "INSERT INTO table_1(id,name) SELECT id,name FROM table_1_temp ON CONFLICT DO NOTHING"
    );
}

#[test]
fn sequence_repair_statement() {
    let cmd = ImportCmd::new("table_1", "id,name");
    assert_eq!(
        cmd.update_sequence_sql("table_1_id_seq", "id"),
        "SELECT setval('table_1_id_seq', (SELECT MAX(id) FROM table_1))"
    );
}
