use pgsubset::config::{ColumnTransform, Config, TableTransforms, TransformKind};
use pgsubset::transform::{
    clear_field, django_garbage_password, transform_row, IndexedTransforms, Transform,
};

fn clear_id_transforms(header: &[&str]) -> IndexedTransforms {
    let cols = vec![ColumnTransform {
        column: "id".to_string(),
        kind: TransformKind::ClearField,
    }];
    let header: Vec<String> = header.iter().map(|h| h.to_string()).collect();
    IndexedTransforms::new(&cols, &header)
}

#[test]
fn registry_resolves_tables_by_name() {
    let cfg = Config {
        target_table: "table_3".to_string(),
        target_dir: "export_csv".to_string(),
        database_url: String::new(),
        m2m_tables: None,
        transforms: Some(vec![TableTransforms {
            table: "table_1".to_string(),
            columns: vec![ColumnTransform {
                column: "id".to_string(),
                kind: TransformKind::ClearField,
            }],
        }]),
    };
    let cols = cfg.transforms_for("table_1").unwrap();
    assert_eq!(cols.len(), 1);
    assert_eq!(cols[0].column, "id");
    assert_eq!(cols[0].kind, TransformKind::ClearField);
    assert!(cfg.transforms_for("table_2").is_none());
    let bare = Config {
        target_table: "t".to_string(),
        target_dir: "d".to_string(),
        database_url: String::new(),
        m2m_tables: None,
        transforms: None,
    };
    assert!(bare.transforms_for("table_1").is_none());
}

#[test]
fn clear_field_empties_the_value() {
    assert_eq!(clear_field("anything"), "");
}

#[test]
fn placeholder_password_is_fixed() {
    assert_eq!(
        django_garbage_password("secret"),
        "!asdfgghjwetrrytrytr453546jyuiEEHGH"
    );
}

#[test]
fn transform_dispatches_by_kind() {
    let t = Transform::new(&TransformKind::ClearField);
    assert_eq!(t.kind, TransformKind::ClearField);
    assert_eq!(t.apply("value"), "");
    let p = Transform::new(&TransformKind::DjangoGarbagePassword);
    assert_eq!(p.apply("value"), "!asdfgghjwetrrytrytr453546jyuiEEHGH");
}

#[test]
fn fake_transforms_produce_some_value() {
    for kind in [
        TransformKind::FirstNameEn,
        TransformKind::LastNameEn,
        TransformKind::UsernameEn,
        TransformKind::EmailEn,
    ] {
        let t = Transform::new(&kind);
        assert!(!t.apply("original").is_empty());
    }
}

#[test]
fn header_resolution_is_positional() {
    let ts = clear_id_transforms(&["id", "name"]);
    assert_eq!(ts.transforms.len(), 2);
    assert_eq!(ts.transforms[0].unwrap().kind, TransformKind::ClearField);
    assert!(ts.transforms[1].is_none());
}

#[test]
fn unconfigured_table_passes_rows_through() {
    let ts = IndexedTransforms::default();
    assert_eq!(transform_row("1,entry_1", &ts), "1,entry_1");
    assert_eq!(transform_row("", &ts), "");
    assert_eq!(transform_row("a,b,,d", &ts), "a,b,,d");
}

#[test]
fn unmatched_header_passes_rows_through() {
    let ts = clear_id_transforms(&["name", "title"]);
    assert_eq!(transform_row("entry_1,t", &ts), "entry_1,t");
}

#[test]
fn clear_field_blanks_only_its_column() {
    let ts = clear_id_transforms(&["id", "name"]);
    assert_eq!(transform_row("1,entry_1", &ts), ",entry_1");
    assert_eq!(transform_row("2,entry_2", &ts), ",entry_2");
    assert_eq!(transform_row("3,entry_3", &ts), ",entry_3");
}

#[test]
fn extra_fields_beyond_header_are_untouched() {
    let ts = clear_id_transforms(&["id"]);
    assert_eq!(transform_row("1,stray", &ts), ",stray");
}

#[test]
fn transformed_file_content_matches_expectation() {
    let ts = clear_id_transforms(&["id", "name"]);
    let header = "id,name";
    let rows = ["1,entry_1", "2,entry_2", "3,entry_3"];
    let mut content = String::new();
    content.push_str(header);
    content.push('\n');
    for row in rows {
        content.push_str(&transform_row(row, &ts));
        content.push('\n');
    }
    assert_eq!(content, "id,name\n,entry_1\n,entry_2\n,entry_3\n");
}
