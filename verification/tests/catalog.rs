use saql_editor::catalog::{Catalog, ColumnMeta, TableMeta};

fn table(name: &str, kind: &str, rows: usize) -> TableMeta {
    TableMeta {
        name: name.to_string(),
        kind: kind.to_string(),
        columns: vec![ColumnMeta { name: "id".to_string(), ty: "Int64".to_string() }],
        num_rows: rows,
    }
}

fn names(c: &Catalog) -> Vec<(String, usize)> {
    c.tables().iter().map(|t| (t.name.clone(), t.num_rows)).collect()
}

#[test]
fn new_catalog_is_empty() {
    assert!(Catalog::new().tables().is_empty());
}

#[test]
fn register_appends_in_order() {
    let mut c = Catalog::new();
    c.register(table("a", "json", 1));
    c.register(table("b", "csv", 2));
    assert_eq!(names(&c), vec![("a".to_string(), 1), ("b".to_string(), 2)]);
}

#[test]
fn reuploading_a_name_replaces_it() {
    let mut c = Catalog::new();
    c.register(table("a", "json", 1));
    c.register(table("b", "csv", 2));
    c.register(table("c", "csv", 3));
    c.register(table("a", "csv", 10));
    assert_eq!(
        names(&c),
        vec![("b".to_string(), 2), ("c".to_string(), 3), ("a".to_string(), 10)]
    );
    assert_eq!(c.tables()[2].kind, "csv");
    assert_eq!(c.tables()[2].columns[0].ty, "Int64");
}

#[test]
fn names_are_compared_exactly() {
    let mut c = Catalog::new();
    c.register(table("A", "json", 1));
    c.register(table("a", "json", 2));
    assert_eq!(c.tables().len(), 2);
}
