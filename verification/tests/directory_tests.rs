use preql_import_resolver::directory_resolver::{
    build_edges, compute_transitive_imports, process_directory_with_imports, EdgeReason,
};
use preql_import_resolver::resolver::SourceFile;

fn file(path: &str, content: &str) -> SourceFile {
    SourceFile { path: path.to_string(), content: content.to_string() }
}

#[test]
fn test_transitive_persist_order() {
    // order_product_items declares a datasource; sales_reporting declares
    // another and imports the first; each has an incremental updater.
    // Updates of the upstream datasource must come before updates of the
    // downstream one.
    let files = vec![
        file(
            "/work/order_product_items.preql",
            r#"
            datasource order_product_items (
                id: key
            )
            address db.opi;
            "#,
        ),
        file(
            "/work/sales_reporting.preql",
            r#"
            import order_product_items;

            datasource sales_reporting (
                id: key
            )
            address db.sales;
            "#,
        ),
        file(
            "/work/incremental_opi.preql",
            r#"
            import order_product_items;
            persist order_product_items where date = @load_date;
            "#,
        ),
        file(
            "/work/incremental_sales.preql",
            r#"
            import sales_reporting;
            persist sales_reporting where date = @load_date;
            "#,
        ),
    ];
    let initial: Vec<String> = files.iter().map(|f| f.path.clone()).collect();

    let graph = process_directory_with_imports(initial, &files).unwrap();
    let edges = build_edges(&graph);

    let transitive_edge = edges
        .iter()
        .find(|e| matches!(e.reason, EdgeReason::TransitivePersistOrder { .. }));

    assert!(
        transitive_edge.is_some(),
        "Expected a transitive persist order edge. Edges: {:?}",
        edges
            .iter()
            .map(|e| (&e.from, &e.to, &e.reason))
            .collect::<Vec<_>>()
    );

    let edge = transitive_edge.unwrap();
    assert!(
        edge.from.ends_with("incremental_opi.preql"),
        "Expected from to be incremental_opi.preql, got {:?}",
        edge.from
    );
    assert!(
        edge.to.ends_with("incremental_sales.preql"),
        "Expected to to be incremental_sales.preql, got {:?}",
        edge.to
    );
}

#[test]
fn test_persist_dominates_reverse_import() {
    // U persists X and also imports D, which declares X: the reconciled
    // graph holds the edge U -> D and no edge D -> U.
    let files = vec![
        file("/work/d.preql", "datasource x (id: key) address db.x;"),
        file("/work/u.preql", "import d;\npersist x;"),
    ];
    let initial: Vec<String> = files.iter().map(|f| f.path.clone()).collect();
    let graph = process_directory_with_imports(initial, &files).unwrap();
    let edges = build_edges(&graph);

    assert!(
        edges
            .iter()
            .any(|e| e.from.ends_with("u.preql") && e.to.ends_with("d.preql"))
    );
    assert!(
        !edges
            .iter()
            .any(|e| e.from.ends_with("d.preql") && e.to.ends_with("u.preql"))
    );
}

#[test]
fn test_import_edge_direction() {
    let files = vec![
        file("/work/a.preql", "import b;"),
        file("/work/b.preql", "// nothing"),
    ];
    let initial: Vec<String> = files.iter().map(|f| f.path.clone()).collect();
    let graph = process_directory_with_imports(initial, &files).unwrap();
    let edges = build_edges(&graph);
    assert!(edges.iter().any(|e| {
        matches!(e.reason, EdgeReason::Import)
            && e.from.ends_with("b.preql")
            && e.to.ends_with("a.preql")
    }));
}

#[test]
fn test_declare_before_use_edge() {
    let files = vec![
        file("/work/models.preql", "datasource orders (id: key) address db.orders;"),
        file("/work/consumer.preql", "import models;"),
    ];
    let initial: Vec<String> = files.iter().map(|f| f.path.clone()).collect();
    let graph = process_directory_with_imports(initial, &files).unwrap();
    let edges = build_edges(&graph);
    assert!(edges.iter().any(|e| {
        matches!(&e.reason, EdgeReason::DeclareBeforeUse { datasource } if datasource == "orders")
            && e.from.ends_with("models.preql")
            && e.to.ends_with("consumer.preql")
    }));
}

#[test]
fn test_discovery_follows_imports() {
    // only a.preql is given initially; b.preql is pulled in through the
    // import, and a missing initial file is noted, not fatal
    let files = vec![
        file("/work/a.preql", "import b;"),
        file("/work/b.preql", "// nothing"),
    ];
    let initial = vec!["/work/a.preql".to_string(), "/work/ghost.preql".to_string()];
    let graph = process_directory_with_imports(initial, &files).unwrap();
    assert_eq!(graph.files.len(), 2);
    assert!(graph.files.iter().any(|f| f.path.ends_with("b.preql")));
    assert!(!graph.warnings.is_empty());
}

#[test]
fn test_unparsable_file_is_skipped_in_batches() {
    let files = vec![
        file("/work/a.preql", "import b;"),
        file("/work/b.preql", "import ;"),
    ];
    let initial = vec!["/work/a.preql".to_string()];
    let graph = process_directory_with_imports(initial, &files).unwrap();
    assert_eq!(graph.files.len(), 1);
    assert!(graph.files[0].path.ends_with("a.preql"));
    assert!(!graph.warnings.is_empty());
}

#[test]
fn test_compute_transitive_imports_chain() {
    let imports = vec![
        ("/work/a.preql".to_string(), vec!["/work/b.preql".to_string()]),
        ("/work/b.preql".to_string(), vec!["/work/c.preql".to_string()]),
        ("/work/c.preql".to_string(), vec![]),
    ];
    let trans = compute_transitive_imports(&imports);
    assert_eq!(trans.len(), 3);
    assert_eq!(trans[0].0, "/work/a.preql");
    assert_eq!(
        trans[0].1,
        vec!["/work/b.preql".to_string(), "/work/c.preql".to_string()]
    );
    assert_eq!(trans[1].1, vec!["/work/c.preql".to_string()]);
    assert!(trans[2].1.is_empty());
}

#[test]
fn test_compute_transitive_imports_cycle() {
    let imports = vec![
        ("/work/a.preql".to_string(), vec!["/work/b.preql".to_string()]),
        ("/work/b.preql".to_string(), vec!["/work/a.preql".to_string()]),
    ];
    let trans = compute_transitive_imports(&imports);
    // in a two-cycle each file transitively imports both files
    assert_eq!(
        trans[0].1,
        vec!["/work/a.preql".to_string(), "/work/b.preql".to_string()]
    );
    assert_eq!(
        trans[1].1,
        vec!["/work/a.preql".to_string(), "/work/b.preql".to_string()]
    );
}
