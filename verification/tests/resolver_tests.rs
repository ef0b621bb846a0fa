use preql_import_resolver::parser::{ImportStatement, ParseError};
use preql_import_resolver::paths::is_preql_file;
use preql_import_resolver::resolver::{
    DependencyGraph, ImportResolver, ResolveError, SourceFile, Warning,
};

fn file(path: &str, content: &str) -> SourceFile {
    SourceFile { path: path.to_string(), content: content.to_string() }
}

fn position_of(graph: &DependencyGraph, suffix: &str) -> usize {
    graph.order.iter().position(|p| p.ends_with(suffix)).unwrap()
}

#[test]
fn test_simple_resolution() {
    let files = vec![file("/work/a.preql", "import b;"), file("/work/b.preql", "// no imports")];
    let mut resolver = ImportResolver::new();
    let graph = resolver.resolve("/work/a.preql", &files).unwrap();

    assert_eq!(graph.order.len(), 2);
    let b_idx = position_of(&graph, "b.preql");
    let a_idx = position_of(&graph, "a.preql");
    assert!(b_idx < a_idx, "b should come before a");
}

#[test]
fn test_datasource_declaration_ordering() {
    let files = vec![
        file("/work/a.preql", "import b;"),
        file(
            "/work/b.preql",
            r#"
            datasource orders (
                id: key
            )
            address db.orders;
        "#,
        ),
        file("/work/c.preql", "persist orders;"),
    ];
    let mut resolver = ImportResolver::new();
    let graph = resolver.resolve("/work/a.preql", &files).unwrap();

    assert!(graph.datasource_declarations.iter().any(|e| e.0 == "orders"));

    let b_idx = position_of(&graph, "b.preql");
    let a_idx = position_of(&graph, "a.preql");
    assert!(b_idx < a_idx, "b should come before a due to import");
}

#[test]
fn test_persist_before_declare() {
    let files = vec![
        file("/work/updater.preql", "persist orders;"),
        file(
            "/work/declarer.preql",
            r#"
            import updater;
            datasource orders (
                id: key
            )
            address db.orders;
        "#,
        ),
    ];
    let mut resolver = ImportResolver::new();
    let graph = resolver.resolve("/work/declarer.preql", &files).unwrap();

    let updater_idx = position_of(&graph, "updater.preql");
    let declarer_idx = position_of(&graph, "declarer.preql");
    assert!(
        updater_idx < declarer_idx,
        "updater (persist) should come before declarer (datasource)"
    );
}

#[test]
fn test_full_dependency_chain() {
    let files = vec![
        file(
            "/work/base.preql",
            r#"
            datasource orders (
                id: key,
                amount: metric
            )
            address db.orders;
        "#,
        ),
        file(
            "/work/updater.preql",
            r#"
            persist orders where amount > 100;
        "#,
        ),
        file(
            "/work/consumer.preql",
            r#"
            import base;
            // uses orders datasource
        "#,
        ),
        file(
            "/work/main.preql",
            r#"
            import updater;
            import consumer;
        "#,
        ),
    ];
    let mut resolver = ImportResolver::new();
    let graph = resolver.resolve("/work/main.preql", &files).unwrap();

    assert_eq!(graph.order.len(), 4);

    let updater_idx = position_of(&graph, "updater.preql");
    let base_idx = position_of(&graph, "base.preql");
    let consumer_idx = position_of(&graph, "consumer.preql");
    let main_idx = position_of(&graph, "main.preql");

    assert!(
        updater_idx < base_idx,
        "updater should come before base: updater={}, base={}",
        updater_idx,
        base_idx
    );
    assert!(
        base_idx < consumer_idx,
        "base should come before consumer: base={}, consumer={}",
        base_idx,
        consumer_idx
    );
    assert!(
        updater_idx < main_idx && base_idx < main_idx && consumer_idx < main_idx,
        "main should come after all others"
    );
}

#[test]
fn test_multiple_datasources() {
    let files = vec![file(
        "/work/models.preql",
        r#"
            datasource customers (
                id: key
            )
            address db.customers;

            datasource orders (
                id: key,
                customer_id
            )
            address db.orders;
        "#,
    )];
    let mut resolver = ImportResolver::new();
    let graph = resolver.resolve("/work/models.preql", &files).unwrap();

    assert_eq!(graph.datasource_declarations.len(), 2);
    assert!(graph.datasource_declarations.iter().any(|e| e.0 == "customers"));
    assert!(graph.datasource_declarations.iter().any(|e| e.0 == "orders"));
}

#[test]
fn test_simple_order_is_exact() {
    let files = vec![file("/work/a.preql", "import b;"), file("/work/b.preql", "// nothing")];
    let mut resolver = ImportResolver::new();
    let graph = resolver.resolve("/work/a.preql", &files).unwrap();
    assert_eq!(graph.order, vec!["/work/b.preql".to_string(), "/work/a.preql".to_string()]);
    assert_eq!(graph.root, "/work/a.preql");
}

#[test]
fn test_updater_precedes_declarer_without_import() {
    // D declares X; U persists X without importing D; both under one root.
    let files = vec![
        file("/work/root.preql", "import d;\nimport u;"),
        file("/work/d.preql", "datasource x (id: key) address db.x;"),
        file("/work/u.preql", "persist x;"),
    ];
    let mut resolver = ImportResolver::new();
    let graph = resolver.resolve("/work/root.preql", &files).unwrap();
    let u_idx = position_of(&graph, "u.preql");
    let d_idx = position_of(&graph, "d.preql");
    assert!(u_idx < d_idx, "the updater must run before the declarer");
}

#[test]
fn test_resolution_is_deterministic() {
    let files = vec![
        file("/work/root.preql", "import d;\nimport u;\nimport v;"),
        file("/work/d.preql", "datasource x (id: key) address db.x;"),
        file("/work/u.preql", "persist x;"),
        file("/work/v.preql", "import d;"),
    ];
    let mut resolver = ImportResolver::new();
    let first = resolver.resolve("/work/root.preql", &files).unwrap();
    let second = resolver.resolve("/work/root.preql", &files).unwrap();
    assert_eq!(first.order, second.order);
}

#[test]
fn test_three_file_cycle_is_fatal() {
    let files = vec![
        file("/work/a.preql", "import b;"),
        file("/work/b.preql", "import c;"),
        file("/work/c.preql", "import a;"),
    ];
    let mut resolver = ImportResolver::new();
    let err = resolver.resolve("/work/a.preql", &files).unwrap_err();
    match err {
        ResolveError::CircularDependency { cycle } => {
            assert_eq!(cycle.len(), 3);
        },
        other => panic!("expected a circular dependency, got {:?}", other),
    }
}

#[test]
fn test_missing_root_is_an_io_error() {
    let files = vec![file("/work/a.preql", "// nothing")];
    let mut resolver = ImportResolver::new();
    let err = resolver.resolve("/work/missing.preql", &files).unwrap_err();
    match err {
        ResolveError::IoError { path } => assert_eq!(path, "/work/missing.preql"),
        other => panic!("expected an io error, got {:?}", other),
    }
}

#[test]
fn test_unparsable_reachable_file_is_fatal() {
    let files = vec![
        file("/work/a.preql", "import b;"),
        file("/work/b.preql", "import ;"),
    ];
    let mut resolver = ImportResolver::new();
    let err = resolver.resolve("/work/a.preql", &files).unwrap_err();
    match err {
        ResolveError::ParseError { path, source } => {
            assert_eq!(path, "/work/b.preql");
            assert_eq!(source, ParseError::InvalidImportStructure);
        },
        other => panic!("expected a parse error, got {:?}", other),
    }
}

#[test]
fn test_reserved_namespace_import_carries_no_path() {
    let files = vec![file("/work/a.preql", "import std.aggregates;")];
    let mut resolver = ImportResolver::new();
    let graph = resolver.resolve("/work/a.preql", &files).unwrap();
    assert_eq!(graph.order.len(), 1);
    let node = &graph.files[0];
    assert_eq!(node.imports.len(), 1);
    assert!(node.imports[0].is_stdlib);
    assert!(node.imports[0].resolved_path.is_none());
    assert!(node.import_dependencies.is_empty());
    assert!(graph.warnings.is_empty());
}

#[test]
fn test_unresolved_import_is_a_warning() {
    let files = vec![file("/work/a.preql", "import missing;")];
    let mut resolver = ImportResolver::new();
    let graph = resolver.resolve("/work/a.preql", &files).unwrap();
    assert_eq!(graph.order.len(), 1);
    assert!(graph.warnings.iter().any(|w| matches!(
        w,
        Warning::UnresolvedImport { resolved_path, .. } if resolved_path == "/work/missing.preql"
    )));
}

#[test]
fn test_duplicate_declaration_is_a_warning() {
    let files = vec![
        file("/work/root.preql", "import a;\nimport b;"),
        file("/work/a.preql", "datasource orders (id: key) address db.a;"),
        file("/work/b.preql", "datasource orders (id: key) address db.b;"),
    ];
    let mut resolver = ImportResolver::new();
    let graph = resolver.resolve("/work/root.preql", &files).unwrap();
    assert!(graph.warnings.iter().any(|w| matches!(
        w,
        Warning::DuplicateDeclaration { datasource, .. } if datasource == "orders"
    )));
    // first seen wins
    let declarer = &graph.datasource_declarations.iter().find(|e| e.0 == "orders").unwrap().1;
    assert_eq!(declarer, "/work/a.preql");
}

#[test]
fn test_relative_paths_are_reported() {
    let files = vec![file("/work/sub/a.preql", "import b;"), file("/work/sub/b.preql", "// x")];
    let mut resolver = ImportResolver::new();
    let graph = resolver.resolve("/work/sub/a.preql", &files).unwrap();
    let a = graph.files.iter().find(|f| f.path.ends_with("a.preql")).unwrap();
    assert_eq!(a.relative_path, "a.preql");
    let b = graph.files.iter().find(|f| f.path.ends_with("b.preql")).unwrap();
    assert_eq!(b.relative_path, "b.preql");
}

#[test]
fn test_depends_on_datasources_follows_imports() {
    let files = vec![
        file("/work/consumer.preql", "import models;"),
        file("/work/models.preql", "datasource orders (id: key) address db.orders;"),
    ];
    let mut resolver = ImportResolver::new();
    let graph = resolver.resolve("/work/consumer.preql", &files).unwrap();
    let consumer = graph.files.iter().find(|f| f.path.ends_with("consumer.preql")).unwrap();
    assert_eq!(consumer.depends_on_datasources, vec!["orders".to_string()]);
    let models = graph.files.iter().find(|f| f.path.ends_with("models.preql")).unwrap();
    assert!(models.depends_on_datasources.is_empty());
}

#[test]
fn test_import_path_resolution() {
    let stmt = ImportStatement {
        raw_path: "a.b.c".to_string(),
        parent_dirs: 0,
        alias: None,
        is_stdlib: false,
    };
    assert_eq!(stmt.resolve("/root/x"), Some("/root/x/a/b/c.preql".to_string()));
    assert_eq!(stmt.resolve("/root/x/"), Some("/root/x/a/b/c.preql".to_string()));
}

#[test]
fn test_parent_directory_import_resolution() {
    let stmt = ImportStatement {
        raw_path: "a.b".to_string(),
        parent_dirs: 1,
        alias: None,
        is_stdlib: false,
    };
    assert_eq!(stmt.resolve("/root/x/y"), Some("/root/x/a/b.preql".to_string()));
    assert_eq!(stmt.resolve("/root/x/y/"), Some("/root/x/a/b.preql".to_string()));
}

#[test]
fn test_reserved_namespace_import_resolves_nowhere() {
    let stmt = ImportStatement {
        raw_path: "std.aggregates".to_string(),
        parent_dirs: 0,
        alias: None,
        is_stdlib: true,
    };
    assert_eq!(stmt.resolve("/root"), None);
}

#[test]
fn test_climbing_past_the_root_resolves_nowhere() {
    let stmt = ImportStatement {
        raw_path: "a".to_string(),
        parent_dirs: 3,
        alias: None,
        is_stdlib: false,
    };
    assert_eq!(stmt.resolve("/x"), None);
}

#[test]
fn test_is_preql_file() {
    assert!(is_preql_file("/work/a.preql"));
    assert!(is_preql_file("a.b.preql"));
    assert!(!is_preql_file("/work/a.txt"));
    assert!(!is_preql_file("/work/.preql"));
    assert!(!is_preql_file("preql"));
}

#[test]
fn test_effective_alias() {
    let with_alias = ImportStatement {
        raw_path: "models.customer".to_string(),
        parent_dirs: 0,
        alias: Some("cust".to_string()),
        is_stdlib: false,
    };
    assert_eq!(with_alias.effective_alias(), "cust");
    let without_alias = ImportStatement {
        raw_path: "models.customer".to_string(),
        parent_dirs: 0,
        alias: None,
        is_stdlib: false,
    };
    assert_eq!(without_alias.effective_alias(), "customer");
}
