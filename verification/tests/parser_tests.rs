use preql_import_resolver::parser::{parse_file, parse_imports, ParseError, PersistMode};

#[test]
fn test_simple_import() {
    let content = "import models.customer;";
    let parsed = parse_file(content).unwrap();
    assert_eq!(parsed.imports.len(), 1);
    assert_eq!(parsed.imports[0].raw_path, "models.customer");
    assert_eq!(parsed.imports[0].parent_dirs, 0);
    assert!(parsed.imports[0].alias.is_none());
}

#[test]
fn test_import_with_alias() {
    let content = "import models.customer as cust;";
    let parsed = parse_file(content).unwrap();
    assert_eq!(parsed.imports.len(), 1);
    assert_eq!(parsed.imports[0].raw_path, "models.customer");
    assert_eq!(parsed.imports[0].alias, Some("cust".to_string()));
}

#[test]
fn test_relative_import() {
    let content = "import ..models.customer;";
    let parsed = parse_file(content).unwrap();
    assert_eq!(parsed.imports.len(), 1);
    assert_eq!(parsed.imports[0].raw_path, "models.customer");
    assert_eq!(parsed.imports[0].parent_dirs, 1);
}

#[test]
fn test_stdlib_import() {
    let content = "import std.aggregates;";
    let parsed = parse_file(content).unwrap();
    assert_eq!(parsed.imports.len(), 1);
    assert!(parsed.imports[0].is_stdlib);
}

#[test]
fn test_datasource_simple() {
    let content = r#"
            datasource orders (
                order_id: key,
                customer_id,
                amount: metric
            )
            address my_database.orders;
        "#;
    let parsed = parse_file(content).unwrap();
    assert_eq!(parsed.datasources.len(), 1);
    assert_eq!(parsed.datasources[0].name, "orders");
}

#[test]
fn test_datasource_with_grain() {
    let content = r#"
            datasource customers (
                id: customer_id,
                name: customer_name
            )
            grain (customer_id)
            address `my_db.customers`;
        "#;
    let parsed = parse_file(content).unwrap();
    assert_eq!(parsed.datasources.len(), 1);
    assert_eq!(parsed.datasources[0].name, "customers");
}

#[test]
fn test_auto_persist() {
    let content = "persist orders;";
    let parsed = parse_file(content).unwrap();
    assert_eq!(parsed.persists.len(), 1);
    assert_eq!(parsed.persists[0].target_datasource, "orders");
    assert_eq!(parsed.persists[0].mode, PersistMode::Persist);
}

#[test]
fn test_auto_persist_with_where() {
    let content = "append orders where status = 'active';";
    let parsed = parse_file(content).unwrap();
    assert_eq!(parsed.persists.len(), 1);
    assert_eq!(parsed.persists[0].target_datasource, "orders");
    assert_eq!(parsed.persists[0].mode, PersistMode::Append);
}

#[test]
fn test_full_persist() {
    let content = "overwrite into target_orders from select order_id, amount;";
    let parsed = parse_file(content).unwrap();
    assert_eq!(parsed.persists.len(), 1);
    assert_eq!(parsed.persists[0].target_datasource, "target_orders");
    assert_eq!(parsed.persists[0].mode, PersistMode::Overwrite);
}

#[test]
fn test_full_persist_with_source() {
    let content = "persist staging into final_orders by customer_id from select *;";
    let parsed = parse_file(content).unwrap();
    assert_eq!(parsed.persists.len(), 1);
    assert_eq!(parsed.persists[0].target_datasource, "final_orders");
}

#[test]
fn test_mixed_file() {
    let content = r#"
            import models.customer;
            import models.orders as ord;

            datasource local_orders (
                order_id: key,
                amount: metric
            )
            address local.orders;

            persist local_orders where date > '2024-01-01';

            overwrite into aggregated_orders from
                select customer_id, sum(amount) -> total_amount;
        "#;
    let parsed = parse_file(content).unwrap();
    assert_eq!(parsed.imports.len(), 2);
    assert_eq!(parsed.datasources.len(), 1);
    assert_eq!(parsed.persists.len(), 2);
}

#[test]
fn test_multiple_imports() {
    let content = r#"
            import models.customer;
            import models.orders as ord;
            // comment
            import ..shared.utils;
        "#;
    let parsed = parse_file(content).unwrap();
    assert_eq!(parsed.imports.len(), 3);
}

#[test]
fn test_parse_imports_returns_imports() {
    let content = "import a;\nimport b.c;";
    let imports = parse_imports(content).unwrap();
    assert_eq!(imports.len(), 2);
    assert_eq!(imports[0].raw_path, "a");
    assert_eq!(imports[1].raw_path, "b.c");
}

#[test]
fn test_mode_words_ignore_case() {
    let parsed = parse_file("APPEND orders;").unwrap();
    assert_eq!(parsed.persists[0].mode, PersistMode::Append);
    let parsed = parse_file("Overwrite into t from select x;").unwrap();
    assert_eq!(parsed.persists[0].mode, PersistMode::Overwrite);
}

#[test]
fn test_import_without_path_is_an_error() {
    let err = parse_file("import ;").unwrap_err();
    assert_eq!(err, ParseError::InvalidImportStructure);
}

#[test]
fn test_datasource_without_name_is_an_error() {
    let err = parse_file("datasource ;").unwrap_err();
    assert_eq!(err, ParseError::InvalidDatasourceStructure);
}

#[test]
fn test_persist_without_target_is_an_error() {
    let err = parse_file("persist ;").unwrap_err();
    assert_eq!(err, ParseError::InvalidPersistStructure);
}

#[test]
fn test_alias_requires_a_name() {
    let err = parse_file("import models.customer as ;").unwrap_err();
    assert_eq!(err, ParseError::InvalidImportStructure);
}

#[test]
fn test_unrelated_statements_are_skipped() {
    let content = "select a, b from somewhere;\nimport x;\nkey metric total;";
    let parsed = parse_file(content).unwrap();
    assert_eq!(parsed.imports.len(), 1);
    assert_eq!(parsed.datasources.len(), 0);
    assert_eq!(parsed.persists.len(), 0);
}

#[test]
fn test_comments_hide_statements() {
    let content = "// import hidden;\nimport visible;";
    let parsed = parse_file(content).unwrap();
    assert_eq!(parsed.imports.len(), 1);
    assert_eq!(parsed.imports[0].raw_path, "visible");
}

#[test]
fn test_mode_name_words() {
    assert_eq!(PersistMode::Append.mode_name(), "append");
    assert_eq!(PersistMode::Overwrite.mode_name(), "overwrite");
    assert_eq!(PersistMode::Persist.mode_name(), "persist");
}
