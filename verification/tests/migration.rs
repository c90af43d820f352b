use std::collections::HashMap;

use picotest::migration::{
    allowlisted_dir_name, extract_up_down_ranges, latest_version_dir, make_ddl_tier_overrides,
    parse_migration_file, parse_migration_file_name, parse_migration_text,
    MigrationContextProvider, MigrationContextVar, MigrationStatement, Migrations,
};

#[test]
fn migration_file_name_parse_ok() {
    let (v, name) =
        parse_migration_file_name("0001_first_migration.sql").expect("should parse first migration");
    assert_eq!(v, 1, "migration version does not match");
    assert_eq!(name, "first_migration", "migration name does not match");

    let (v, name) = parse_migration_file_name("/something/0002_second_migration.SQL")
        .expect("should parse second migration");
    assert_eq!(v, 2, "migration version does not match");
    assert_eq!(name, "second_migration", "migration name does not match");
}

#[test]
fn migration_file_name_parse_invalid() {
    let cases = [
        ("..", "migration file does not have file name"),
        ("migration", "migration file does not have an extension"),
        ("m.EXE", "migration file does not have sql extension"),
        ("migration.sql", "migration file has invalid name"),
        ("ver_migr.sql", "failed to parse migration version: ver"),
        ("99999999999_m.sql", "failed to parse migration version: 99999999999"),
    ];
    for (file_name, err_text) in cases {
        let error = parse_migration_file_name(file_name).expect_err("should fail");
        assert_eq!(error.message(), err_text);
    }
}

#[test]
fn migration_file_parse_single_line() {
    let text = "
        -- pico.UP
        CREATE TABLE t (id INTEGER NOT NULL, PRIMARY KEY (id)) USING memtx DISTRIBUTED BY (id) IN TIER @_plugin_config.custom_tier;
        -- pico.DOWN
        DROP TABLE t;
        ";
    let parsed = parse_migration_text(text).unwrap();
    assert_eq!(parsed.len(), 4);
    assert_eq!(parsed[0].text(), "-- pico.UP");
    assert!(parsed[0].is_line_comment());
    assert!(parsed[1].text().starts_with("CREATE TABLE t"));
    assert!(parsed[1].text().ends_with("custom_tier;"));
    assert_eq!(parsed[2].text(), "-- pico.DOWN");
    assert!(parsed[2].is_line_comment());
    assert!(parsed[3].text().starts_with("DROP TABLE t"));
}

#[test]
fn migration_file_parse_multiline() {
    let text = "
        -- pico.UP
        CREATE TABLE t (
            id INTEGER NOT NULL,
            PRIMARY KEY (id)
        )
        USING memtx DISTRIBUTED by (id)
        in tier @_plugin_config.picotest_tier;
        CREATE TABLE a (
            id INTEGER
        )
        in TieR @_plugin_config.a_tier;

        -- pico.DOWN
        DROP TABLE t;

        DROP TABLE a;
        ";
    let parsed = parse_migration_text(text).unwrap();
    assert_eq!(parsed.len(), 6);
    assert_eq!(parsed[0].text(), "-- pico.UP");
    let line_1 = parsed[1].text();
    assert!(!line_1.contains('\n'));
    assert!(line_1.ends_with("in tier @_plugin_config.picotest_tier;"));
    let line_2 = parsed[2].text();
    assert!(!line_2.contains('\n'));
    assert!(line_2.ends_with("in TieR @_plugin_config.a_tier;"));
    assert_eq!(parsed[3].text(), "-- pico.DOWN");
    assert_eq!(parsed[4].text(), "DROP TABLE t;");
    assert_eq!(parsed[5].text(), "DROP TABLE a;");
}

#[test]
fn migration_extract_tier_variables() {
    let sql = "CREATE TABLE t() in Tier @_plugin_config.picotest_tier\n;";
    let statements = parse_migration_text(sql).unwrap();
    assert_eq!(
        statements[0].extract_tier_variables(),
        vec![String::from("picotest_tier")]
    );
}

fn into_statements(s: &[&str]) -> Vec<MigrationStatement> {
    s.iter().map(|t| MigrationStatement::new(t)).collect::<Vec<_>>()
}

#[test]
fn migration_extract_up_down_range() {
    let statements = into_statements(&[
        "-- pico.UP",
        "CREATE TABLE t IN almost_pure_sql_tier;",
        "CREATE TABLE u in somethingsomething;",
        "-- pico.DOWN",
        "DROP TABLE t;",
        "DROP TABLE d;",
    ]);
    let (up, down) = extract_up_down_ranges(&statements).unwrap();
    assert_eq!(up, (0, 3));
    assert_eq!(down, (3, 6));
}

fn migration_from(version: u32, name: &str) -> picotest::migration::Migration {
    let file_name = format!("{version:04}_{name}.sql");
    parse_migration_file(&file_name, "-- pico.UP\nSELECT 1;\n-- pico.DOWN\nSELECT 2;")
        .expect("the file is well formed")
}

#[test]
fn migration_sort_by_versions() {
    let migrations = Migrations::from_unsorted(vec![
        migration_from(2, "second"),
        migration_from(22, "m22"),
        migration_from(1, "first"),
        migration_from(0, "why_not"),
    ]);
    assert_eq!(migrations.len(), 4);
    assert_eq!(migrations.get(0).name(), "why_not");
    assert_eq!(migrations.get(1).name(), "first");
    assert_eq!(migrations.get(2).name(), "second");
    assert_eq!(migrations.get(3).name(), "m22");
}

#[test]
fn migration_file_parse_assembles_the_ranges() {
    let m = parse_migration_file(
        "0003_add_table.sql",
        "-- pico.UP\nCREATE TABLE t (id INTEGER);\n-- pico.DOWN\nDROP TABLE t;",
    )
    .expect("the file is well formed");
    assert_eq!(m.name(), "add_table");
    assert_eq!(m.statements().len(), 4);
    let up = m.up_statements();
    assert_eq!(up.len(), 2);
    assert_eq!(up[0].text(), "-- pico.UP");
    assert!(up[1].text().starts_with("CREATE TABLE t"));
    let down = m.down_statements();
    assert_eq!(down.len(), 2);
    assert_eq!(down[0].text(), "-- pico.DOWN");
    assert_eq!(down[1].text(), "DROP TABLE t;");
}

#[test]
fn migration_simple_ddl_tier_override() {
    let m = parse_migration_file(
        "0001_first.sql",
        "-- pico.UP\nCREATE TABLE a IN TIER @_plugin_config.storage;\n-- pico.DOWN\nCREATE TABLE b IN TIER @_plugin_config.router;",
    )
    .expect("the file is well formed");
    let migrations = Migrations::from_unsorted(vec![m]);
    let ctx_vars = make_ddl_tier_overrides(&migrations, "default");
    assert_eq!(ctx_vars.len(), 2);
    assert_eq!(ctx_vars[0].name, "storage");
    assert_eq!(ctx_vars[0].value, "default");
    assert_eq!(ctx_vars[1].name, "router");
    assert_eq!(ctx_vars[1].value, "default");
}

#[test]
fn build_tool_directories_are_passed_over() {
    assert!(allowlisted_dir_name("my-plugin"));
    assert!(allowlisted_dir_name("0.1.0"));
    assert!(!allowlisted_dir_name("build"));
    assert!(!allowlisted_dir_name("deps"));
    assert!(!allowlisted_dir_name("examples"));
    assert!(!allowlisted_dir_name("incremental"));
    assert!(!allowlisted_dir_name(".fingerprint"));
}

#[test]
fn latest_version_dir_picks_the_greatest_name() {
    let versions = vec![
        "0.1.0".to_string(),
        "0.10.0".to_string(),
        "0.2.0".to_string(),
    ];
    assert_eq!(latest_version_dir(&versions).as_deref(), Some("0.2.0"));
    let single = vec!["1.0.0".to_string()];
    assert_eq!(latest_version_dir(&single).as_deref(), Some("1.0.0"));
    assert_eq!(latest_version_dir(&Vec::new()), None);
}

#[test]
fn migration_context_providers_hand_out_the_vars() {
    let vars = vec![MigrationContextVar {
        name: "storage".to_string(),
        value: "default".to_string(),
    }];
    let from_vec = vars.get_migration_context("any-plugin");
    assert_eq!(from_vec.len(), 1);
    assert_eq!(from_vec[0].name, "storage");

    let mut map: HashMap<String, Vec<MigrationContextVar>> = HashMap::new();
    map.insert("my-plugin".to_string(), vars);
    let found = map.get_migration_context("my-plugin");
    assert_eq!(found.len(), 1);
    assert_eq!(found[0].value, "default");
    let missing = map.get_migration_context("other-plugin");
    assert!(missing.is_empty());
}
