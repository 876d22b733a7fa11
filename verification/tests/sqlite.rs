use contextmink::paths::Host;
use contextmink::sqlite::{
    annotate_interrupt, reject_multiple_sqlite_statements, reject_nul_bytes, sqlite_param_receipt_rows,
    sqlite_validation_error, sqlite_value_summary, validate_sql, validate_statement, BoundParam,
    QueryReport, SqliteFault, SqliteLimits, SqliteRows, SqliteValue,
};
use contextmink::sqlite_params::{
    allows_pragma, check_bindings, check_param_size, collect_sqlite_file_params, hexint,
    jsonl_to_json_array_text, normalize_sqlite_param_name, parse_sqlite_file_param,
    sqlite_param_value, BindFault, ParamFormat,
};
use contextmink::sqlite_schema::{
    index_column_name, select_tables, sqlite_column_summary_human, sqlite_index_summary_human,
    sqlite_table_summary_human, summarize_columns, validate_schema, ColumnRow, ForeignKeyRow,
    SchemaLimits, SchemaReport, SqliteColumnSummary,
    SqliteForeignKeySummary, SqliteIndexSummary, SqliteTableSummary, TableRow, TableSelection,
};

fn texts(list: &[&str]) -> Vec<String> {
    list.iter().map(|text| text.to_string()).collect()
}

fn limits() -> SqliteLimits {
    SqliteLimits { show_rows: 2, max_rows_scanned: 3, max_param_bytes: 100, show_value_chars: 10 }
}

#[test]
fn sqlite_value_summary_reports_character_truncation_for_every_value_kind() {
    let text = sqlite_value_summary(
        &SqliteValue::Text { bytes: b"abcdefghijklmnopqrstuvwxyz".to_vec() },
        10,
    );
    assert_eq!(text.text, "\"abcde...\"");
    assert!(text.truncated);

    let integer = sqlite_value_summary(&SqliteValue::Integer(123), 2);
    assert_eq!(integer.text, "..");
    assert!(integer.truncated);

    let null = sqlite_value_summary(&SqliteValue::Null, 10);
    assert_eq!(null.text, "null");
    assert!(!null.truncated);
}

#[test]
fn sqlite_validation_preserves_the_engine_diagnostic() {
    let connection = rusqlite::Connection::open_in_memory().unwrap();
    connection
        .execute_batch("CREATE TABLE records(id INTEGER PRIMARY KEY);")
        .unwrap();
    let failure = connection.prepare("SELECT missing_column FROM records").err();
    let message = match failure {
        Some(rusqlite::Error::SqlInputError { error, msg, offset, .. }) => {
            sqlite_validation_error(0, offset, &msg, error.extended_code)
        }
        other => panic!("{other:?}"),
    };
    assert!(
        message.contains("no such column: missing_column"),
        "missing SQLite diagnostic: {message}"
    );
    assert!(
        message.contains("at byte 7"),
        "wrong error offset: {message}"
    );
}

#[test]
fn rows_beyond_the_limits_are_counted_or_cut_off() {
    let mut rows = SqliteRows::new(limits());
    assert!(rows.push(&[SqliteValue::Integer(1)]));
    assert!(rows.push(&[SqliteValue::Integer(2)]));
    assert!(rows.push(&[SqliteValue::Integer(3)]));
    assert!(!rows.push(&[SqliteValue::Integer(4)]));
    assert_eq!(rows.rows, vec![texts(&["1"]), texts(&["2"])]);
    let report = QueryReport {
        db: "a.db".to_owned(),
        columns: texts(&["id"]),
        params: Vec::new(),
        rows,
        host: Host::Posix,
    };
    let receipt = report.receipt(None, true);
    assert!(!receipt.scope_complete());
    assert!(receipt.output_truncated());
    assert_eq!(receipt.result.shown, 2);
    assert!(receipt.result.total_is_lower_bound);
    assert!(!report.lines().is_empty());
}

#[test]
fn limits_and_statements_are_validated() {
    assert!(limits().validate().is_ok());
    let mut bad = limits();
    bad.show_rows = 0;
    assert!(matches!(bad.validate(), Err(SqliteFault::ZeroRows)));
    let mut bad = limits();
    bad.max_rows_scanned = 0;
    assert!(matches!(bad.validate(), Err(SqliteFault::ZeroRowsScanned)));
    let mut bad = limits();
    bad.max_rows_scanned = 1;
    assert!(matches!(bad.validate(), Err(SqliteFault::ScannedBelowShown)));
    let mut bad = limits();
    bad.max_param_bytes = 0;
    assert!(matches!(bad.validate(), Err(SqliteFault::ZeroParamBytes)));
    let mut bad = limits();
    bad.show_value_chars = 0;
    assert!(matches!(bad.validate(), Err(SqliteFault::ZeroValueChars)));
    assert!(matches!(validate_sql("  "), Err(SqliteFault::EmptySql)));
    assert!(matches!(reject_nul_bytes("SELECT\0 1"), Err(SqliteFault::NulByte)));
    assert!(reject_nul_bytes("SELECT 1").is_ok());
    assert!(validate_sql("SELECT 1").is_ok());
    assert!(matches!(validate_statement(1, 0, true), Err(SqliteFault::NothingBound)));
    assert!(matches!(validate_statement(0, 0, false), Err(SqliteFault::NotReadOnly)));
    assert!(validate_statement(1, 1, true).is_ok());
    assert!(reject_multiple_sqlite_statements(1).is_none());
    assert!(reject_multiple_sqlite_statements(2).is_some());
    assert!(annotate_interrupt(true, 60).contains("--timeout-secs 60"));
}

#[test]
fn parameters_are_named_and_read() {
    assert_eq!(normalize_sqlite_param_name("ids", "--json-param").unwrap(), ":ids");
    assert_eq!(normalize_sqlite_param_name("@ids", "--json-param").unwrap(), "@ids");
    assert!(normalize_sqlite_param_name(" ", "--json-param").is_err());
    assert!(normalize_sqlite_param_name("$", "--json-param").is_err());
    assert!(normalize_sqlite_param_name("a-b", "--json-param").is_err());
    assert_eq!(
        parse_sqlite_file_param("ids=a=b.json", "--json-param").unwrap(),
        (":ids".to_owned(), "a=b.json".to_owned())
    );
    assert!(parse_sqlite_file_param("ids", "--json-param").is_err());
    let requests = collect_sqlite_file_params(&texts(&["a=x.json"]), &texts(&["b=y.jsonl"]));
    assert_eq!(requests.unwrap().len(), 2);
    assert!(collect_sqlite_file_params(&texts(&["a=x.json"]), &texts(&["a=y.jsonl"])).is_err());
    assert!(check_param_size("x.json", 11, 10).is_some());
    assert!(check_param_size("x.json", 10, 10).is_none());
    let (text, count) = sqlite_param_value("x.json", "[1, 2]", ParamFormat::Json).unwrap();
    assert_eq!(text, "[1,2]");
    assert_eq!(count, Some(2));
    let (text, count) = jsonl_to_json_array_text("y.jsonl", "{\"a\": 1}\n\n2\n").unwrap();
    assert_eq!(text, "[{\"a\":1},2]");
    assert_eq!(count, Some(2));
    assert!(sqlite_param_value("x.json", "{", ParamFormat::Json).is_err());
}

#[test]
fn every_parameter_is_bound_and_used() {
    let names = vec![Some(":a".to_owned()), Some(":b".to_owned())];
    assert!(check_bindings(&texts(&[":a", ":b"]), &names).is_ok());
    assert!(matches!(
        check_bindings(&texts(&[":a", ":b", ":c"]), &names),
        Err(BindFault::Unused { .. })
    ));
    assert!(matches!(
        check_bindings(&texts(&[":a"]), &names),
        Err(BindFault::Unbound { .. })
    ));
    assert!(matches!(
        check_bindings(&texts(&[":a"]), &[Some(":a".to_owned()), None]),
        Err(BindFault::Anonymous { .. })
    ));
}

#[test]
fn hexadecimal_addresses_become_integers() {
    assert_eq!(hexint("0x7FF954"), Ok(0x7FF954));
    assert_eq!(hexint(" 42 "), Ok(42));
    assert_eq!(hexint("-5"), Ok(-5));
    assert!(hexint("zz").unwrap_err().contains("cannot parse"));
    assert!(allows_pragma("journal_mode", false));
    assert!(allows_pragma("TABLE_INFO", true));
    assert!(!allows_pragma("journal_mode", true));
}

#[test]
fn bound_parameters_are_reported() {
    let params = [BoundParam {
        sql_name: ":a".to_owned(),
        path: "x.json".to_owned(),
        format: ParamFormat::Json,
        values: Some(2),
        source_bytes: 7,
    }];
    let value = sqlite_param_receipt_rows(&params, Host::Posix).to_compact();
    assert!(value.contains(":a"), "{value}");
    assert!(value.contains("x.json"), "{value}");
}

fn row(name: &str) -> TableRow {
    TableRow {
        schema: "main".to_owned(),
        name: name.to_owned(),
        kind: "table".to_owned(),
        column_count_declared: 2,
        without_rowid: false,
        strict: true,
    }
}

fn table(name: &str) -> SqliteTableSummary {
    SqliteTableSummary {
        row: row(name),
        columns: vec![
            SqliteColumnSummary {
                name: "id".to_owned(),
                declared_type: "INTEGER".to_owned(),
                not_null: true,
                default_value: None,
                primary_key_rank: 1,
                hidden: 0,
                foreign_key: None,
            },
            SqliteColumnSummary {
                name: "owner".to_owned(),
                declared_type: "INTEGER".to_owned(),
                not_null: false,
                default_value: Some("0".to_owned()),
                primary_key_rank: 0,
                hidden: 0,
                foreign_key: Some(SqliteForeignKeySummary {
                    table: "owners".to_owned(),
                    column: "id".to_owned(),
                }),
            },
        ],
        indexes: vec![SqliteIndexSummary {
            name: "by_owner".to_owned(),
            unique: true,
            origin: "c".to_owned(),
            partial: false,
            columns: texts(&["owner"]),
        }],
    }
}

#[test]
fn schemas_are_shown_within_their_budgets() {
    let report = |show_columns: usize| SchemaReport {
        db: "a.db".to_owned(),
        limits: SchemaLimits {
            show_tables: 2,
            show_columns,
            show_indexes: 5,
            show_line_chars: 200,
        },
        total_tables: 2,
        tables: vec![table("items"), table("others")],
        host: Host::Posix,
    };
    let whole = report(10).receipt(None, true);
    assert!(whole.complete());
    assert_eq!((whole.result.total, whole.result.shown), (2, 2));
    let cut = report(3);
    assert!(cut.receipt(None, false).output_truncated());
    assert!(report(10).lines().iter().any(|line| line.contains("by_owner")));
    let human = sqlite_column_summary_human(&table("items").columns[1]);
    assert!(human.contains("owner"), "{human}");
    assert!(human.contains("owners"), "{human}");
    assert!(sqlite_index_summary_human(&table("items").indexes[0]).contains("by_owner"));
    assert!(sqlite_table_summary_human(&row("items")).contains("items"));
    assert_eq!(index_column_name(Some("a"), 0), "a");
    assert_ne!(index_column_name(None, -1), index_column_name(None, -2));
}

#[test]
fn tables_are_selected() {
    let selection = TableSelection {
        tables: Vec::new(),
        name_contains: texts(&["tem"]),
        with_shadow_tables: false,
        with_system_tables: false,
    };
    assert!(selection.is_selected(&row("items")));
    assert!(!selection.is_selected(&row("owners")));
    let open = TableSelection {
        tables: Vec::new(),
        name_contains: Vec::new(),
        with_shadow_tables: false,
        with_system_tables: false,
    };
    assert!(!open.is_selected(&row("sqlite_master")));
    let zero = SchemaLimits { show_tables: 0, show_columns: 1, show_indexes: 1, show_line_chars: 1 };
    assert!(validate_schema(zero).is_err());
}

#[test]
fn the_first_tables_are_taken_and_all_are_counted() {
    let selection = TableSelection {
        tables: Vec::new(),
        name_contains: Vec::new(),
        with_shadow_tables: false,
        with_system_tables: false,
    };
    let rows = [row("a"), row("sqlite_schema"), row("b"), row("c")];
    let selected = select_tables(&rows, &selection, 2);
    assert_eq!(selected.total, 3);
    let names: Vec<&str> = selected.tables.iter().map(|row| row.name.as_str()).collect();
    assert_eq!(names, vec!["a", "b"]);
}

#[test]
fn columns_carry_the_last_foreign_key_from_them() {
    let column = |name: &str| ColumnRow {
        name: name.to_owned(),
        declared_type: "integer".to_owned(),
        not_null: false,
        default_value: None,
        primary_key_rank: 0,
        hidden: 0,
    };
    let key = |table: &str, to: Option<&str>| ForeignKeyRow {
        from: "owner".to_owned(),
        table: table.to_owned(),
        to: to.map(str::to_owned),
    };
    let columns = summarize_columns(
        &[column("id"), column("owner")],
        &[key("people", Some("id")), key("owners", None)],
    );
    assert!(columns[0].foreign_key.is_none());
    let found = columns[1].foreign_key.as_ref().unwrap();
    assert_eq!((found.table.as_str(), found.column.as_str()), ("owners", ""));
}
