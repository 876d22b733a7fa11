//! What is reported of the schema of a database.
use vstd::prelude::*;

use crate::json;
use crate::json::{
    add_item, add_member, json_array, json_count, json_integer, json_object, json_optional_text,
    json_text, json_texts, Json, JsonValue,
};
use crate::json_find;
use crate::json_find::contains_all;
use crate::json_select::has_text;
use crate::numbers;
use crate::numbers::{count_text, signed_decimal_text};
use crate::output;
use crate::output::{
    clamp_text_with_status, Receipt, ReceiptCap, ReceiptModel, ReceiptResult,
};
use crate::paths;
use crate::paths::{display_path, Host};
use crate::strings;
use crate::strings::{debug_text, flag_word, join, push_text, same_text, starts_with};

verus! {

/// A table as the database lists it.
#[derive(Debug)]
pub struct TableRow {
    pub schema: String,
    pub name: String,
    pub kind: String,
    pub column_count_declared: i64,
    pub without_rowid: bool,
    pub strict: bool,
}

#[derive(Debug)]
pub struct SqliteForeignKeySummary {
    pub table: String,
    pub column: String,
}

#[derive(Debug)]
pub struct SqliteColumnSummary {
    pub name: String,
    pub declared_type: String,
    pub not_null: bool,
    pub default_value: Option<String>,
    pub primary_key_rank: i64,
    pub hidden: i64,
    pub foreign_key: Option<SqliteForeignKeySummary>,
}

#[derive(Debug)]
pub struct SqliteIndexSummary {
    pub name: String,
    pub unique: bool,
    pub origin: String,
    pub partial: bool,
    pub columns: Vec<String>,
}

/// A table with its columns and indexes.
#[derive(Debug)]
pub struct SqliteTableSummary {
    pub row: TableRow,
    pub columns: Vec<SqliteColumnSummary>,
    pub indexes: Vec<SqliteIndexSummary>,
}

/// What tables are asked for.
#[derive(Debug)]
pub struct TableSelection {
    pub tables: Vec<String>,
    pub name_contains: Vec<String>,
    pub with_shadow_tables: bool,
    pub with_system_tables: bool,
}

impl TableSelection {
    /// Whether a table is asked for.
    pub open spec fn selects(&self, row: TableRow) -> bool {
        &&& self.with_system_tables || !"sqlite_"@.is_prefix_of(row.name@)
        &&& self.with_shadow_tables || row.kind@ != "shadow"@
        &&& self.tables@.len() == 0 || strings::texts(self.tables@).contains(row.name@)
        &&& json_find::holds_all(row.name@, strings::texts(self.name_contains@))
    }

    pub fn is_selected(&self, row: &TableRow) -> (held: bool)
        ensures
            held == self.selects(*row),
    {
        if !self.with_system_tables && starts_with(row.name.as_str(), "sqlite_") {
            return false;
        }
        if !self.with_shadow_tables && same_text(row.kind.as_str(), "shadow") {
            return false;
        }
        if self.tables.len() > 0 && !has_text(&self.tables, row.name.as_str()) {
            return false;
        }
        contains_all(row.name.as_str(), &self.name_contains)
    }
}

/// The model of a table as the database lists it.
#[verifier::ext_equal]
pub struct Table {
    pub schema: Seq<char>,
    pub name: Seq<char>,
    pub kind: Seq<char>,
    pub column_count_declared: i64,
    pub without_rowid: bool,
    pub strict: bool,
}

impl View for TableRow {
    type V = Table;

    open spec fn view(&self) -> Table {
        Table {
            schema: self.schema@,
            name: self.name@,
            kind: self.kind@,
            column_count_declared: self.column_count_declared,
            without_rowid: self.without_rowid,
            strict: self.strict,
        }
    }
}

pub open spec fn table_models(rows: Seq<TableRow>) -> Seq<Table> {
    rows.map_values(|row: TableRow| row@)
}

/// The tables among the first `n` that are asked for, in order.
pub open spec fn asked_tables(rows: Seq<TableRow>, selection: TableSelection, n: nat) -> Seq<Table>
    decreases n,
{
    if n == 0 || n > rows.len() {
        Seq::empty()
    } else {
        let before = asked_tables(rows, selection, (n - 1) as nat);
        if selection.selects(rows[n - 1]) {
            before.push(rows[n - 1]@)
        } else {
            before
        }
    }
}

/// The tables that are asked for: how many there are, and the first of them.
#[derive(Debug)]
pub struct SelectedTables {
    pub total: usize,
    pub tables: Vec<TableRow>,
}

/// The tables that are asked for, as many as are shown, in the database's order.
pub fn select_tables(rows: &[TableRow], selection: &TableSelection, show_tables: usize) -> (selected:
    SelectedTables)
    ensures
        ({
            let asked = asked_tables(rows@, *selection, rows@.len());
            &&& selected.total == asked.len()
            &&& table_models(selected.tables@) == asked.take(
                numbers::least(asked.len(), show_tables as nat) as int,
            )
        }),
{
    let n: usize = rows.len();
    let mut total: usize = 0;
    let mut tables: Vec<TableRow> = Vec::new();
    let mut i: usize = 0;
    assert(table_models(tables@) =~= asked_tables(rows@, *selection, 0).take(0));
    while i < n
        invariant
            i <= n,
            n == rows@.len(),
            total <= i,
            total == asked_tables(rows@, *selection, i as nat).len(),
            tables@.len() == numbers::least(total as nat, show_tables as nat),
            table_models(tables@) == asked_tables(rows@, *selection, i as nat).take(
                tables@.len() as int,
            ),
        decreases n - i,
    {
        let row = &rows[i];
        let ghost before = asked_tables(rows@, *selection, i as nat);
        let ghost after = asked_tables(rows@, *selection, (i + 1) as nat);
        if selection.is_selected(row) {
            if total < show_tables {
                let ghost kept = tables@;
                let copy = TableRow {
                    schema: row.schema.clone(),
                    name: row.name.clone(),
                    kind: row.kind.clone(),
                    column_count_declared: row.column_count_declared,
                    without_rowid: row.without_rowid,
                    strict: row.strict,
                };
                assert(copy@ =~= rows@[i as int]@);
                tables.push(copy);
                assert(table_models(tables@) =~= table_models(kept).push(rows@[i as int]@));
                assert(before.take(total as int) =~= before);
                assert(after.take(total + 1) =~= after);
            } else {
                assert(after.take(tables@.len() as int) =~= before.take(tables@.len() as int));
            }
            total += 1;
        }
        i += 1;
    }
    SelectedTables { total, tables }
}

/// A column as the database lists it.
#[derive(Debug)]
pub struct ColumnRow {
    pub name: String,
    pub declared_type: String,
    pub not_null: bool,
    pub default_value: Option<String>,
    pub primary_key_rank: i64,
    pub hidden: i64,
}

/// A foreign key as the database lists it; a key to another table's primary key may
/// name no column there.
#[derive(Debug)]
pub struct ForeignKeyRow {
    pub from: String,
    pub table: String,
    pub to: Option<String>,
}

pub open spec fn target_of(key: ForeignKeyRow) -> (Seq<char>, Seq<char>) {
    (
        key.table@,
        match key.to {
            Some(to) => to@,
            None => Seq::empty(),
        },
    )
}

/// Where a column points: the last of the first `n` keys from it says so.
pub open spec fn key_from(name: Seq<char>, keys: Seq<ForeignKeyRow>, n: nat) -> Option<
    (Seq<char>, Seq<char>),
>
    decreases n,
{
    if n == 0 || n > keys.len() {
        None
    } else if keys[n - 1].from@ == name {
        Some(target_of(keys[n - 1]))
    } else {
        key_from(name, keys, (n - 1) as nat)
    }
}

pub open spec fn key_model(key: Option<SqliteForeignKeySummary>) -> Option<(Seq<char>, Seq<char>)> {
    match key {
        Some(key) => Some((key.table@, key.column@)),
        None => None,
    }
}

/// Whether a summary is that of a column with these foreign keys.
pub open spec fn summarizes(
    column: SqliteColumnSummary,
    row: ColumnRow,
    keys: Seq<ForeignKeyRow>,
) -> bool {
    &&& column.name@ == row.name@
    &&& column.declared_type@ == row.declared_type@
    &&& column.not_null == row.not_null
    &&& strings::text_option(column.default_value) == strings::text_option(row.default_value)
    &&& column.primary_key_rank == row.primary_key_rank
    &&& column.hidden == row.hidden
    &&& key_model(column.foreign_key) == key_from(row.name@, keys, keys.len())
}

fn find_key(name: &str, keys: &[ForeignKeyRow]) -> (key: Option<SqliteForeignKeySummary>)
    ensures
        key_model(key) == key_from(name@, keys@, keys@.len()),
{
    let mut i: usize = keys.len();
    while i > 0
        invariant
            i <= keys@.len(),
            key_from(name@, keys@, i as nat) == key_from(name@, keys@, keys@.len()),
        decreases i,
    {
        i -= 1;
        if same_text(keys[i].from.as_str(), name) {
            let column = match &keys[i].to {
                Some(to) => to.clone(),
                None => {
                    let empty = String::new();
                    assert(empty@ =~= Seq::empty());
                    empty
                },
            };
            return Some(SqliteForeignKeySummary { table: keys[i].table.clone(), column });
        }
    }
    None
}

/// The columns of a table, each with the foreign key from it.
pub fn summarize_columns(rows: &[ColumnRow], keys: &[ForeignKeyRow]) -> (columns: Vec<
    SqliteColumnSummary,
>)
    ensures
        columns@.len() == rows@.len(),
        forall|i: int|
            0 <= i < rows@.len() ==> summarizes(#[trigger] columns@[i], rows@[i], keys@),
{
    let mut columns: Vec<SqliteColumnSummary> = Vec::new();
    let mut i: usize = 0;
    while i < rows.len()
        invariant
            i <= rows@.len(),
            columns@.len() == i,
            forall|k: int| 0 <= k < i ==> summarizes(#[trigger] columns@[k], rows@[k], keys@),
        decreases rows@.len() - i,
    {
        let row = &rows[i];
        let default_value = match &row.default_value {
            Some(text) => Some(text.clone()),
            None => None,
        };
        let column = SqliteColumnSummary {
            name: row.name.clone(),
            declared_type: row.declared_type.clone(),
            not_null: row.not_null,
            default_value,
            primary_key_rank: row.primary_key_rank,
            hidden: row.hidden,
            foreign_key: find_key(row.name.as_str(), keys),
        };
        assert(summarizes(column, rows@[i as int], keys@));
        columns.push(column);
        i += 1;
    }
    columns
}

/// What is shown of a schema.
#[derive(Debug, Clone, Copy)]
pub struct SchemaLimits {
    pub show_tables: usize,
    pub show_columns: usize,
    pub show_indexes: usize,
    pub show_line_chars: usize,
}

/// A schema is shown in something.
pub fn validate_schema(limits: SchemaLimits) -> (verdict: Result<(), &'static str>)
    ensures
        match verdict {
            Ok(_) => limits.show_tables > 0 && limits.show_line_chars > 0,
            Err(message) => message@ == if limits.show_tables == 0 {
                "sqlite-schema --show-tables must be greater than zero"@
            } else {
                "sqlite-schema --show-line-chars must be greater than zero"@
            } && (limits.show_tables == 0 || limits.show_line_chars == 0),
        },
{
    if limits.show_tables == 0 {
        return Err("sqlite-schema --show-tables must be greater than zero");
    }
    if limits.show_line_chars == 0 {
        return Err("sqlite-schema --show-line-chars must be greater than zero");
    }
    Ok(())
}

/// The name of an indexed column: an expression and the row id have none.
pub fn index_column_name(name: Option<&str>, cid: i64) -> (text: String)
    ensures
        text@ == (match name {
            Some(name) => name@,
            None => if cid == -2 {
                "<expr>"@
            } else if cid == -1 {
                "<rowid>"@
            } else {
                "<unknown>"@
            },
        }),
{
    match name {
        Some(name) => name.to_owned(),
        None => if cid == -2 {
            "<expr>".to_owned()
        } else if cid == -1 {
            "<rowid>".to_owned()
        } else {
            "<unknown>".to_owned()
        },
    }
}

/// How much of a budget the tables before leave: a table takes all that it has, or
/// nothing.
pub open spec fn left_for(
    tables: Seq<SqliteTableSummary>,
    limits: SchemaLimits,
    n: nat,
) -> (nat, nat)
    decreases n,
{
    if n == 0 || n > tables.len() {
        (limits.show_columns as nat, limits.show_indexes as nat)
    } else {
        let (columns, indexes) = left_for(tables, limits, (n - 1) as nat);
        let table = tables[n - 1];
        if table.columns@.len() > columns || table.indexes@.len() > indexes {
            (columns, indexes)
        } else {
            ((columns - table.columns@.len()) as nat, (indexes - table.indexes@.len()) as nat)
        }
    }
}

/// Whether a table is shown without its columns and indexes.
pub open spec fn is_elided(tables: Seq<SqliteTableSummary>, limits: SchemaLimits, i: int) -> bool {
    let (columns, indexes) = left_for(tables, limits, i as nat);
    tables[i].columns@.len() > columns || tables[i].indexes@.len() > indexes
}

/// How many columns and indexes the first `n` tables have, how many of them are
/// shown, and how many tables are shown without.
pub struct SchemaCounts {
    pub columns_total: nat,
    pub columns_shown: nat,
    pub indexes_total: nat,
    pub indexes_shown: nat,
    pub elided: nat,
}

pub open spec fn counts_of(
    tables: Seq<SqliteTableSummary>,
    limits: SchemaLimits,
    n: nat,
) -> SchemaCounts
    decreases n,
{
    if n == 0 || n > tables.len() {
        SchemaCounts {
            columns_total: 0,
            columns_shown: 0,
            indexes_total: 0,
            indexes_shown: 0,
            elided: 0,
        }
    } else {
        let before = counts_of(tables, limits, (n - 1) as nat);
        let table = tables[n - 1];
        let elided = is_elided(tables, limits, n - 1);
        SchemaCounts {
            columns_total: before.columns_total + table.columns@.len(),
            columns_shown: before.columns_shown + if elided {
                0
            } else {
                table.columns@.len()
            },
            indexes_total: before.indexes_total + table.indexes@.len(),
            indexes_shown: before.indexes_shown + if elided {
                0
            } else {
                table.indexes@.len()
            },
            elided: before.elided + if elided {
                1nat
            } else {
                0
            },
        }
    }
}

/// No more columns and indexes are shown than the budgets allow, and a table is
/// shown with all of them or with none.
pub proof fn schema_budgets_hold(tables: Seq<SqliteTableSummary>, limits: SchemaLimits, n: nat)
    requires
        n <= tables.len(),
    ensures
        ({
            let counts = counts_of(tables, limits, n);
            let (columns, indexes) = left_for(tables, limits, n);
            &&& counts.columns_shown + columns == limits.show_columns
            &&& counts.indexes_shown + indexes == limits.show_indexes
            &&& counts.columns_shown <= counts.columns_total
            &&& counts.indexes_shown <= counts.indexes_total
            &&& counts.elided == 0 ==> counts.columns_shown == counts.columns_total
                && counts.indexes_shown == counts.indexes_total
        }),
    decreases n,
{
    if n > 0 {
        schema_budgets_hold(tables, limits, (n - 1) as nat);
    }
}

pub open spec fn foreign_key_json(key: Option<SqliteForeignKeySummary>) -> Json {
    match key {
        Some(key) => Json::Object(
            seq![("table"@, Json::Text(key.table@)), ("column"@, Json::Text(key.column@))],
        ),
        None => Json::Null,
    }
}

pub open spec fn optional_json(text: Option<String>) -> Json {
    match text {
        Some(text) => Json::Text(text@),
        None => Json::Null,
    }
}

pub open spec fn integer_json(n: i64) -> Json {
    Json::Number(numbers::signed_decimal(n as int, None))
}

pub open spec fn column_json(column: SqliteColumnSummary) -> Json {
    Json::Object(
        seq![
            ("name"@, Json::Text(column.name@)),
            ("type"@, Json::Text(column.declared_type@)),
            ("not_null"@, Json::Bool(column.not_null)),
            ("default"@, optional_json(column.default_value)),
            ("primary_key_rank"@, integer_json(column.primary_key_rank)),
            ("hidden"@, integer_json(column.hidden)),
            ("foreign_key"@, foreign_key_json(column.foreign_key)),
        ],
    )
}

fn column_value(column: &SqliteColumnSummary) -> (value: JsonValue)
    ensures
        value@ == column_json(*column),
{
    let mut members: Vec<(String, JsonValue)> = Vec::new();
    assert(json::member_models(members@) =~= Seq::empty());
    add_member(&mut members, "name", json_text(column.name.as_str()));
    add_member(&mut members, "type", json_text(column.declared_type.as_str()));
    add_member(&mut members, "not_null", JsonValue::Bool(column.not_null));
    add_member(&mut members, "default", json_optional_text(&column.default_value));
    add_member(&mut members, "primary_key_rank", json_integer(column.primary_key_rank));
    add_member(&mut members, "hidden", json_integer(column.hidden));
    let key = match &column.foreign_key {
        Some(key) => {
            let mut parts: Vec<(String, JsonValue)> = Vec::new();
            assert(json::member_models(parts@) =~= Seq::empty());
            add_member(&mut parts, "table", json_text(key.table.as_str()));
            add_member(&mut parts, "column", json_text(key.column.as_str()));
            let value = json_object(parts);
            assert(value@->Object_0 =~= foreign_key_json(column.foreign_key)->Object_0);
            value
        },
        None => JsonValue::Null,
    };
    add_member(&mut members, "foreign_key", key);
    let value = json_object(members);
    assert(value@->Object_0 =~= column_json(*column)->Object_0);
    value
}

pub open spec fn index_json(index: SqliteIndexSummary) -> Json {
    Json::Object(
        seq![
            ("name"@, Json::Text(index.name@)),
            ("unique"@, Json::Bool(index.unique)),
            ("origin"@, Json::Text(index.origin@)),
            ("partial"@, Json::Bool(index.partial)),
            ("columns"@, json::text_array(strings::texts(index.columns@))),
        ],
    )
}

fn index_value(index: &SqliteIndexSummary) -> (value: JsonValue)
    ensures
        value@ == index_json(*index),
{
    let mut members: Vec<(String, JsonValue)> = Vec::new();
    assert(json::member_models(members@) =~= Seq::empty());
    add_member(&mut members, "name", json_text(index.name.as_str()));
    add_member(&mut members, "unique", JsonValue::Bool(index.unique));
    add_member(&mut members, "origin", json_text(index.origin.as_str()));
    add_member(&mut members, "partial", JsonValue::Bool(index.partial));
    add_member(&mut members, "columns", json_texts(&index.columns));
    let value = json_object(members);
    assert(value@->Object_0 =~= index_json(*index)->Object_0);
    value
}

pub open spec fn columns_json(columns: Seq<SqliteColumnSummary>, elided: bool) -> Json {
    Json::Array(
        if elided {
            Seq::empty()
        } else {
            columns.map_values(|column: SqliteColumnSummary| column_json(column))
        },
    )
}

pub open spec fn indexes_json(indexes: Seq<SqliteIndexSummary>, elided: bool) -> Json {
    Json::Array(
        if elided {
            Seq::empty()
        } else {
            indexes.map_values(|index: SqliteIndexSummary| index_json(index))
        },
    )
}

fn columns_value(columns: &[SqliteColumnSummary], elided: bool) -> (value: JsonValue)
    ensures
        value@ == columns_json(columns@, elided),
{
    let ghost wanted = columns_json(columns@, elided)->Array_0;
    let bound: usize = if elided {
        0
    } else {
        columns.len()
    };
    let mut items: Vec<JsonValue> = Vec::new();
    let mut i: usize = 0;
    assert(json::item_models(items@) =~= wanted.take(0));
    while i < bound
        invariant
            i <= bound <= columns.len(),
            bound == wanted.len(),
            wanted == columns_json(columns@, elided)->Array_0,
            json::item_models(items@) == wanted.take(i as int),
        decreases bound - i,
    {
        add_item(&mut items, column_value(&columns[i]));
        assert(wanted.take(i + 1) =~= wanted.take(i as int).push(wanted[i as int]));
        i += 1;
    }
    assert(wanted.take(i as int) =~= wanted);
    json_array(items)
}

fn indexes_value(indexes: &[SqliteIndexSummary], elided: bool) -> (value: JsonValue)
    ensures
        value@ == indexes_json(indexes@, elided),
{
    let ghost wanted = indexes_json(indexes@, elided)->Array_0;
    let bound: usize = if elided {
        0
    } else {
        indexes.len()
    };
    let mut items: Vec<JsonValue> = Vec::new();
    let mut i: usize = 0;
    assert(json::item_models(items@) =~= wanted.take(0));
    while i < bound
        invariant
            i <= bound <= indexes.len(),
            bound == wanted.len(),
            wanted == indexes_json(indexes@, elided)->Array_0,
            json::item_models(items@) == wanted.take(i as int),
        decreases bound - i,
    {
        add_item(&mut items, index_value(&indexes[i]));
        assert(wanted.take(i + 1) =~= wanted.take(i as int).push(wanted[i as int]));
        i += 1;
    }
    assert(wanted.take(i as int) =~= wanted);
    json_array(items)
}

pub open spec fn table_json(table: SqliteTableSummary, elided: bool) -> Json {
    Json::Object(
        seq![
            ("schema"@, Json::Text(table.row.schema@)),
            ("name"@, Json::Text(table.row.name@)),
            ("type"@, Json::Text(table.row.kind@)),
            ("ncol"@, integer_json(table.row.column_count_declared)),
            ("strict"@, Json::Bool(table.row.strict)),
            ("without_rowid"@, Json::Bool(table.row.without_rowid)),
            ("columns_total"@, json::count_json(table.columns@.len())),
            ("indexes_total"@, json::count_json(table.indexes@.len())),
            ("detail_elided"@, Json::Bool(elided)),
            ("columns"@, columns_json(table.columns@, elided)),
            ("indexes"@, indexes_json(table.indexes@, elided)),
        ],
    )
}

/// What a receipt says of a table.
pub fn sqlite_table_summary_json(table: &SqliteTableSummary, elided: bool) -> (value: JsonValue)
    ensures
        value@ == table_json(*table, elided),
{
    let mut members: Vec<(String, JsonValue)> = Vec::new();
    assert(json::member_models(members@) =~= Seq::empty());
    add_member(&mut members, "schema", json_text(table.row.schema.as_str()));
    add_member(&mut members, "name", json_text(table.row.name.as_str()));
    add_member(&mut members, "type", json_text(table.row.kind.as_str()));
    add_member(&mut members, "ncol", json_integer(table.row.column_count_declared));
    add_member(&mut members, "strict", JsonValue::Bool(table.row.strict));
    add_member(&mut members, "without_rowid", JsonValue::Bool(table.row.without_rowid));
    add_member(&mut members, "columns_total", json_count(table.columns.len()));
    add_member(&mut members, "indexes_total", json_count(table.indexes.len()));
    add_member(&mut members, "detail_elided", JsonValue::Bool(elided));
    add_member(&mut members, "columns", columns_value(&table.columns, elided));
    add_member(&mut members, "indexes", indexes_value(&table.indexes, elided));
    let value = json_object(members);
    assert(value@->Object_0 =~= table_json(*table, elided)->Object_0);
    value
}

/// A table as it is written.
pub open spec fn table_text(row: TableRow) -> Seq<char> {
    row.schema@ + "."@ + row.name@ + " type="@ + row.kind@ + " ncol="@ + numbers::signed_decimal(
        row.column_count_declared as int,
        None,
    ) + " strict="@ + strings::flag_text(row.strict) + " without_rowid="@ + strings::flag_text(
        row.without_rowid,
    )
}

/// A table as it is written.
pub fn sqlite_table_summary_human(row: &TableRow) -> (text: String)
    ensures
        text@ == table_text(*row),
{
    row.schema.clone().concat(".").concat(row.name.as_str()).concat(" type=").concat(
        row.kind.as_str(),
    ).concat(" ncol=").concat(
        signed_decimal_text(row.column_count_declared, None).as_str(),
    ).concat(" strict=").concat(flag_word(row.strict)).concat(" without_rowid=").concat(
        flag_word(row.without_rowid),
    )
}

/// The parts of a column as it is written.
pub open spec fn column_parts(column: SqliteColumnSummary) -> Seq<Seq<char>> {
    seq![column.name@ + " "@ + column.declared_type@] + (if column.not_null {
        seq!["not_null"@]
    } else {
        Seq::empty()
    }) + (if column.primary_key_rank != 0 {
        seq!["pk#"@ + numbers::signed_decimal(column.primary_key_rank as int, None)]
    } else {
        Seq::empty()
    }) + (if column.hidden != 0 {
        seq!["hidden#"@ + numbers::signed_decimal(column.hidden as int, None)]
    } else {
        Seq::empty()
    }) + (match column.default_value {
        Some(value) => seq!["default="@ + strings::debug_quoted(value@)],
        None => Seq::empty(),
    }) + (match column.foreign_key {
        Some(key) => seq!["fk="@ + key.table@ + "."@ + key.column@],
        None => Seq::empty(),
    })
}

/// A column as it is written.
pub fn sqlite_column_summary_human(column: &SqliteColumnSummary) -> (text: String)
    ensures
        text@ == strings::join_texts(column_parts(*column), " "@),
{
    let mut parts: Vec<String> = Vec::new();
    assert(strings::texts(parts@) =~= Seq::empty());
    push_text(
        &mut parts,
        column.name.clone().concat(" ").concat(column.declared_type.as_str()),
    );
    if column.not_null {
        push_text(&mut parts, "not_null".to_owned());
    }
    if column.primary_key_rank != 0 {
        push_text(
            &mut parts,
            "pk#".to_owned().concat(
                signed_decimal_text(column.primary_key_rank, None).as_str(),
            ),
        );
    }
    if column.hidden != 0 {
        push_text(
            &mut parts,
            "hidden#".to_owned().concat(signed_decimal_text(column.hidden, None).as_str()),
        );
    }
    if let Some(value) = &column.default_value {
        push_text(
            &mut parts,
            "default=".to_owned().concat(debug_text(value.as_str()).as_str()),
        );
    }
    if let Some(key) = &column.foreign_key {
        push_text(
            &mut parts,
            "fk=".to_owned().concat(key.table.as_str()).concat(".").concat(key.column.as_str()),
        );
    }
    assert(strings::texts(parts@) =~= column_parts(*column));
    join(&parts, " ")
}

/// The parts of an index as it is written.
pub open spec fn index_parts(index: SqliteIndexSummary) -> Seq<Seq<char>> {
    seq![
        index.name@ + "("@ + strings::join_texts(strings::texts(index.columns@), ","@) + ")"@,
    ] + (if index.unique {
        seq!["unique"@]
    } else {
        Seq::empty()
    }) + (if index.partial {
        seq!["partial"@]
    } else {
        Seq::empty()
    }) + seq!["origin="@ + index.origin@]
}

/// An index as it is written.
pub fn sqlite_index_summary_human(index: &SqliteIndexSummary) -> (text: String)
    ensures
        text@ == strings::join_texts(index_parts(*index), " "@),
{
    let mut parts: Vec<String> = Vec::new();
    assert(strings::texts(parts@) =~= Seq::empty());
    push_text(
        &mut parts,
        index.name.clone().concat("(").concat(join(&index.columns, ",").as_str()).concat(")"),
    );
    if index.unique {
        push_text(&mut parts, "unique".to_owned());
    }
    if index.partial {
        push_text(&mut parts, "partial".to_owned());
    }
    push_text(&mut parts, "origin=".to_owned().concat(index.origin.as_str()));
    assert(strings::texts(parts@) =~= index_parts(*index));
    join(&parts, " ")
}

/// The columns of a table as they are shown.
pub open spec fn column_lines(columns: Seq<SqliteColumnSummary>, max: nat) -> Seq<Seq<char>> {
    columns.map_values(
        |column: SqliteColumnSummary|
            "  column "@ + output::clamped(
                strings::join_texts(column_parts(column), " "@),
                max,
            ),
    )
}

pub open spec fn index_lines(indexes: Seq<SqliteIndexSummary>, max: nat) -> Seq<Seq<char>> {
    indexes.map_values(
        |index: SqliteIndexSummary|
            "  index "@ + output::clamped(strings::join_texts(index_parts(index), " "@), max),
    )
}

/// A table as it is shown.
#[verifier::opaque]
pub open spec fn table_lines(table: SqliteTableSummary, elided: bool, max: nat) -> Seq<Seq<char>> {
    seq![output::clamped(table_text(table.row), max)] + (if elided {
        seq![
            "  (detail elided: "@ + numbers::decimal(table.columns@.len()) + " columns, "@
                + numbers::decimal(table.indexes@.len())
                + " indexes over budget; rerun with --table "@ + table.row.name@ + ")"@,
        ]
    } else {
        column_lines(table.columns@, max) + index_lines(table.indexes@, max)
    })
}

/// Whether a line of a table is cut to length.
#[verifier::opaque]
pub open spec fn table_is_cut(table: SqliteTableSummary, elided: bool, max: nat) -> bool {
    ||| table_text(table.row).len() > max
    ||| !elided && exists|i: int|
        0 <= i < table.columns@.len() && strings::join_texts(
            column_parts(#[trigger] table.columns@[i]),
            " "@,
        ).len() > max
    ||| !elided && exists|i: int|
        0 <= i < table.indexes@.len() && strings::join_texts(
            index_parts(#[trigger] table.indexes@[i]),
            " "@,
        ).len() > max
}

fn push_table(lines: &mut Vec<String>, table: &SqliteTableSummary, elided: bool, max: usize) -> (cut:
    bool)
    ensures
        strings::texts(final(lines)@) == strings::texts(old(lines)@) + table_lines(
            *table,
            elided,
            max as nat,
        ),
        cut == table_is_cut(*table, elided, max as nat),
{
    proof {
        reveal(table_lines);
        reveal(table_is_cut);
    }
    let ghost before = strings::texts(lines@);
    let head = clamp_text_with_status(sqlite_table_summary_human(&table.row).as_str(), max);
    let mut cut = head.truncated;
    push_text(lines, head.text);
    if elided {
        push_text(
            lines,
            "  (detail elided: ".to_owned().concat(
                count_text(table.columns.len()).as_str(),
            ).concat(" columns, ").concat(count_text(table.indexes.len()).as_str()).concat(
                " indexes over budget; rerun with --table ",
            ).concat(table.row.name.as_str()).concat(")"),
        );
        assert(strings::texts(lines@) =~= before + table_lines(*table, elided, max as nat));
        return cut;
    }
    let ghost start = strings::texts(lines@);
    let ghost wanted = column_lines(table.columns@, max as nat);
    let head_cut = cut;
    let mut columns_cut = false;
    let mut i: usize = 0;
    assert(start + wanted.take(0) =~= start);
    while i < table.columns.len()
        invariant
            i <= table.columns.len(),
            wanted == column_lines(table.columns@, max as nat),
            strings::texts(lines@) == start + wanted.take(i as int),
            columns_cut == exists|k: int|
                0 <= k < i && strings::join_texts(
                    column_parts(#[trigger] table.columns@[k]),
                    " "@,
                ).len() > max,
        decreases table.columns.len() - i,
    {
        let status = clamp_text_with_status(
            sqlite_column_summary_human(&table.columns[i]).as_str(),
            max,
        );
        columns_cut = columns_cut || status.truncated;
        push_text(lines, "  column ".to_owned().concat(status.text.as_str()));
        assert(start + wanted.take(i + 1) =~= (start + wanted.take(i as int)).push(
            wanted[i as int],
        ));
        i += 1;
    }
    assert(wanted.take(i as int) =~= wanted);
    let ghost middle = strings::texts(lines@);
    let ghost rest = index_lines(table.indexes@, max as nat);
    let mut indexes_cut = false;
    let mut k: usize = 0;
    assert(middle + rest.take(0) =~= middle);
    while k < table.indexes.len()
        invariant
            k <= table.indexes.len(),
            rest == index_lines(table.indexes@, max as nat),
            strings::texts(lines@) == middle + rest.take(k as int),
            indexes_cut == exists|j: int|
                0 <= j < k && strings::join_texts(
                    index_parts(#[trigger] table.indexes@[j]),
                    " "@,
                ).len() > max,
        decreases table.indexes.len() - k,
    {
        let status = clamp_text_with_status(
            sqlite_index_summary_human(&table.indexes[k]).as_str(),
            max,
        );
        indexes_cut = indexes_cut || status.truncated;
        push_text(lines, "  index ".to_owned().concat(status.text.as_str()));
        assert(middle + rest.take(k + 1) =~= (middle + rest.take(k as int)).push(rest[k as int]));
        k += 1;
    }
    assert(rest.take(k as int) =~= rest);
    assert(strings::texts(lines@) =~= before + table_lines(*table, elided, max as nat));
    cut = head_cut || columns_cut || indexes_cut;
    cut
}

/// The schema that is reported: the tables that are shown, of those that are asked
/// for.
#[derive(Debug)]
pub struct SchemaReport {
    pub db: String,
    pub limits: SchemaLimits,
    pub total_tables: usize,
    /// The first of them, up to the bound.
    pub tables: Vec<SqliteTableSummary>,
    pub host: Host,
}

/// How many columns and indexes there are, how many are shown, and which tables are
/// shown without.
struct Budget {
    columns_total: usize,
    columns_shown: usize,
    indexes_total: usize,
    indexes_shown: usize,
    elided_total: usize,
    elided: Vec<bool>,
}

impl SchemaReport {
    /// All columns and indexes can be counted.
    pub open spec fn well_formed(&self) -> bool {
        &&& self.tables@.len() == numbers::least(
            self.total_tables as nat,
            self.limits.show_tables as nat,
        )
        &&& self.counts().columns_total <= usize::MAX
        &&& self.counts().indexes_total <= usize::MAX
    }

    pub open spec fn counts(&self) -> SchemaCounts {
        counts_of(self.tables@, self.limits, self.tables@.len())
    }

    /// Whether a line of a table is cut to length.
    pub open spec fn cuts_table(&self, i: int) -> bool {
        table_is_cut(
            self.tables@[i],
            is_elided(self.tables@, self.limits, i),
            self.limits.show_line_chars as nat,
        )
    }

    pub open spec fn cuts_lines(&self) -> bool {
        exists|i: int| 0 <= i < self.tables@.len() && #[trigger] self.cuts_table(i)
    }

    pub open spec fn caps(&self, as_json: bool) -> Seq<output::Cap> {
        let counts = self.counts();
        Seq::empty() + output::when(
            self.tables@.len() < self.total_tables,
            output::output_cap("tables"@, self.limits.show_tables as nat, "--show-tables"@),
        ) + output::when(
            counts.columns_shown < counts.columns_total,
            output::output_cap("columns"@, self.limits.show_columns as nat, "--show-columns"@),
        ) + output::when(
            counts.indexes_shown < counts.indexes_total,
            output::output_cap("indexes"@, self.limits.show_indexes as nat, "--show-indexes"@),
        ) + output::when(
            !as_json && self.cuts_lines(),
            output::output_cap(
                "line_characters"@,
                self.limits.show_line_chars as nat,
                "--show-line-chars"@,
            ),
        )
    }

    pub open spec fn tables_json(&self) -> Json {
        Json::Array(
            Seq::new(
                self.tables@.len(),
                |i: int| table_json(self.tables@[i], is_elided(self.tables@, self.limits, i)),
            ),
        )
    }

    pub open spec fn fields(&self, as_json: bool) -> Seq<(Seq<char>, Json)> {
        let counts = self.counts();
        seq![
            ("db"@, Json::Text(paths::normalized(self.db@, self.host))),
            ("columns_shown"@, json::count_json(counts.columns_shown)),
            ("columns_total"@, json::count_json(counts.columns_total)),
            ("indexes_shown"@, json::count_json(counts.indexes_shown)),
            ("indexes_total"@, json::count_json(counts.indexes_total)),
            ("tables_detail_elided"@, json::count_json(counts.elided)),
        ] + (if as_json {
            seq![("tables"@, self.tables_json())]
        } else {
            Seq::empty()
        })
    }

    pub open spec fn receipt_model(&self, profile: Option<Seq<char>>, as_json: bool) -> ReceiptModel {
        ReceiptModel {
            command: "sqlite-schema"@,
            profile,
            result: output::ResultCount {
                unit: "tables"@,
                total: self.total_tables as nat,
                total_is_lower_bound: false,
                shown: self.tables@.len(),
            },
            caps: self.caps(as_json),
            fields: self.fields(as_json),
        }
    }

    fn budget(&self) -> (budget: Budget)
        requires
            self.well_formed(),
        ensures
            budget.columns_total == self.counts().columns_total,
            budget.columns_shown == self.counts().columns_shown,
            budget.indexes_total == self.counts().indexes_total,
            budget.indexes_shown == self.counts().indexes_shown,
            budget.elided_total == self.counts().elided,
            budget.elided@.len() == self.tables@.len(),
            forall|i: int|
                0 <= i < self.tables@.len() ==> #[trigger] budget.elided@[i] == is_elided(
                    self.tables@,
                    self.limits,
                    i,
                ),
    {
        let ghost tables = self.tables@;
        let mut budget = Budget {
            columns_total: 0,
            columns_shown: 0,
            indexes_total: 0,
            indexes_shown: 0,
            elided_total: 0,
            elided: Vec::new(),
        };
        let mut columns_left: usize = self.limits.show_columns;
        let mut indexes_left: usize = self.limits.show_indexes;
        let mut i: usize = 0;
        while i < self.tables.len()
            invariant
                i <= self.tables.len(),
                tables == self.tables@,
                self.well_formed(),
                (columns_left as nat, indexes_left as nat) == left_for(
                    tables,
                    self.limits,
                    i as nat,
                ),
                budget.columns_total == counts_of(tables, self.limits, i as nat).columns_total,
                budget.columns_shown == counts_of(tables, self.limits, i as nat).columns_shown,
                budget.indexes_total == counts_of(tables, self.limits, i as nat).indexes_total,
                budget.indexes_shown == counts_of(tables, self.limits, i as nat).indexes_shown,
                budget.elided_total == counts_of(tables, self.limits, i as nat).elided,
                budget.elided_total <= i,
                budget.elided@.len() == i,
                forall|k: int|
                    0 <= k < i ==> #[trigger] budget.elided@[k] == is_elided(
                        tables,
                        self.limits,
                        k,
                    ),
            decreases self.tables.len() - i,
        {
            proof {
                lemma_totals_grow(tables, self.limits, (i + 1) as nat, tables.len());
                schema_budgets_hold(tables, self.limits, i as nat);
                schema_budgets_hold(tables, self.limits, (i + 1) as nat);
            }
            let columns = self.tables[i].columns.len();
            let indexes = self.tables[i].indexes.len();
            let elided = columns > columns_left || indexes > indexes_left;
            budget.columns_total = budget.columns_total + columns;
            budget.indexes_total = budget.indexes_total + indexes;
            if elided {
                budget.elided_total = budget.elided_total + 1;
            } else {
                budget.columns_shown = budget.columns_shown + columns;
                budget.indexes_shown = budget.indexes_shown + indexes;
                columns_left -= columns;
                indexes_left -= indexes;
            }
            budget.elided.push(elided);
            i += 1;
        }
        budget
    }

    fn tables_value(&self, elided: &Vec<bool>) -> (value: JsonValue)
        requires
            elided@.len() == self.tables@.len(),
            forall|i: int|
                0 <= i < self.tables@.len() ==> #[trigger] elided@[i] == is_elided(
                    self.tables@,
                    self.limits,
                    i,
                ),
        ensures
            value@ == self.tables_json(),
    {
        let ghost wanted = self.tables_json()->Array_0;
        let mut items: Vec<JsonValue> = Vec::new();
        let mut i: usize = 0;
        assert(json::item_models(items@) =~= wanted.take(0));
        while i < self.tables.len()
            invariant
                i <= self.tables.len(),
                elided@.len() == self.tables@.len(),
                forall|i: int|
                    0 <= i < self.tables@.len() ==> #[trigger] elided@[i] == is_elided(
                        self.tables@,
                        self.limits,
                        i,
                    ),
                wanted == self.tables_json()->Array_0,
                json::item_models(items@) == wanted.take(i as int),
            decreases self.tables.len() - i,
        {
            let without = elided[i];
            add_item(&mut items, sqlite_table_summary_json(&self.tables[i], without));
            assert(wanted.take(i + 1) =~= wanted.take(i as int).push(wanted[i as int]));
            i += 1;
        }
        assert(wanted.take(i as int) =~= wanted);
        json_array(items)
    }

    /// The lines of the first `n` tables.
    pub open spec fn lines_of(&self, n: nat) -> Seq<Seq<char>>
        decreases n,
    {
        if n == 0 {
            Seq::empty()
        } else {
            self.lines_of((n - 1) as nat) + table_lines(
                self.tables@[n - 1],
                is_elided(self.tables@, self.limits, n - 1),
                self.limits.show_line_chars as nat,
            )
        }
    }

    fn push_tables(&self, lines: &mut Vec<String>, elided: &Vec<bool>) -> (cut: bool)
        requires
            elided@.len() == self.tables@.len(),
            forall|i: int|
                0 <= i < self.tables@.len() ==> #[trigger] elided@[i] == is_elided(
                    self.tables@,
                    self.limits,
                    i,
                ),
        ensures
            strings::texts(final(lines)@) == strings::texts(old(lines)@) + self.lines_of(
                self.tables@.len(),
            ),
            cut == self.cuts_lines(),
    {
        let ghost before = strings::texts(lines@);
        let mut cut = false;
        let mut i: usize = 0;
        assert(before + self.lines_of(0) =~= before);
        while i < self.tables.len()
            invariant
                i <= self.tables.len(),
                elided@.len() == self.tables@.len(),
                forall|i: int|
                    0 <= i < self.tables@.len() ==> #[trigger] elided@[i] == is_elided(
                        self.tables@,
                        self.limits,
                        i,
                    ),
                strings::texts(lines@) == before + self.lines_of(i as nat),
                cut == exists|k: int| 0 <= k < i && #[trigger] self.cuts_table(k),
            decreases self.tables.len() - i,
        {
            let without = elided[i];
            let ghost done = strings::texts(lines@);
            let table_cut = push_table(
                lines,
                &self.tables[i],
                without,
                self.limits.show_line_chars,
            );
            assert(table_cut == self.cuts_table(i as int));
            cut = cut || table_cut;
            assert(strings::texts(lines@) =~= before + self.lines_of((i + 1) as nat));
            i += 1;
        }
        cut
    }

    fn members(&self, budget: &Budget, as_json: bool) -> (members: Vec<(String, JsonValue)>)
        requires
            budget.columns_total == self.counts().columns_total,
            budget.columns_shown == self.counts().columns_shown,
            budget.indexes_total == self.counts().indexes_total,
            budget.indexes_shown == self.counts().indexes_shown,
            budget.elided_total == self.counts().elided,
            budget.elided@.len() == self.tables@.len(),
            forall|i: int|
                0 <= i < self.tables@.len() ==> #[trigger] budget.elided@[i] == is_elided(
                    self.tables@,
                    self.limits,
                    i,
                ),
        ensures
            json::member_models(members@) == self.fields(as_json),
    {
        let mut members: Vec<(String, JsonValue)> = Vec::new();
        assert(json::member_models(members@) =~= Seq::empty());
        add_member(
            &mut members,
            "db",
            json_text(display_path(self.db.as_str(), self.host).as_str()),
        );
        add_member(&mut members, "columns_shown", json_count(budget.columns_shown));
        add_member(&mut members, "columns_total", json_count(budget.columns_total));
        add_member(&mut members, "indexes_shown", json_count(budget.indexes_shown));
        add_member(&mut members, "indexes_total", json_count(budget.indexes_total));
        add_member(&mut members, "tables_detail_elided", json_count(budget.elided_total));
        if as_json {
            add_member(&mut members, "tables", self.tables_value(&budget.elided));
        }
        assert(json::member_models(members@) =~= self.fields(as_json));
        members
    }

    proof fn lemma_names(&self, as_json: bool)
        ensures
            output::fresh_names(output::field_names(self.fields(as_json))),
    {
        lemma_schema_fields();
        output::lemma_fresh_without(schema_fields(), 6);
        let names = output::field_names(self.fields(as_json));
        if as_json {
            assert(names =~= schema_fields());
        } else {
            assert(names =~= schema_fields().remove(6));
        }
    }

    /// The receipt of the schema; as JSON it holds the tables.
    pub fn receipt(&self, profile: Option<&str>, as_json: bool) -> (receipt: Receipt)
        requires
            self.well_formed(),
        ensures
            receipt.model() == self.receipt_model(strings::opt_text(profile), as_json),
            receipt.model().well_formed(),
    {
        let budget = self.budget();
        let mut scratch: Vec<String> = Vec::new();
        let cut = self.push_tables(&mut scratch, &budget.elided);
        let mut receipt = Receipt::new(
            "sqlite-schema",
            profile,
            ReceiptResult::new("tables", self.total_tables, false, self.tables.len()),
        );
        receipt.add_cap_if(
            self.tables.len() < self.total_tables,
            ReceiptCap::output("tables", Some(self.limits.show_tables), "--show-tables"),
        );
        receipt.add_cap_if(
            budget.columns_shown < budget.columns_total,
            ReceiptCap::output("columns", Some(self.limits.show_columns), "--show-columns"),
        );
        receipt.add_cap_if(
            budget.indexes_shown < budget.indexes_total,
            ReceiptCap::output("indexes", Some(self.limits.show_indexes), "--show-indexes"),
        );
        receipt.add_cap_if(
            !as_json && cut,
            ReceiptCap::output(
                "line_characters",
                Some(self.limits.show_line_chars),
                "--show-line-chars",
            ),
        );
        assert(receipt.model().caps == self.caps(as_json));
        let members = self.members(&budget, as_json);
        proof {
            self.lemma_names(as_json);
        }
        receipt.insert_all(members);
        receipt
    }

    /// What is shown, line by line.
    pub open spec fn shown_lines(&self) -> Seq<Seq<char>> {
        seq!["[contextmink] sqlite-schema db="@ + paths::normalized(self.db@, self.host)] + (
        if self.tables@.len() == 0 {
            seq!["no_tables"@]
        } else {
            Seq::empty()
        }) + self.lines_of(self.tables@.len()) + (if self.receipt_model(None, false).complete() {
            Seq::empty()
        } else {
            seq![
                "[contextmink] capped sqlite schema output at tables="@ + numbers::decimal(
                    self.limits.show_tables as nat,
                ) + " columns="@ + numbers::decimal(self.limits.show_columns as nat)
                    + " indexes="@ + numbers::decimal(self.limits.show_indexes as nat)
                    + "; narrow with --table or --name-contains."@,
            ]
        })
    }

    /// What is shown, line by line.
    pub fn lines(&self) -> (lines: Vec<String>)
        requires
            self.well_formed(),
        ensures
            strings::texts(lines@) == self.shown_lines(),
    {
        let budget = self.budget();
        let mut lines: Vec<String> = Vec::new();
        assert(strings::texts(lines@) =~= Seq::empty());
        push_text(
            &mut lines,
            "[contextmink] sqlite-schema db=".to_owned().concat(
                display_path(self.db.as_str(), self.host).as_str(),
            ),
        );
        if self.tables.len() == 0 {
            push_text(&mut lines, "no_tables".to_owned());
        }
        let _ = self.push_tables(&mut lines, &budget.elided);
        let receipt = self.receipt(None, false);
        if !receipt.complete() {
            push_text(
                &mut lines,
                "[contextmink] capped sqlite schema output at tables=".to_owned().concat(
                    count_text(self.limits.show_tables).as_str(),
                ).concat(" columns=").concat(
                    count_text(self.limits.show_columns).as_str(),
                ).concat(" indexes=").concat(
                    count_text(self.limits.show_indexes).as_str(),
                ).concat("; narrow with --table or --name-contains."),
            );
        }
        assert(strings::texts(lines@) =~= self.shown_lines());
        lines
    }
}

proof fn lemma_totals_grow(
    tables: Seq<SqliteTableSummary>,
    limits: SchemaLimits,
    n: nat,
    m: nat,
)
    requires
        n <= m <= tables.len(),
    ensures
        counts_of(tables, limits, n).columns_total <= counts_of(tables, limits, m).columns_total,
        counts_of(tables, limits, n).indexes_total <= counts_of(tables, limits, m).indexes_total,
    decreases m - n,
{
    if n < m {
        lemma_totals_grow(tables, limits, n, (m - 1) as nat);
    }
}

pub open spec fn schema_fields() -> Seq<Seq<char>> {
    seq![
        "db"@,
        "columns_shown"@,
        "columns_total"@,
        "indexes_shown"@,
        "indexes_total"@,
        "tables_detail_elided"@,
        "tables"@,
    ]
}

/// The field names can stand beside each other.
proof fn lemma_schema_fields()
    ensures
        output::fresh_names(schema_fields()),
{
    reveal_strlit("schema");
    reveal_strlit("tool");
    reveal_strlit("command");
    reveal_strlit("profile");
    reveal_strlit("duration_ms");
    reveal_strlit("scope_complete");
    reveal_strlit("output_truncated");
    reveal_strlit("complete");
    reveal_strlit("caps");
    reveal_strlit("result");
    reveal_strlit("output_cap_arguments");
    reveal_strlit("db");
    reveal_strlit("columns_shown");
    reveal_strlit("columns_total");
    reveal_strlit("indexes_shown");
    reveal_strlit("indexes_total");
    reveal_strlit("tables_detail_elided");
    reveal_strlit("tables");
    assert("caps"@.len() == 4);
    assert("columns_shown"@.len() == 13);
    assert("columns_shown"@[0] == 'c');
    assert("columns_shown"@[8] == 's');
    assert("columns_total"@.len() == 13);
    assert("columns_total"@[0] == 'c');
    assert("columns_total"@[8] == 't');
    assert("command"@.len() == 7);
    assert("complete"@.len() == 8);
    assert("db"@.len() == 2);
    assert("duration_ms"@.len() == 11);
    assert("indexes_shown"@.len() == 13);
    assert("indexes_shown"@[0] == 'i');
    assert("indexes_shown"@[8] == 's');
    assert("indexes_total"@.len() == 13);
    assert("indexes_total"@[0] == 'i');
    assert("indexes_total"@[8] == 't');
    assert("output_cap_arguments"@.len() == 20);
    assert("output_cap_arguments"@[0] == 'o');
    assert("output_truncated"@.len() == 16);
    assert("profile"@.len() == 7);
    assert("result"@.len() == 6);
    assert("result"@[0] == 'r');
    assert("schema"@.len() == 6);
    assert("schema"@[0] == 's');
    assert("scope_complete"@.len() == 14);
    assert("tables"@.len() == 6);
    assert("tables"@[0] == 't');
    assert("tables_detail_elided"@.len() == 20);
    assert("tables_detail_elided"@[0] == 't');
    assert("tool"@.len() == 4);
}

/// A table is listed if and only if it is asked for: a further part that its name is to
/// hold only narrows the list, a further name that is asked for only widens it, and so
/// does asking for the tables of the system or of other tables.
pub proof fn table_selections_narrow_and_widen(
    less: TableSelection,
    more: TableSelection,
    row: TableRow,
)
    ensures
        // Fewer parts to hold.
        more.with_system_tables == less.with_system_tables && more.with_shadow_tables
            == less.with_shadow_tables && more.tables@ == less.tables@
            && more.name_contains@.is_prefix_of(less.name_contains@) && less.selects(row)
            ==> more.selects(row),
        // More names to choose from.
        more.with_system_tables == less.with_system_tables && more.with_shadow_tables
            == less.with_shadow_tables && more.name_contains@ == less.name_contains@
            && less.tables@.len() > 0 && less.tables@.is_prefix_of(more.tables@) && less.selects(
            row,
        ) ==> more.selects(row),
        // More kinds.
        (less.with_system_tables ==> more.with_system_tables) && (less.with_shadow_tables
            ==> more.with_shadow_tables) && more.tables@ == less.tables@ && more.name_contains@
            == less.name_contains@ && less.selects(row) ==> more.selects(row),
{
    let fewer = strings::texts(more.name_contains@);
    let parts = strings::texts(less.name_contains@);
    if more.name_contains@.is_prefix_of(less.name_contains@) && less.selects(row) {
        assert forall|i: int| 0 <= i < fewer.len() implies strings::contains_text(
            row.name@,
            #[trigger] fewer[i],
        ) by {
            assert(more.name_contains@[i] == less.name_contains@[i]);
            assert(fewer[i] == parts[i]);
        }
    }
    if less.tables@.is_prefix_of(more.tables@) && less.tables@.len() > 0 && less.selects(row) {
        let names = strings::texts(less.tables@);
        let i = names.index_of(row.name@);
        assert(less.tables@[i] == more.tables@[i]);
        assert(strings::texts(more.tables@)[i] == row.name@);
    }
}

/// Each condition on tables holds of every table that is listed: it is one of those
/// named, if any are, its name holds every part, and it belongs to the system or to
/// another table only where such tables are asked for.
pub proof fn listed_tables_meet_each_condition(selection: TableSelection, row: TableRow, i: int)
    requires
        selection.selects(row),
    ensures
        0 <= i < selection.name_contains@.len() ==> (exists|before: Seq<char>, behind: Seq<char>|
            row.name@ == #[trigger] (before + selection.name_contains@[i]@ + behind)),
        selection.tables@.len() > 0 ==> (exists|k: int|
            0 <= k < selection.tables@.len() && (#[trigger] selection.tables@[k])@ == row.name@),
        row.kind@ == "shadow"@ ==> selection.with_shadow_tables,
        !selection.with_system_tables && row.name@.len() >= 7 ==> row.name@.take(7) != seq![
            's',
            'q',
            'l',
            'i',
            't',
            'e',
            '_',
        ],
{
    if 0 <= i < selection.name_contains@.len() {
        let parts = strings::texts(selection.name_contains@);
        assert(parts[i] == selection.name_contains@[i]@);
        strings::holding_is_a_split(row.name@, parts[i]);
    }
    if selection.tables@.len() > 0 {
        let names = strings::texts(selection.tables@);
        assert(names.len() == selection.tables@.len());
        let k = names.index_of(row.name@);
        assert(selection.tables@[k]@ == row.name@);
    }
    reveal_strlit("sqlite_");
    let system = seq!['s', 'q', 'l', 'i', 't', 'e', '_'];
    assert("sqlite_"@ =~= system);
}

/// The tables that are listed are those that are asked for, in their order.
pub proof fn every_table_asked_for_is_listed(
    rows: Seq<TableRow>,
    selection: TableSelection,
    n: nat,
    i: int,
)
    requires
        n <= rows.len(),
    ensures
        0 <= i < n && selection.selects(rows[i]) ==> asked_tables(rows, selection, n).contains(
            rows[i]@,
        ),
        0 <= i < asked_tables(rows, selection, n).len() ==> (exists|k: int|
            0 <= k < n && selection.selects(#[trigger] rows[k]) && rows[k]@ == asked_tables(
                rows,
                selection,
                n,
            )[i]),
    decreases n,
{
    if n > 0 {
        every_table_asked_for_is_listed(rows, selection, (n - 1) as nat, i);
        let before = asked_tables(rows, selection, (n - 1) as nat);
        let all = asked_tables(rows, selection, n);
        if 0 <= i < n && selection.selects(rows[i]) {
            if i < n - 1 {
                let k = before.index_of(rows[i]@);
                assert(all[k] == rows[i]@);
            } else {
                assert(all.last() == rows[i]@);
            }
        }
        if 0 <= i < all.len() {
            if i < before.len() {
                assert(all[i] == before[i]);
            } else {
                assert(selection.selects(rows[n - 1]));
            }
        }
    }
}

/// A column points where a foreign key from it says, and nowhere without one.
pub proof fn columns_point_where_their_keys_say(name: Seq<char>, keys: Seq<ForeignKeyRow>, n: nat)
    requires
        n <= keys.len(),
    ensures
        key_from(name, keys, n) is None <==> (forall|i: int|
            0 <= i < n ==> (#[trigger] keys[i]).from@ != name),
        key_from(name, keys, n) matches Some(target) ==> (exists|i: int|
            0 <= i < n && (#[trigger] keys[i]).from@ == name && keys[i].table@ == target.0),
    decreases n,
{
    if n > 0 {
        columns_point_where_their_keys_say(name, keys, (n - 1) as nat);
    }
}

} // verus!
