//! What is reported of the rows of a query.
use vstd::prelude::*;

use crate::json;
use crate::json::{
    add_item, add_member, json_array, json_count, json_number, json_object, json_text, json_texts,
    Json, JsonValue,
};
use crate::numbers;
use crate::numbers::{count_text, decimal_text, signed_decimal_text};
use crate::output;
use crate::output::{
    clamp_text_with_status, ClampedText, Receipt, ReceiptCap, ReceiptModel, ReceiptResult,
};
use crate::paths;
use crate::paths::{display_path, Host};
use crate::sqlite_params::ParamFormat;
use crate::strings;
use crate::strings::{debug_text, join, push_text, same_text, trim_of, utf8_text};

verus! {

/// What bounds a query and what is shown of it.
#[derive(Debug, Clone, Copy)]
pub struct SqliteLimits {
    pub show_rows: usize,
    pub max_rows_scanned: usize,
    pub max_param_bytes: u64,
    pub show_value_chars: usize,
}

/// Why a query is not run.
#[derive(Debug, Clone, Copy, PartialEq, Eq, Structural)]
pub enum SqliteFault {
    ZeroRows,
    ZeroRowsScanned,
    /// Fewer rows would be scanned than shown.
    ScannedBelowShown,
    ZeroParamBytes,
    ZeroValueChars,
    EmptySql,
    /// The SQL holds a NUL character.
    NulByte,
    /// The statement has parameters, and nothing is bound.
    NothingBound,
    NotReadOnly,
}

impl SqliteFault {
    pub open spec fn text(self) -> Seq<char> {
        match self {
            SqliteFault::ZeroRows => "sqlite --show-rows must be greater than zero"@,
            SqliteFault::ZeroRowsScanned => "sqlite --max-rows-scanned must be greater than zero"@,
            SqliteFault::ScannedBelowShown =>
                "sqlite --max-rows-scanned must be greater than or equal to --show-rows"@,
            SqliteFault::ZeroParamBytes => "sqlite --max-param-bytes must be greater than zero"@,
            SqliteFault::ZeroValueChars => "sqlite --show-value-chars must be greater than zero"@,
            SqliteFault::EmptySql => "sqlite SQL must not be empty"@,
            SqliteFault::NulByte => "sqlite SQL must not contain NUL bytes"@,
            SqliteFault::NothingBound =>
                "sqlite query contains parameters; bind named JSON inputs with --json-param or --jsonl-param"@,
            SqliteFault::NotReadOnly => "sqlite command only accepts read-only statements"@,
        }
    }

    pub fn message(self) -> (message: &'static str)
        ensures
            message@ == self.text(),
    {
        match self {
            SqliteFault::ZeroRows => "sqlite --show-rows must be greater than zero",
            SqliteFault::ZeroRowsScanned => "sqlite --max-rows-scanned must be greater than zero",
            SqliteFault::ScannedBelowShown =>
                "sqlite --max-rows-scanned must be greater than or equal to --show-rows",
            SqliteFault::ZeroParamBytes => "sqlite --max-param-bytes must be greater than zero",
            SqliteFault::ZeroValueChars => "sqlite --show-value-chars must be greater than zero",
            SqliteFault::EmptySql => "sqlite SQL must not be empty",
            SqliteFault::NulByte => "sqlite SQL must not contain NUL bytes",
            SqliteFault::NothingBound =>
                "sqlite query contains parameters; bind named JSON inputs with --json-param or --jsonl-param",
            SqliteFault::NotReadOnly => "sqlite command only accepts read-only statements",
        }
    }
}

impl SqliteLimits {
    pub open spec fn fault(self) -> Option<SqliteFault> {
        if self.show_rows == 0 {
            Some(SqliteFault::ZeroRows)
        } else if self.max_rows_scanned == 0 {
            Some(SqliteFault::ZeroRowsScanned)
        } else if self.max_rows_scanned < self.show_rows {
            Some(SqliteFault::ScannedBelowShown)
        } else if self.max_param_bytes == 0 {
            Some(SqliteFault::ZeroParamBytes)
        } else if self.show_value_chars == 0 {
            Some(SqliteFault::ZeroValueChars)
        } else {
            None
        }
    }

    pub fn validate(&self) -> (verdict: Result<(), SqliteFault>)
        ensures
            match verdict {
                Ok(_) => self.fault() is None,
                Err(fault) => self.fault() == Some(fault),
            },
    {
        if self.show_rows == 0 {
            return Err(SqliteFault::ZeroRows);
        }
        if self.max_rows_scanned == 0 {
            return Err(SqliteFault::ZeroRowsScanned);
        }
        if self.max_rows_scanned < self.show_rows {
            return Err(SqliteFault::ScannedBelowShown);
        }
        if self.max_param_bytes == 0 {
            return Err(SqliteFault::ZeroParamBytes);
        }
        if self.show_value_chars == 0 {
            return Err(SqliteFault::ZeroValueChars);
        }
        Ok(())
    }
}

/// SQL is not blank.
pub fn validate_sql(sql: &str) -> (verdict: Result<(), SqliteFault>)
    ensures
        match verdict {
            Ok(_) => strings::trim(sql@).len() > 0,
            Err(fault) => fault == SqliteFault::EmptySql && strings::trim(sql@).len() == 0,
        },
{
    if trim_of(sql).as_str().is_empty() {
        Err(SqliteFault::EmptySql)
    } else {
        Ok(())
    }
}

/// SQL is not cut short by a NUL.
pub fn reject_nul_bytes(sql: &str) -> (verdict: Result<(), SqliteFault>)
    ensures
        match verdict {
            Ok(_) => !sql@.contains('\0'),
            Err(fault) => fault == SqliteFault::NulByte && sql@.contains('\0'),
        },
{
    let chars = strings::chars_of(sql);
    let mut i: usize = 0;
    while i < chars.len()
        invariant
            i <= chars.len(),
            chars@ == sql@,
            forall|k: int| 0 <= k < i ==> chars@[k] != '\0',
        decreases chars.len() - i,
    {
        if chars[i] == '\0' {
            assert(sql@[i as int] == '\0');
            return Err(SqliteFault::NulByte);
        }
        i += 1;
    }
    Ok(())
}

/// What SQLite says of a statement once it is prepared decides whether it is run.
pub fn validate_statement(parameters: usize, bindings: usize, read_only: bool) -> (verdict: Result<
    (),
    SqliteFault,
>)
    ensures
        match verdict {
            Ok(_) => (parameters == 0 || bindings > 0) && read_only,
            Err(SqliteFault::NothingBound) => parameters > 0 && bindings == 0,
            Err(SqliteFault::NotReadOnly) => (parameters == 0 || bindings > 0) && !read_only,
            Err(_) => false,
        },
{
    if parameters != 0 && bindings == 0 {
        return Err(SqliteFault::NothingBound);
    }
    if !read_only {
        return Err(SqliteFault::NotReadOnly);
    }
    Ok(())
}

/// Refuses SQL that does not hold exactly one statement.
pub fn reject_multiple_sqlite_statements(statements: usize) -> (refusal: Option<String>)
    ensures
        strings::text_option(refusal) == (if statements == 1 {
            None
        } else {
            Some(
                "sqlite accepts exactly one executable read-only statement; found "@
                    + numbers::decimal(statements as nat),
            )
        }),
{
    if statements == 1 {
        None
    } else {
        Some(
            "sqlite accepts exactly one executable read-only statement; found ".to_owned().concat(
                count_text(statements).as_str(),
            ),
        )
    }
}

/// What to say of SQL that SQLite does not accept: its own words, and where it
/// stopped; `error_offset`, if it is not negative, counts from `offset` on.
pub fn sqlite_validation_error(offset: usize, error_offset: i32, detail: &str, status: i32) -> (message:
    String)
    requires
        offset + error_offset <= usize::MAX,
    ensures
        message@ == "failed to validate sqlite SQL "@ + (if error_offset >= 0 {
            "at byte "@ + numbers::decimal((offset + error_offset) as nat)
        } else {
            "from byte "@ + numbers::decimal(offset as nat)
        }) + ": "@ + detail@ + " (SQLite status "@ + numbers::signed_decimal(status as int, None)
            + ")"@,
{
    let location = if error_offset >= 0 {
        "at byte ".to_owned().concat(count_text(offset + error_offset as usize).as_str())
    } else {
        "from byte ".to_owned().concat(count_text(offset).as_str())
    };
    "failed to validate sqlite SQL ".to_owned().concat(location.as_str()).concat(": ").concat(
        detail,
    ).concat(" (SQLite status ").concat(
        signed_decimal_text(status as i64, None).as_str(),
    ).concat(")")
}

/// What to say of a row that could not be read.
pub fn annotate_interrupt(interrupted: bool, timeout_secs: u64) -> (message: String)
    ensures
        message@ == (if interrupted {
            "sqlite query interrupted after --timeout-secs "@ + numbers::decimal(
                timeout_secs as nat,
            )
                + "; narrow the query (WHERE/LIMIT) or raise --timeout-secs (0 disables)"@
        } else {
            "failed to read sqlite row"@
        }),
{
    if interrupted {
        "sqlite query interrupted after --timeout-secs ".to_owned().concat(
            decimal_text(timeout_secs).as_str(),
        ).concat("; narrow the query (WHERE/LIMIT) or raise --timeout-secs (0 disables)")
    } else {
        "failed to read sqlite row".to_owned()
    }
}

/// A value of a row; a real number comes as it is written.
#[derive(Debug)]
pub enum SqliteValue {
    Null,
    Integer(i64),
    Real { text: String },
    Text { bytes: Vec<u8> },
    Blob { length: usize },
}

/// The model of a value of a row.
pub enum Cell {
    Null,
    Integer(int),
    Real(Seq<char>),
    Text(Seq<u8>),
    Blob(nat),
}

impl View for SqliteValue {
    type V = Cell;

    open spec fn view(&self) -> Cell {
        match self {
            SqliteValue::Null => Cell::Null,
            SqliteValue::Integer(n) => Cell::Integer(*n as int),
            SqliteValue::Real { text } => Cell::Real(text@),
            SqliteValue::Text { bytes } => Cell::Text(bytes@),
            SqliteValue::Blob { length } => Cell::Blob(*length as nat),
        }
    }
}

pub open spec fn value_models(values: Seq<SqliteValue>) -> Seq<Cell> {
    values.map_values(|value: SqliteValue| value@)
}

/// A value as it is written, before it is cut to length; a text is cut inside its
/// quotes.
pub open spec fn written(value: Cell, max: nat) -> Seq<char> {
    match value {
        Cell::Null => "null"@,
        Cell::Integer(n) => numbers::signed_decimal(n, None),
        Cell::Real(text) => text,
        Cell::Text(bytes) => if vstd::utf8::valid_utf8(bytes) {
            strings::debug_quoted(
                output::clamped(vstd::utf8::decode_utf8(bytes), numbers::minus(max, 2)),
            )
        } else {
            "<invalid-utf8-text:"@ + numbers::decimal(bytes.len()) + " bytes>"@
        },
        Cell::Blob(length) => "<blob:"@ + numbers::decimal(length) + " bytes>"@,
    }
}

/// Whether a value is cut to length.
pub open spec fn is_cut(value: Cell, max: nat) -> bool {
    written(value, max).len() > max || (value is Text && vstd::utf8::valid_utf8(value->Text_0)
        && vstd::utf8::decode_utf8(value->Text_0).len() > numbers::minus(max, 2))
}

/// A value as it is shown.
pub open spec fn shown_value(value: Cell, max: nat) -> Seq<char> {
    output::clamped(written(value, max), max)
}

/// A value as it is shown, and whether it is cut to length.
pub fn sqlite_value_summary(value: &SqliteValue, max_chars: usize) -> (summary: ClampedText)
    ensures
        summary.text@ == shown_value(value@, max_chars as nat),
        summary.truncated == is_cut(value@, max_chars as nat),
{
    match value {
        SqliteValue::Null => clamp_text_with_status("null", max_chars),
        SqliteValue::Integer(n) => clamp_text_with_status(
            signed_decimal_text(*n, None).as_str(),
            max_chars,
        ),
        SqliteValue::Real { text } => clamp_text_with_status(text.as_str(), max_chars),
        SqliteValue::Text { bytes } => match utf8_text(bytes) {
            Some(text) => {
                let inner = clamp_text_with_status(text.as_str(), numbers::cut_off(max_chars, 2));
                let outer = clamp_text_with_status(
                    debug_text(inner.text.as_str()).as_str(),
                    max_chars,
                );
                ClampedText { text: outer.text, truncated: outer.truncated || inner.truncated }
            },
            None => clamp_text_with_status(
                "<invalid-utf8-text:".to_owned().concat(count_text(bytes.len()).as_str()).concat(
                    " bytes>",
                ).as_str(),
                max_chars,
            ),
        },
        SqliteValue::Blob { length } => clamp_text_with_status(
            "<blob:".to_owned().concat(count_text(*length).as_str()).concat(" bytes>").as_str(),
            max_chars,
        ),
    }
}

/// The values of a row as they are shown.
pub open spec fn shown_row(row: Seq<Cell>, max: nat) -> Seq<Seq<char>> {
    row.map_values(|value: Cell| shown_value(value, max))
}

pub open spec fn row_is_cut(row: Seq<Cell>, max: nat) -> bool {
    exists|i: int| 0 <= i < row.len() && is_cut(#[trigger] row[i], max)
}

pub open spec fn shown_rows(rows: Seq<Seq<Cell>>, max: nat) -> Seq<Seq<Seq<char>>> {
    rows.map_values(|row: Seq<Cell>| shown_row(row, max))
}

/// The rows that are shown: the first so many.
pub open spec fn kept_rows(rows: Seq<Seq<Cell>>, show: nat) -> Seq<Seq<Cell>> {
    rows.take(numbers::least(rows.len(), show) as int)
}

pub open spec fn some_row_is_cut(rows: Seq<Seq<Cell>>, max: nat) -> bool {
    exists|i: int| 0 <= i < rows.len() && row_is_cut(#[trigger] rows[i], max)
}

pub open spec fn row_texts(rows: Seq<Vec<String>>) -> Seq<Seq<Seq<char>>> {
    rows.map_values(|row: Vec<String>| strings::texts(row@))
}

/// The rows of a query, as far as they have been read.
pub struct SqliteRows {
    pub limits: SqliteLimits,
    pub rows: Vec<Vec<String>>,
    pub total_seen: usize,
    pub cut: bool,
    pub seen: Ghost<Seq<Seq<Cell>>>,
}

impl SqliteRows {
    pub open spec fn well_formed(&self) -> bool {
        let kept = kept_rows(self.seen@, self.limits.show_rows as nat);
        &&& self.total_seen == self.seen@.len()
        &&& row_texts(self.rows@) == shown_rows(kept, self.limits.show_value_chars as nat)
        &&& self.cut == some_row_is_cut(kept, self.limits.show_value_chars as nat)
    }

    /// More rows were found than may be scanned.
    pub open spec fn is_capped(&self) -> bool {
        self.total_seen > self.limits.max_rows_scanned
    }

    pub fn new(limits: SqliteLimits) -> (rows: SqliteRows)
        ensures
            rows.well_formed(),
            rows.limits == limits,
            rows.seen@ == Seq::<Seq<Cell>>::empty(),
            rows.total_seen == 0,
    {
        let rows = SqliteRows {
            limits,
            rows: Vec::new(),
            total_seen: 0,
            cut: false,
            seen: Ghost(Seq::empty()),
        };
        assert(row_texts(rows.rows@) =~= shown_rows(
            kept_rows(Seq::empty(), limits.show_rows as nat),
            limits.show_value_chars as nat,
        ));
        rows
    }

    /// Takes in the next row, and says whether another one may be read.
    pub fn push(&mut self, values: &[SqliteValue]) -> (more: bool)
        requires
            old(self).well_formed(),
            !old(self).is_capped(),
            old(self).total_seen < usize::MAX,
        ensures
            final(self).well_formed(),
            final(self).limits == old(self).limits,
            final(self).seen@ == old(self).seen@.push(value_models(values@)),
            more == !final(self).is_capped(),
    {
        let ghost before = self.seen@;
        let ghost show = self.limits.show_rows as nat;
        let ghost max = self.limits.show_value_chars as nat;
        let ghost models = value_models(values@);
        let ghost after = before.push(models);
        let ghost kept = kept_rows(before, show);
        self.total_seen += 1;
        if self.total_seen <= self.limits.show_rows {
            let mut row: Vec<String> = Vec::new();
            let mut row_cut = false;
            let ghost wanted = shown_row(models, max);
            let mut i: usize = 0;
            assert(strings::texts(row@) =~= wanted.take(0));
            while i < values.len()
                invariant
                    i <= values.len(),
                    models == value_models(values@),
                    max == self.limits.show_value_chars,
                    wanted == shown_row(models, max),
                    strings::texts(row@) == wanted.take(i as int),
                    row_cut == exists|k: int| 0 <= k < i && is_cut(#[trigger] models[k], max),
                decreases values.len() - i,
            {
                assert(models[i as int] == values@[i as int]@);
                let summary = sqlite_value_summary(&values[i], self.limits.show_value_chars);
                row_cut = row_cut || summary.truncated;
                push_text(&mut row, summary.text);
                assert(wanted.take(i + 1) =~= wanted.take(i as int).push(wanted[i as int]));
                i += 1;
            }
            assert(wanted.take(i as int) =~= wanted);
            let ghost rows = self.rows@;
            self.rows.push(row);
            assert(row_texts(self.rows@) =~= row_texts(rows).push(wanted));
            assert(kept =~= before);
            assert(kept_rows(after, show) =~= kept.push(models));
            assert(shown_rows(kept_rows(after, show), max) =~= shown_rows(kept, max).push(wanted));
            proof {
                let more_rows = kept_rows(after, show);
                assert(more_rows[kept.len() as int] == models);
                if some_row_is_cut(kept, max) {
                    let k = choose|k: int| 0 <= k < kept.len() && row_is_cut(#[trigger] kept[k], max);
                    assert(more_rows[k] == kept[k]);
                }
                if some_row_is_cut(more_rows, max) && !row_is_cut(models, max) {
                    let k = choose|k: int|
                        0 <= k < more_rows.len() && row_is_cut(#[trigger] more_rows[k], max);
                    assert(kept[k] == more_rows[k]);
                }
            }
            self.cut = self.cut || row_cut;
        } else {
            assert(kept_rows(after, show) =~= kept);
        }
        self.seen = Ghost(after);
        self.total_seen <= self.limits.max_rows_scanned
    }
}

/// A file that is bound, as it is reported.
#[derive(Debug)]
pub struct BoundParam {
    pub sql_name: String,
    pub path: String,
    pub format: ParamFormat,
    pub values: Option<usize>,
    pub source_bytes: u64,
}

pub open spec fn param_json(param: BoundParam, host: Host) -> Json {
    Json::Object(
        seq![
            ("name"@, Json::Text(param.sql_name@)),
            ("path"@, Json::Text(paths::normalized(param.path@, host))),
            ("format"@, Json::Text(param.format.word())),
            (
                "values"@,
                match param.values {
                    Some(values) => json::count_json(values as nat),
                    None => Json::Null,
                },
            ),
            ("source_bytes"@, json::count_json(param.source_bytes as nat)),
        ],
    )
}

fn param_value(param: &BoundParam, host: Host) -> (value: JsonValue)
    ensures
        value@ == param_json(*param, host),
{
    let mut members: Vec<(String, JsonValue)> = Vec::new();
    assert(json::member_models(members@) =~= Seq::empty());
    add_member(&mut members, "name", json_text(param.sql_name.as_str()));
    add_member(
        &mut members,
        "path",
        json_text(display_path(param.path.as_str(), host).as_str()),
    );
    add_member(&mut members, "format", json_text(param.format.name()));
    let values = match param.values {
        Some(values) => json_count(values),
        None => JsonValue::Null,
    };
    add_member(&mut members, "values", values);
    add_member(&mut members, "source_bytes", json_number(param.source_bytes));
    let value = json_object(members);
    assert(value@->Object_0 =~= param_json(*param, host)->Object_0);
    value
}

/// What a receipt says of the files that are bound.
pub fn sqlite_param_receipt_rows(params: &[BoundParam], host: Host) -> (value: JsonValue)
    ensures
        value@ == Json::Array(params@.map_values(|param: BoundParam| param_json(param, host))),
{
    let ghost wanted = params@.map_values(|param: BoundParam| param_json(param, host));
    let mut items: Vec<JsonValue> = Vec::new();
    let mut i: usize = 0;
    assert(json::item_models(items@) =~= wanted.take(0));
    while i < params.len()
        invariant
            i <= params.len(),
            wanted == params@.map_values(|param: BoundParam| param_json(param, host)),
            json::item_models(items@) == wanted.take(i as int),
        decreases params.len() - i,
    {
        add_item(&mut items, param_value(&params[i], host));
        assert(wanted.take(i + 1) =~= wanted.take(i as int).push(wanted[i as int]));
        i += 1;
    }
    assert(wanted.take(i as int) =~= wanted);
    json_array(items)
}

/// Whether a later column has the same name.
pub open spec fn is_shadowed(columns: Seq<Seq<char>>, i: int) -> bool {
    exists|k: int| i < k < columns.len() && #[trigger] columns[k] == columns[i]
}

/// The first `n` fields of a row; of columns with the same name the last one counts.
pub open spec fn row_fields(columns: Seq<Seq<char>>, row: Seq<Seq<char>>, n: nat) -> Seq<
    (Seq<char>, Json),
>
    decreases n,
{
    if n == 0 || n > columns.len() || n > row.len() {
        Seq::empty()
    } else {
        let before = row_fields(columns, row, (n - 1) as nat);
        if is_shadowed(columns, n - 1) {
            before
        } else {
            before.push((columns[n - 1], Json::Text(row[n - 1])))
        }
    }
}

pub open spec fn row_json(columns: Seq<Seq<char>>, row: Seq<Seq<char>>, index: nat) -> Json {
    Json::Object(
        seq![
            ("row"@, json::count_json(index)),
            ("fields"@, Json::Object(row_fields(columns, row, columns.len()))),
        ],
    )
}

fn column_is_shadowed(columns: &[String], i: usize) -> (held: bool)
    requires
        i < columns@.len(),
    ensures
        held == is_shadowed(strings::texts(columns@), i as int),
{
    let ghost texts = strings::texts(columns@);
    assert(texts[i as int] == columns@[i as int]@);
    let total: usize = columns.len();
    let mut k: usize = i + 1;
    while k < total
        invariant
            i < k <= total,
            total == columns@.len(),
            texts == strings::texts(columns@),
            texts[i as int] == columns@[i as int]@,
            forall|j: int| i < j < k ==> #[trigger] texts[j] != texts[i as int],
        decreases total - k,
    {
        assert(texts[k as int] == columns@[k as int]@);
        if same_text(columns[k].as_str(), columns[i].as_str()) {
            return true;
        }
        k += 1;
    }
    false
}

fn row_value(columns: &[String], row: &[String], index: usize) -> (value: JsonValue)
    requires
        row@.len() == columns@.len(),
    ensures
        value@ == row_json(strings::texts(columns@), strings::texts(row@), index as nat),
{
    let ghost names = strings::texts(columns@);
    let ghost texts = strings::texts(row@);
    let mut fields: Vec<(String, JsonValue)> = Vec::new();
    let mut i: usize = 0;
    assert(json::member_models(fields@) =~= Seq::empty());
    while i < columns.len()
        invariant
            i <= columns.len(),
            row@.len() == columns@.len(),
            names == strings::texts(columns@),
            texts == strings::texts(row@),
            json::member_models(fields@) == row_fields(names, texts, i as nat),
        decreases columns.len() - i,
    {
        assert(names[i as int] == columns@[i as int]@);
        assert(texts[i as int] == row@[i as int]@);
        if !column_is_shadowed(columns, i) {
            add_member(&mut fields, columns[i].as_str(), json_text(row[i].as_str()));
        }
        i += 1;
    }
    let mut members: Vec<(String, JsonValue)> = Vec::new();
    assert(json::member_models(members@) =~= Seq::empty());
    add_member(&mut members, "row", json_count(index));
    add_member(&mut members, "fields", json_object(fields));
    let value = json_object(members);
    assert(value@->Object_0 =~= row_json(names, texts, index as nat)->Object_0);
    value
}

/// A row as it is shown in text.
pub open spec fn row_line(columns: Seq<Seq<char>>, row: Seq<Seq<char>>, index: nat) -> Seq<char> {
    numbers::decimal(index) + ": "@ + strings::join_texts(
        Seq::new(columns.len(), |i: int| columns[i] + "="@ + row[i]),
        " "@,
    )
}

fn row_text(columns: &[String], row: &[String], index: usize) -> (text: String)
    requires
        row@.len() == columns@.len(),
    ensures
        text@ == row_line(strings::texts(columns@), strings::texts(row@), index as nat),
{
    let ghost names = strings::texts(columns@);
    let ghost texts = strings::texts(row@);
    let ghost wanted = Seq::new(names.len(), |i: int| names[i] + "="@ + texts[i]);
    let mut parts: Vec<String> = Vec::new();
    let mut i: usize = 0;
    assert(strings::texts(parts@) =~= wanted.take(0));
    while i < columns.len()
        invariant
            i <= columns.len(),
            row@.len() == columns@.len(),
            names == strings::texts(columns@),
            texts == strings::texts(row@),
            wanted == Seq::new(names.len(), |i: int| names[i] + "="@ + texts[i]),
            strings::texts(parts@) == wanted.take(i as int),
        decreases columns.len() - i,
    {
        assert(names[i as int] == columns@[i as int]@);
        assert(texts[i as int] == row@[i as int]@);
        push_text(&mut parts, columns[i].clone().concat("=").concat(row[i].as_str()));
        assert(wanted.take(i + 1) =~= wanted.take(i as int).push(wanted[i as int]));
        i += 1;
    }
    assert(wanted.take(i as int) =~= wanted);
    count_text(index).concat(": ").concat(join(&parts, " ").as_str())
}

/// A query, once it is done.
pub struct QueryReport {
    pub db: String,
    pub columns: Vec<String>,
    pub params: Vec<BoundParam>,
    pub rows: SqliteRows,
    pub host: Host,
}

impl QueryReport {
    /// Every row that is shown has a value for every column.
    pub open spec fn well_formed(&self) -> bool {
        &&& self.rows.well_formed()
        &&& forall|i: int|
            0 <= i < self.rows.rows@.len() ==> (#[trigger] self.rows.rows@[i])@.len()
                == self.columns@.len()
    }

    pub open spec fn shown(&self) -> nat {
        self.rows.rows@.len()
    }

    pub open spec fn caps(&self) -> Seq<output::Cap> {
        let limits = self.rows.limits;
        Seq::empty() + output::when(
            self.rows.is_capped(),
            output::scope_cap("rows_processed"@, limits.max_rows_scanned as nat),
        ) + output::when(
            self.shown() < self.rows.total_seen,
            output::output_cap("rows"@, limits.show_rows as nat, "--show-rows"@),
        ) + output::when(
            self.rows.cut,
            output::output_cap(
                "value_characters"@,
                limits.show_value_chars as nat,
                "--show-value-chars"@,
            ),
        )
    }

    pub open spec fn rows_json(&self) -> Json {
        Json::Array(
            Seq::new(
                self.shown(),
                |i: int|
                    row_json(
                        strings::texts(self.columns@),
                        strings::texts(self.rows.rows@[i]@),
                        i as nat,
                    ),
            ),
        )
    }

    pub open spec fn fields(&self, with_rows: bool) -> Seq<(Seq<char>, Json)> {
        seq![
            ("db"@, Json::Text(paths::normalized(self.db@, self.host))),
            ("columns"@, json::text_array(strings::texts(self.columns@))),
            (
                "params"@,
                Json::Array(
                    self.params@.map_values(|param: BoundParam| param_json(param, self.host)),
                ),
            ),
            ("rows_examined"@, json::count_json(self.rows.total_seen as nat)),
        ] + (if with_rows {
            seq![("rows"@, self.rows_json())]
        } else {
            Seq::empty()
        })
    }

    fn rows_value(&self) -> (value: JsonValue)
        requires
            self.well_formed(),
        ensures
            value@ == self.rows_json(),
    {
        let ghost wanted = self.rows_json()->Array_0;
        let mut items: Vec<JsonValue> = Vec::new();
        let mut i: usize = 0;
        assert(json::item_models(items@) =~= wanted.take(0));
        while i < self.rows.rows.len()
            invariant
                i <= self.rows.rows.len(),
                self.well_formed(),
                wanted == self.rows_json()->Array_0,
                json::item_models(items@) == wanted.take(i as int),
            decreases self.rows.rows.len() - i,
        {
            assert(self.rows.rows@[i as int]@.len() == self.columns@.len());
            add_item(&mut items, row_value(&self.columns, &self.rows.rows[i], i));
            assert(wanted.take(i + 1) =~= wanted.take(i as int).push(wanted[i as int]));
            i += 1;
        }
        assert(wanted.take(i as int) =~= wanted);
        json_array(items)
    }

    proof fn lemma_shown(&self)
        requires
            self.rows.well_formed(),
        ensures
            self.shown() == numbers::least(
                self.rows.seen@.len(),
                self.rows.limits.show_rows as nat,
            ),
    {
        assert(row_texts(self.rows.rows@).len() == self.rows.rows@.len());
    }

    /// The receipt of the query; `with_rows` puts the rows into it.
    pub fn receipt(&self, profile: Option<&str>, with_rows: bool) -> (receipt: Receipt)
        requires
            self.well_formed(),
        ensures
            receipt.model() == (ReceiptModel {
                command: "sqlite"@,
                profile: strings::opt_text(profile),
                result: output::ResultCount {
                    unit: "rows"@,
                    total: self.rows.total_seen as nat,
                    total_is_lower_bound: self.rows.is_capped(),
                    shown: self.shown(),
                },
                caps: self.caps(),
                fields: self.fields(with_rows),
            }),
            receipt.model().well_formed(),
            self.shown() == numbers::least(
                self.rows.seen@.len(),
                self.rows.limits.show_rows as nat,
            ),
    {
        proof {
            self.lemma_shown();
        }
        let limits = self.rows.limits;
        let shown = self.rows.rows.len();
        let capped = self.rows.total_seen > limits.max_rows_scanned;
        let mut receipt = Receipt::new(
            "sqlite",
            profile,
            ReceiptResult::new("rows", self.rows.total_seen, capped, shown),
        );
        receipt.add_cap_if(
            capped,
            ReceiptCap::scope("rows_processed", Some(limits.max_rows_scanned)),
        );
        receipt.add_cap_if(
            shown < self.rows.total_seen,
            ReceiptCap::output("rows", Some(limits.show_rows), "--show-rows"),
        );
        receipt.add_cap_if(
            self.rows.cut,
            ReceiptCap::output(
                "value_characters",
                Some(limits.show_value_chars),
                "--show-value-chars",
            ),
        );
        let mut members: Vec<(String, JsonValue)> = Vec::new();
        assert(json::member_models(members@) =~= Seq::empty());
        add_member(
            &mut members,
            "db",
            json_text(display_path(self.db.as_str(), self.host).as_str()),
        );
        add_member(&mut members, "columns", json_texts(&self.columns));
        add_member(&mut members, "params", sqlite_param_receipt_rows(&self.params, self.host));
        add_member(&mut members, "rows_examined", json_count(self.rows.total_seen));
        if with_rows {
            add_member(&mut members, "rows", self.rows_value());
        }
        let ghost fields = json::member_models(members@);
        proof {
            assert(fields =~= self.fields(with_rows));
            lemma_query_fields();
            output::lemma_fresh_without(query_fields(), 4);
            if with_rows {
                assert(output::field_names(fields) =~= query_fields());
            } else {
                assert(output::field_names(fields) =~= query_fields().remove(4));
            }
        }
        receipt.insert_all(members);
        receipt
    }

    /// What is shown, line by line.
    pub open spec fn shown_lines(&self) -> Seq<Seq<char>> {
        let limits = self.rows.limits;
        seq![
            "[contextmink] sqlite db="@ + paths::normalized(self.db@, self.host) + " columns="@
                + strings::join_texts(strings::texts(self.columns@), ","@),
        ] + (if self.shown() == 0 {
            seq!["no_rows"@]
        } else {
            Seq::empty()
        }) + Seq::new(
            self.shown(),
            |i: int|
                row_line(
                    strings::texts(self.columns@),
                    strings::texts(self.rows.rows@[i]@),
                    i as nat,
                ),
        ) + (if self.rows.is_capped() {
            seq![
                "[contextmink] capped sqlite row processing at "@ + numbers::decimal(
                    limits.max_rows_scanned as nat,
                )
                    + " rows; add WHERE/LIMIT or narrow the query before treating this as complete."@,
            ]
        } else if self.shown() < self.rows.total_seen {
            seq![
                "[contextmink] capped sqlite output at "@ + numbers::decimal(
                    limits.show_rows as nat,
                ) + " rows; increase --show-rows or narrow the query."@,
            ]
        } else {
            Seq::empty()
        })
    }

    /// What is shown, line by line.
    pub fn lines(&self) -> (lines: Vec<String>)
        requires
            self.well_formed(),
        ensures
            strings::texts(lines@) == self.shown_lines(),
    {
        let ghost wanted = self.shown_lines();
        let limits = self.rows.limits;
        let mut lines: Vec<String> = Vec::new();
        assert(strings::texts(lines@) =~= Seq::empty());
        push_text(
            &mut lines,
            "[contextmink] sqlite db=".to_owned().concat(
                display_path(self.db.as_str(), self.host).as_str(),
            ).concat(" columns=").concat(join(&self.columns, ",").as_str()),
        );
        if self.rows.rows.len() == 0 {
            push_text(&mut lines, "no_rows".to_owned());
        }
        let ghost head = strings::texts(lines@);
        let ghost n = head.len();
        assert(head =~= wanted.take(n as int));
        let mut i: usize = 0;
        while i < self.rows.rows.len()
            invariant
                i <= self.rows.rows.len(),
                self.well_formed(),
                wanted == self.shown_lines(),
                n == (if self.shown() == 0 {
                    2nat
                } else {
                    1nat
                }),
                strings::texts(lines@) == wanted.take(n + i),
            decreases self.rows.rows.len() - i,
        {
            assert(self.rows.rows@[i as int]@.len() == self.columns@.len());
            push_text(&mut lines, row_text(&self.columns, &self.rows.rows[i], i));
            assert(wanted.take(n + i + 1) =~= wanted.take(n + i).push(wanted[n + i]));
            i += 1;
        }
        if self.rows.total_seen > limits.max_rows_scanned {
            push_text(
                &mut lines,
                "[contextmink] capped sqlite row processing at ".to_owned().concat(
                    count_text(limits.max_rows_scanned).as_str(),
                ).concat(
                    " rows; add WHERE/LIMIT or narrow the query before treating this as complete.",
                ),
            );
        } else if self.rows.rows.len() < self.rows.total_seen {
            push_text(
                &mut lines,
                "[contextmink] capped sqlite output at ".to_owned().concat(
                    count_text(limits.show_rows).as_str(),
                ).concat(" rows; increase --show-rows or narrow the query."),
            );
        }
        assert(strings::texts(lines@) =~= wanted);
        lines
    }
}

pub open spec fn query_fields() -> Seq<Seq<char>> {
    seq![
        "db"@,
        "columns"@,
        "params"@,
        "rows_examined"@,
        "rows"@,
    ]
}

/// The field names can stand beside each other.
proof fn lemma_query_fields()
    ensures
        output::fresh_names(query_fields()),
{
    reveal_strlit("schema");
    reveal_strlit("tool");
    reveal_strlit("command");
    reveal_strlit("profile");
    reveal_strlit("duration_ms");
    reveal_strlit("scope_complete");
    reveal_strlit("output_truncated");
    reveal_strlit("complete");
    reveal_strlit("caps");
    reveal_strlit("result");
    reveal_strlit("output_cap_arguments");
    reveal_strlit("db");
    reveal_strlit("columns");
    reveal_strlit("params");
    reveal_strlit("rows_examined");
    reveal_strlit("rows");
    assert("caps"@.len() == 4);
    assert("caps"@[0] == 'c');
    assert("columns"@.len() == 7);
    assert("columns"@[0] == 'c');
    assert("columns"@[2] == 'l');
    assert("command"@.len() == 7);
    assert("command"@[2] == 'm');
    assert("complete"@.len() == 8);
    assert("db"@.len() == 2);
    assert("duration_ms"@.len() == 11);
    assert("output_cap_arguments"@.len() == 20);
    assert("output_truncated"@.len() == 16);
    assert("params"@.len() == 6);
    assert("params"@[0] == 'p');
    assert("profile"@.len() == 7);
    assert("profile"@[0] == 'p');
    assert("result"@.len() == 6);
    assert("result"@[0] == 'r');
    assert("rows"@.len() == 4);
    assert("rows"@[0] == 'r');
    assert("rows_examined"@.len() == 13);
    assert("schema"@.len() == 6);
    assert("schema"@[0] == 's');
    assert("scope_complete"@.len() == 14);
    assert("tool"@.len() == 4);
    assert("tool"@[0] == 't');
}

/// A value that is not cut is shown the same whatever the limit is that it fits in, and
/// no value is shown longer than the limit.
pub proof fn uncut_values_do_not_depend_on_the_limit(value: Cell, max: nat, other: nat)
    ensures
        shown_value(value, max).len() <= max,
        !is_cut(value, max) && !is_cut(value, other) ==> shown_value(value, max) == shown_value(
            value,
            other,
        ),
        !is_cut(value, max) && value is Text && vstd::utf8::valid_utf8(value->Text_0)
            ==> shown_value(value, max) == strings::debug_quoted(
            vstd::utf8::decode_utf8(value->Text_0),
        ),
        value matches Cell::Integer(n) ==> (!is_cut(value, max) && n >= 0 ==> shown_value(value, max)
            == numbers::decimal(n as nat)),
{
    output::clamping_is_bounded(written(value, max), max);
}

/// The rows that are shown are the first ones, as many as are to be shown or there are.
pub proof fn first_rows_are_shown(rows: Seq<Seq<Cell>>, show: nat, max: nat, i: int)
    ensures
        shown_rows(kept_rows(rows, show), max).len() == numbers::least(rows.len(), show),
        0 <= i < numbers::least(rows.len(), show) ==> shown_rows(kept_rows(rows, show), max)[i].len()
            == rows[i].len(),
        forall|k: int|
            0 <= i < numbers::least(rows.len(), show) && 0 <= k < rows[i].len()
                ==> #[trigger] shown_rows(kept_rows(rows, show), max)[i][k] == shown_value(
                rows[i][k],
                max,
            ),
{
}

/// Every column of a row is named once; of columns with the same name the last one's
/// value is given.
pub proof fn each_column_is_named_once(
    columns: Seq<Seq<char>>,
    row: Seq<Seq<char>>,
    n: nat,
    i: int,
    j: int,
)
    requires
        columns.len() == row.len(),
        n <= columns.len(),
    ensures
        0 <= i < n && (forall|k: int| i < k < columns.len() ==> #[trigger] columns[k] != columns[i])
            ==> row_fields(columns, row, n).contains((columns[i], Json::Text(row[i]))),
        0 <= i < j < row_fields(columns, row, n).len() ==> row_fields(columns, row, n)[i].0
            != row_fields(columns, row, n)[j].0,
{
    lemma_row_fields(columns, row, n);
    let fields = row_fields(columns, row, n);
    if 0 <= i < n && (forall|k: int|
        i < k < columns.len() ==> #[trigger] columns[k] != columns[i]) {
        assert(!is_shadowed(columns, i));
        lemma_field_is_there(columns, row, n, i);
    }
    if 0 <= i < j < fields.len() {
        let a = choose|a: int| 0 <= a < n && fields[i].0 == columns[a] && !#[trigger] is_shadowed(columns, a);
        assert(fields[i].0 != fields[j].0);
    }
}

proof fn lemma_field_is_there(columns: Seq<Seq<char>>, row: Seq<Seq<char>>, n: nat, i: int)
    requires
        columns.len() == row.len(),
        0 <= i < n <= columns.len(),
        !is_shadowed(columns, i),
    ensures
        row_fields(columns, row, n).contains((columns[i], Json::Text(row[i]))),
    decreases n,
{
    let before = row_fields(columns, row, (n - 1) as nat);
    let all = row_fields(columns, row, n);
    if i == n - 1 {
        assert(all.last() == (columns[i], Json::Text(row[i])));
    } else {
        lemma_field_is_there(columns, row, (n - 1) as nat, i);
        let k = before.index_of((columns[i], Json::Text(row[i])));
        assert(all[k] == before[k]);
    }
}

proof fn lemma_row_fields(columns: Seq<Seq<char>>, row: Seq<Seq<char>>, n: nat)
    requires
        columns.len() == row.len(),
        n <= columns.len(),
    ensures
        forall|i: int|
            0 <= i < row_fields(columns, row, n).len() ==> (exists|a: int|
                0 <= a < n && (#[trigger] row_fields(columns, row, n)[i]).0 == columns[a]
                    && !#[trigger] is_shadowed(columns, a)),
        forall|i: int, j: int|
            0 <= i < j < row_fields(columns, row, n).len() ==> (#[trigger] row_fields(
                columns,
                row,
                n,
            )[i]).0 != (#[trigger] row_fields(columns, row, n)[j]).0,
    decreases n,
{
    if n > 0 {
        lemma_row_fields(columns, row, (n - 1) as nat);
        let before = row_fields(columns, row, (n - 1) as nat);
        let all = row_fields(columns, row, n);
        if !is_shadowed(columns, n - 1) {
            assert(all =~= before.push((columns[n - 1], Json::Text(row[n - 1]))));
            assert forall|i: int| 0 <= i < all.len() implies (exists|a: int|
                0 <= a < n && (#[trigger] all[i]).0 == columns[a] && !#[trigger] is_shadowed(
                    columns,
                    a,
                )) by {
                if i < before.len() {
                    assert(all[i] == before[i]);
                    let a = choose|a: int|
                        0 <= a < n - 1 && before[i].0 == columns[a] && !#[trigger] is_shadowed(
                            columns,
                            a,
                        );
                    assert(!is_shadowed(columns, a));
                } else {
                    assert(!is_shadowed(columns, n - 1));
                }
            }
            assert forall|i: int, j: int| 0 <= i < j < all.len() implies (#[trigger] all[i]).0 != (
            #[trigger] all[j]).0 by {
                assert(all[i] == before[i]);
                if j < before.len() {
                    assert(all[j] == before[j]);
                } else {
                    let a = choose|a: int|
                        0 <= a < n - 1 && before[i].0 == columns[a] && !#[trigger] is_shadowed(
                            columns,
                            a,
                        );
                    if columns[a] == columns[n - 1] {
                        assert(is_shadowed(columns, a));
                    }
                }
            }
        } else {
            assert(all =~= before);
            assert forall|i: int| 0 <= i < all.len() implies (exists|a: int|
                0 <= a < n && (#[trigger] all[i]).0 == columns[a] && !#[trigger] is_shadowed(
                    columns,
                    a,
                )) by {
                assert(all[i] == before[i]);
                let a = choose|a: int|
                    0 <= a < n - 1 && before[i].0 == columns[a] && !#[trigger] is_shadowed(
                        columns,
                        a,
                    );
                assert(!is_shadowed(columns, a));
            }
        }
    }
}

/// A report whose receipt names no limit shows every row that the query gave, no value
/// of it cut.
pub proof fn unlimited_report_shows_every_row(report: QueryReport, i: int, k: int)
    requires
        report.well_formed(),
        report.caps().len() == 0,
    ensures
        report.shown() == report.rows.seen@.len(),
        0 <= i < report.rows.seen@.len() && 0 <= k < report.rows.seen@[i].len() ==> !is_cut(
            report.rows.seen@[i][k],
            report.rows.limits.show_value_chars as nat,
        ),
{
    let rows = report.rows.seen@;
    let kept = kept_rows(rows, report.rows.limits.show_rows as nat);
    let max = report.rows.limits.show_value_chars as nat;
    assert(row_texts(report.rows.rows@).len() == report.shown());
    assert(report.shown() == kept.len());
    if 0 <= i < rows.len() && 0 <= k < rows[i].len() {
        assert(kept[i] == rows[i]);
        if is_cut(rows[i][k], max) {
            assert(row_is_cut(kept[i], max));
            assert(some_row_is_cut(kept, max));
        }
    }
}

} // verus!
