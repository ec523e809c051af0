use crate::catalog::{
    find_database, lemma_find_database_bounds, Catalog, CatalogBatch, CatalogError, OrderedCatalogBatch,
};
use crate::chunks::{
    bucket_row, chunk_start, TableChunks, empty_tables, lemma_chunk_start_bounds, lemma_rows_in_after_push,
    lemma_push_keys, lemma_windows_after_push, no_empty_entries, windows_of, rows_in, table_entries, table_keys, tables_hold, WriteBatch,
};
use crate::line::{Row, FieldData, field_data_of, raw_lines_of, split_raw_lines, tokenize_record, tokens_of, LineTokens};
use crate::catalog::{find_database_id, lemma_find_database_id_bounds, CatalogModel};
use crate::ops::{
    apply_ops, extends, lemma_apply_op_extends, lemma_extends_refl, lemma_extends_trans, CatalogOp,
};
use crate::precision::Precision;
use crate::qualify::{
    added_columns, can_qualify, ids_above, lemma_qualify_mints_fresh_ids, names_present, qualified_ids, qualified_schema, reports_line_mismatch, columns_of_table, has_type_conflict, is_clean, lemma_prefix_keeps_clean, lemma_row_matches_clean, lemma_placed_extends, placed, is_resident, time_fits, lemma_prefix_keeps_lookups, line_time,
    row_matches,
    lemma_row_matches_resident, qualified, validate_and_qualify_line, IdCounters, LineError,
    QualifiedLine,
};
use crate::schema::{find_table, ColumnType, DatabaseSchema, FieldType, SchemaModel};
use vstd::prelude::*;
use vstd::utf8::encode_utf8;

verus! {

/// A line that was not accepted, with its text and its 1-based number among
/// the records that the tokenizer reported.
#[derive(Debug)]
pub struct WriteLineError {
    pub original_line: String,
    pub line_number: usize,
    pub error: LineError,
}

/// Name of a column type as messages show it.
pub open spec fn column_type_label(t: ColumnType) -> Seq<char> {
    match t {
        ColumnType::Tag => "tag"@,
        ColumnType::Timestamp => "timestamp"@,
        ColumnType::Field(FieldType::Integer) => "i64"@,
        ColumnType::Field(FieldType::UInteger) => "u64"@,
        ColumnType::Field(FieldType::Float) => "f64"@,
        ColumnType::Field(FieldType::Str) => "string"@,
        ColumnType::Field(FieldType::Boolean) => "bool"@,
    }
}

fn column_type_text(t: ColumnType) -> (r: &'static str)
    ensures
        r@ == column_type_label(t),
{
    match t {
        ColumnType::Tag => "tag",
        ColumnType::Timestamp => "timestamp",
        ColumnType::Field(FieldType::Integer) => "i64",
        ColumnType::Field(FieldType::UInteger) => "u64",
        ColumnType::Field(FieldType::Float) => "f64",
        ColumnType::Field(FieldType::Str) => "string",
        ColumnType::Field(FieldType::Boolean) => "bool",
    }
}

/// The decimal digits of `n`.
pub open spec fn decimal(n: nat) -> Seq<char>
    decreases n,
{
    if n < 10 {
        seq![digit_char(n)]
    } else {
        decimal(n / 10).push(digit_char(n % 10))
    }
}

pub open spec fn digit_char(d: nat) -> char {
    if d == 0 {
        '0'
    } else if d == 1 {
        '1'
    } else if d == 2 {
        '2'
    } else if d == 3 {
        '3'
    } else if d == 4 {
        '4'
    } else if d == 5 {
        '5'
    } else if d == 6 {
        '6'
    } else if d == 7 {
        '7'
    } else if d == 8 {
        '8'
    } else {
        '9'
    }
}

fn digit_text(d: usize) -> (r: &'static str)
    requires
        d < 10,
    ensures
        r@ == seq![digit_char(d as nat)],
{
    proof {
        reveal_strlit("0");
        reveal_strlit("1");
        reveal_strlit("2");
        reveal_strlit("3");
        reveal_strlit("4");
        reveal_strlit("5");
        reveal_strlit("6");
        reveal_strlit("7");
        reveal_strlit("8");
        reveal_strlit("9");
    }
    if d == 0 {
        "0"
    } else if d == 1 {
        "1"
    } else if d == 2 {
        "2"
    } else if d == 3 {
        "3"
    } else if d == 4 {
        "4"
    } else if d == 5 {
        "5"
    } else if d == 6 {
        "6"
    } else if d == 7 {
        "7"
    } else if d == 8 {
        "8"
    } else {
        "9"
    }
}

/// Appends the decimal digits of `n` to `s`.
fn append_decimal(s: &mut String, n: usize)
    ensures
        final(s)@ == old(s)@ + decimal(n as nat),
    decreases n,
{
    if n >= 10 {
        append_decimal(s, n / 10);
    }
    s.append(digit_text(n % 10));
    proof {
        if n >= 10 {
            assert(old(s)@ + decimal(n as nat) =~= old(s)@ + decimal((n / 10) as nat) + seq![
                digit_char((n % 10) as nat),
            ]);
        } else {
            assert(n % 10 == n);
        }
    }
}

impl WriteLineError {
    /// A message for people: for a type mismatch it names the column, the
    /// existing type and the type of the incoming value.
    pub fn error_message(&self) -> (r: String)
        ensures
            self.error matches LineError::TypeMismatch { column, expected, got } ==> r@
                == "invalid field value in line protocol for field '"@ + column@ + "' on line "@
                + decimal(self.line_number as nat) + ": expected type "@ + column_type_label(expected)
                + ", but got "@ + column_type_label(got),
            self.error matches LineError::Tokenize(m) ==> r@ == m@,
            self.error matches LineError::DuplicateColumn(c) ==> r@ == "column added twice by one line: "@
                + c@,
            self.error matches LineError::IdsExhausted ==> r@ == "no table or column id is left"@,
            self.error matches LineError::TimestampOutOfRange ==> r@
                == "timestamp out of range once converted to nanoseconds"@,
            self.error matches LineError::TableOverwrite ==> r@
                == "unexpected overwrite of existing table"@,
    {
        match &self.error {
            LineError::Tokenize(m) => m.clone(),
            LineError::TypeMismatch { column, expected, got } => {
                let mut r = String::from_str(
                    "invalid field value in line protocol for field '",
                );
                r.append(column.as_str());
                r.append("' on line ");
                append_decimal(&mut r, self.line_number);
                r.append(": expected type ");
                r.append(column_type_text(*expected));
                r.append(", but got ");
                r.append(column_type_text(*got));
                proof {
                    reveal_strlit("invalid field value in line protocol for field '");
                    reveal_strlit("' on line ");
                    reveal_strlit(": expected type ");
                    reveal_strlit(", but got ");
                }
                r
            },
            LineError::DuplicateColumn(c) => {
                let mut r = String::from_str("column added twice by one line: ");
                r.append(c.as_str());
                proof {
                    reveal_strlit("column added twice by one line: ");
                }
                r
            },
            LineError::IdsExhausted => {
                proof {
                    reveal_strlit("no table or column id is left");
                }
                String::from_str("no table or column id is left")
            },
            LineError::TimestampOutOfRange => {
                proof {
                    reveal_strlit("timestamp out of range once converted to nanoseconds");
                }
                String::from_str("timestamp out of range once converted to nanoseconds")
            },
            LineError::TableOverwrite => {
                proof {
                    reveal_strlit("unexpected overwrite of existing table");
                }
                String::from_str("unexpected overwrite of existing table")
            },
        }
    }
}

/// Why a whole write was refused.
#[derive(Debug)]
pub enum WriteError {
    /// A line failed while partial acceptance was off.
    ParseError(WriteLineError),
    /// The catalog refused the namespace or the staged schema changes.
    Catalog(CatalogError),
}

/// State of a validator bound to a namespace: the snapshot of its schema,
/// the id counters of the catalog and the wall-clock time.
#[derive(Debug)]
pub struct WithCatalog {
    pub db_schema: DatabaseSchema,
    pub ids: IdCounters,
    pub time_now_ns: i64,
}

/// State of a validator that has parsed and qualified its lines and
/// published their schema changes.
#[derive(Debug)]
pub struct LinesParsed {
    pub db_schema: DatabaseSchema,
    pub lines: Vec<QualifiedLine>,
    pub bytes: u64,
    pub catalog_batch: Option<OrderedCatalogBatch>,
    pub errors: Vec<WriteLineError>,
}

/// Validates a write of line protocol in two steps: `parse_lines_and_update_schema`,
/// then `convert_lines_to_buffer`.
#[derive(Debug)]
pub struct WriteValidator<State> {
    pub state: State,
}

/// Number of records that the tokenizer reports something for.
pub open spec fn tokenized_count(raws: Seq<Seq<char>>) -> nat
    decreases raws.len(),
{
    if raws.len() == 0 {
        0
    } else {
        tokenized_count(raws.drop_last()) + if tokens_of(raws.last()) is Some {
            1nat
        } else {
            0nat
        }
    }
}

/// The UTF-8 length of a record, as `str::len` reports it.
pub open spec fn byte_len(s: Seq<char>) -> int {
    (encode_utf8(s).len() as usize) as int
}

/// Total UTF-8 length of the records at `sources`.
pub open spec fn source_bytes(raws: Seq<Seq<char>>, sources: Seq<int>) -> int
    decreases sources.len(),
{
    if sources.len() == 0 {
        0
    } else {
        source_bytes(raws, sources.drop_last()) + byte_len(raws[sources.last()])
    }
}

/// Every record that tokenizes is a line for an existing table whose
/// columns all exist already.
pub open spec fn all_resident(s: SchemaModel, raws: Seq<Seq<char>>) -> bool {
    forall|q: int|
        0 <= q < raws.len() ==> (#[trigger] tokens_of(raws[q]) matches Some(Ok(t)) ==> find_table(
            s.tables,
            t.measurement@,
        ) is Some && is_resident(columns_of_table(s, t.measurement@), t))
}

/// Some record that tokenizes is a line for a table of `s` whose values
/// disagree with the types of its existing columns.
pub open spec fn some_type_conflict(s: SchemaModel, raws: Seq<Seq<char>>) -> bool {
    exists|q: int|
        0 <= q < raws.len() && (#[trigger] tokens_of(raws[q]) matches Some(Ok(t)) && find_table(
            s.tables,
            t.measurement@,
        ) is Some && has_type_conflict(columns_of_table(s, t.measurement@), t))
}

/// Every record is blank or a line for an existing table whose columns all
/// exist with the line's types, and whose time fits in nanoseconds.
pub open spec fn all_clean(s: SchemaModel, raws: Seq<Seq<char>>, precision: Precision) -> bool {
    forall|q: int|
        0 <= q < raws.len() ==> (#[trigger] tokens_of(raws[q]) matches Some(r) ==> (r matches Ok(t)
            && find_table(s.tables, t.measurement@) is Some && is_clean(
            columns_of_table(s, t.measurement@),
            t,
        ) && time_fits(precision, t.timestamp)))
}

proof fn lemma_clean_prefix_resident(s: SchemaModel, raws: Seq<Seq<char>>, precision: Precision, n: int)
    requires
        all_clean(s, raws, precision),
        0 <= n <= raws.len(),
    ensures
        all_resident(s, raws.take(n)),
{
    assert forall|q: int| 0 <= q < raws.take(n).len() implies (#[trigger] tokens_of(
        raws.take(n)[q],
    ) matches Some(Ok(t)) ==> find_table(s.tables, t.measurement@) is Some && is_resident(
        columns_of_table(s, t.measurement@),
        t,
    )) by {
        assert(raws.take(n)[q] == raws[q]);
        assert(tokens_of(raws[q]) matches Some(r) ==> r is Ok);
    }
}

pub open spec fn min_u64(x: int) -> int {
    if x <= u64::MAX {
        x
    } else {
        u64::MAX as int
    }
}

/// The qualified line carries the tokens of its record: its counts, its time
/// and, in order, the values of its tags, its fields and its time.
pub open spec fn carries(ql: QualifiedLine, t: LineTokens, precision: Precision, ingest_time: i64) -> bool {
    let nt = t.tags.len() as int;
    let nf = t.fields.len() as int;
    &&& ql.index_count == nt
    &&& ql.field_count == nf
    &&& ql.row.time == line_time(precision, t.timestamp, ingest_time)
    &&& ql.row.fields.len() == nt + nf + 1
    &&& forall|k: int| 0 <= k < nt ==> (#[trigger] ql.row.fields@[k]).value == FieldData::Tag(t.tags@[k].1)
    &&& forall|k: int|
        0 <= k < nf ==> (#[trigger] ql.row.fields@[nt + k]).value == field_data_of(t.fields@[k].1)
    &&& ql.row.fields@[nt + nf].value == FieldData::Timestamp(ql.row.time)
}

/// The record tokenized to a line that `ql` carries.
/// and that sits in its table of `s`.
pub open spec fn record_carries(
    ql: QualifiedLine,
    tokens: Option<Result<LineTokens, String>>,
    s: SchemaModel,
    precision: Precision,
    ingest_time: i64,
) -> bool {
    tokens matches Some(Ok(t)) && carries(ql, t, precision, ingest_time) && placed(s, t, ql)
}

/// One record's effect on the shadow schema and counters: a blank record
/// changes nothing; a line that can qualify is applied; otherwise the record
/// is rejected, which changes nothing under partial acceptance and ends the
/// write (`None`) without it.
pub open spec fn step(
    s: SchemaModel,
    ids: IdCounters,
    raw: Seq<char>,
    p: Precision,
    partial: bool,
) -> Option<(SchemaModel, IdCounters)> {
    match tokens_of(raw) {
        None => Some((s, ids)),
        Some(Ok(t)) => if can_qualify(s, ids, t, p) {
            Some((qualified_schema(s, ids, t), qualified_ids(s, ids, t)))
        } else if partial {
            Some((s, ids))
        } else {
            None
        },
        Some(Err(_)) => if partial {
            Some((s, ids))
        } else {
            None
        },
    }
}

/// The shadow schema and counters after the records, each taken in turn
/// against what the ones before it left.
pub open spec fn run(
    s: SchemaModel,
    ids: IdCounters,
    raws: Seq<Seq<char>>,
    p: Precision,
    partial: bool,
) -> Option<(SchemaModel, IdCounters)>
    decreases raws.len(),
{
    if raws.len() == 0 {
        Some((s, ids))
    } else {
        match run(s, ids, raws.drop_last(), p, partial) {
            Some(st) => step(st.0, st.1, raws.last(), p, partial),
            None => None,
        }
    }
}

/// How many records of a write stage an op: those that qualify in turn and
/// add columns.
pub open spec fn staged_op_count(
    s: SchemaModel,
    ids: IdCounters,
    raws: Seq<Seq<char>>,
    p: Precision,
    partial: bool,
) -> nat
    decreases raws.len(),
{
    if raws.len() == 0 {
        0
    } else {
        let before = staged_op_count(s, ids, raws.drop_last(), p, partial);
        match run(s, ids, raws.drop_last(), p, partial) {
            Some(st) => match tokens_of(raws.last()) {
                Some(Ok(t)) => if can_qualify(st.0, st.1, t, p) && added_columns(st.0, st.1, t).len() > 0 {
                    before + 1
                } else {
                    before
                },
                _ => before,
            },
            None => before,
        }
    }
}

proof fn lemma_run_stuck(
    s: SchemaModel,
    ids: IdCounters,
    raws: Seq<Seq<char>>,
    p: Precision,
    partial: bool,
    n: int,
)
    requires
        0 <= n <= raws.len(),
        run(s, ids, raws.take(n), p, partial) is None,
    ensures
        run(s, ids, raws, p, partial) is None,
    decreases raws.len() - n,
{
    if n < raws.len() {
        assert(raws.take(n + 1).drop_last() =~= raws.take(n));
        lemma_run_stuck(s, ids, raws, p, partial, n + 1);
    } else {
        assert(raws.take(n) =~= raws);
    }
}

/// `e` is the error that a record with these tokens gets against `s`: the
/// tokenizer's message, or, for a line, a type mismatch of one of its
/// columns, which is what it gets when all its names exist and one
/// disagrees.
pub open spec fn error_fits(e: LineError, s: SchemaModel, tokens: Option<Result<LineTokens, String>>) -> bool {
    match tokens {
        Some(Err(m)) => e == LineError::Tokenize(m),
        Some(Ok(t)) => {
            let cc = columns_of_table(s, t.measurement@);
            &&& e is TypeMismatch ==> reports_line_mismatch(e, cc, t)
            &&& names_present(cc, t) && has_type_conflict(cc, t) ==> e is TypeMismatch
        },
        None => true,
    }
}

/// Over a whole write, every id minted is at or above the counters the
/// validator started from, so it is none the snapshot holds, and the final
/// counters stay above every id of the final shadow.
pub proof fn lemma_write_mints_fresh_ids(
    s: SchemaModel,
    ids: IdCounters,
    raws: Seq<Seq<char>>,
    p: Precision,
    partial: bool,
)
    requires
        ids_above(s, ids),
        run(s, ids, raws, p, partial) is Some,
    ensures
        ids_above(run(s, ids, raws, p, partial)->Some_0.0, run(s, ids, raws, p, partial)->Some_0.1),
        run(s, ids, raws, p, partial)->Some_0.1.next_table_id >= ids.next_table_id,
        run(s, ids, raws, p, partial)->Some_0.1.next_column_id >= ids.next_column_id,
    decreases raws.len(),
{
    if raws.len() > 0 {
        lemma_write_mints_fresh_ids(s, ids, raws.drop_last(), p, partial);
        let st = run(s, ids, raws.drop_last(), p, partial)->Some_0;
        if let Some(Ok(t)) = tokens_of(raws.last()) {
            if can_qualify(st.0, st.1, t, p) {
                lemma_qualify_mints_fresh_ids(st.0, st.1, t, p);
            }
        }
    }
}

/// The catalog still holds the snapshot and can number one more batch.
pub open spec fn catalog_holds(c: CatalogModel, s: SchemaModel) -> bool {
    find_database_id(c.databases, s.id) matches Some(d) && c.databases[d] == s && c.sequence_number
        < u64::MAX
}

/// Each accepted record could qualify against what the records before it
/// left, and each rejected one failed to tokenize or could not.
pub open spec fn judged(
    s: SchemaModel,
    ids: IdCounters,
    raws: Seq<Seq<char>>,
    p: Precision,
    partial: bool,
    sources: Seq<int>,
    err_sources: Seq<int>,
) -> bool {
    &&& forall|a: int|
        0 <= a < sources.len() ==> run(s, ids, raws.take(sources[a]), p, partial) is Some && (
        #[trigger] tokens_of(raws[sources[a]]) matches Some(Ok(t)) && can_qualify(
            run(s, ids, raws.take(sources[a]), p, partial)->Some_0.0,
            run(s, ids, raws.take(sources[a]), p, partial)->Some_0.1,
            t,
            p,
        ))
    &&& forall|b: int|
        0 <= b < err_sources.len() ==> run(s, ids, raws.take(err_sources[b]), p, partial) is Some && (
        #[trigger] tokens_of(raws[err_sources[b]]) matches Some(Ok(t)) ==> !can_qualify(
            run(s, ids, raws.take(err_sources[b]), p, partial)->Some_0.0,
            run(s, ids, raws.take(err_sources[b]), p, partial)->Some_0.1,
            t,
            p,
        ))
}

/// The errors came, in order, from the records at `err_sources`, and every
/// record that tokenizes is accepted or reported, never both.
pub open spec fn errors_placed(
    errors: Seq<WriteLineError>,
    raws: Seq<Seq<char>>,
    sources: Seq<int>,
    err_sources: Seq<int>,
    upto: int,
) -> bool {
    &&& err_sources.len() == errors.len()
    &&& forall|a: int|
        0 <= a < err_sources.len() ==> 0 <= #[trigger] err_sources[a] < upto && errors[a].original_line@
            == raws[err_sources[a]] && errors[a].line_number == tokenized_count(
            raws.take(err_sources[a] + 1),
        ) && tokens_of(raws[err_sources[a]]) is Some && (tokens_of(raws[err_sources[a]]) matches Some(Err(m))
            ==> errors[a].error == LineError::Tokenize(m))
    &&& forall|q: int|
        0 <= q < upto && #[trigger] tokens_of(raws[q]) is Some ==> sources.contains(q)
            || err_sources.contains(q)
    &&& forall|a: int, b: int|
        0 <= a < sources.len() && 0 <= b < err_sources.len() ==> #[trigger] sources[a]
            != #[trigger] err_sources[b]
}

/// What a successful parse promises of the parsed state.
pub open spec fn parsed_state(
    p: LinesParsed,
    snapshot: SchemaModel,
    raws: Seq<Seq<char>>,
    accept_partial: bool,
    precision: Precision,
    ingest_time: i64,
    sources: Seq<int>,
) -> bool {
    &&& forall|a: int|
        0 <= a < sources.len() ==> record_carries(
            p.lines@[a],
            #[trigger] tokens_of(raws[sources[a]]),
            p.db_schema@,
            precision,
            ingest_time,
        )
    &&& p.db_schema@.id == snapshot.id
    &&& p.db_schema@.name == snapshot.name
    &&& p.lines.len() + p.errors.len() == tokenized_count(raws)
    &&& !accept_partial ==> p.errors.len() == 0
    &&& sources.len() == p.lines.len()
    &&& forall|a: int, b: int| 0 <= a < b < sources.len() ==> sources[a] < sources[b]
    &&& forall|a: int| 0 <= a < sources.len() ==> 0 <= #[trigger] sources[a] < raws.len()
    &&& p.bytes == min_u64(source_bytes(raws, sources))
    &&& forall|a: int, b: int|
        0 <= a < b < p.errors.len() ==> p.errors@[a].line_number < p.errors@[b].line_number
    &&& forall|a: int|
        0 <= a < p.errors.len() ==> 1 <= (#[trigger] p.errors@[a]).line_number <= tokenized_count(raws)
}

impl WriteValidator<WithCatalog> {
    /// Binds a validator to namespace `db_name`, which the catalog creates
    /// where it has none, and takes a snapshot of its schema.
    pub fn initialize(db_name: &String, catalog: &mut Catalog, time_now_ns: i64) -> (r: Result<
        WriteValidator<WithCatalog>,
        CatalogError,
    >)
        ensures
            r is Err <==> find_database(old(catalog)@.databases, db_name@) is None
                && old(catalog)@.next_database_id == u64::MAX,
            r is Err ==> final(catalog)@ == old(catalog)@ && r matches Err(CatalogError::Exhausted),
            r matches Ok(v) ==> v.state.db_schema@.name == db_name@ && v.state.ids
                == final(catalog)@.ids && v.state.time_now_ns == time_now_ns,
            find_database(old(catalog)@.databases, db_name@) matches Some(i) ==> (r is Ok
                && r->Ok_0.state.db_schema@ == old(catalog)@.databases[i] && final(catalog)@ == old(
                catalog,
            )@),
            r is Ok && find_database(old(catalog)@.databases, db_name@) is None
                ==> r->Ok_0.state.db_schema@.tables.len() == 0 && r->Ok_0.state.db_schema@.id
                == old(catalog)@.next_database_id && final(catalog)@.databases == old(
                catalog,
            )@.databases.push(r->Ok_0.state.db_schema@),
            r is Ok ==> (find_database(final(catalog)@.databases, db_name@) matches Some(i)
                && final(catalog)@.databases[i] == r->Ok_0.state.db_schema@),
    {
        let db_schema = match catalog.db_or_create(db_name) {
            Ok(s) => s,
            Err(e) => {
                return Err(e);
            },
        };
        let ids = catalog.id_counters();
        proof {
            lemma_find_database_bounds(old(catalog)@.databases, db_name@);
            if find_database(old(catalog)@.databases, db_name@) is None {
                let dbs = catalog@.databases;
                assert(dbs.drop_last() =~= old(catalog)@.databases);
            }
        }
        Ok(WriteValidator { state: WithCatalog { db_schema, ids, time_now_ns } })
    }

    /// Tokenizes and qualifies every record of `lp` in order against a
    /// shadow of the snapshot, then publishes the staged schema changes to
    /// `catalog` as one batch.
    #[verifier::rlimit(100)]
    #[verifier::spinoff_prover]
    pub fn parse_lines_and_update_schema(
        self,
        catalog: &mut Catalog,
        lp: &str,
        accept_partial: bool,
        ingest_time: i64,
        precision: Precision,
    ) -> (r: Result<WriteValidator<LinesParsed>, WriteError>)
        ensures
            r is Err ==> final(catalog)@ == old(catalog)@,
            all_clean(self.state.db_schema@, raw_lines_of(lp@), precision) ==> r is Ok,
            r matches Ok(v) ==> (run(
                self.state.db_schema@,
                self.state.ids,
                raw_lines_of(lp@),
                precision,
                accept_partial,
            ) matches Some(st) && st.0 == v.state.db_schema@),
            run(self.state.db_schema@, self.state.ids, raw_lines_of(lp@), precision, accept_partial)
                is Some && catalog_holds(old(catalog)@, self.state.db_schema@) ==> r is Ok,
            run(self.state.db_schema@, self.state.ids, raw_lines_of(lp@), precision, accept_partial)
                is None <==> r matches Err(WriteError::ParseError(_)),
            r matches Err(WriteError::Catalog(_)) ==> !catalog_holds(
                old(catalog)@,
                self.state.db_schema@,
            ),
            r matches Ok(v) ==> exists|sources: Seq<int>, err_sources: Seq<int>|
                judged(
                    self.state.db_schema@,
                    self.state.ids,
                    raw_lines_of(lp@),
                    precision,
                    accept_partial,
                    sources,
                    err_sources,
                ) && parsed_state(
                    v.state,
                    self.state.db_schema@,
                    raw_lines_of(lp@),
                    accept_partial,
                    precision,
                    ingest_time,
                    sources,
                ) && errors_placed(
                    v.state.errors@,
                    raw_lines_of(lp@),
                    sources,
                    err_sources,
                    raw_lines_of(lp@).len() as int,
                ),
            r matches Ok(v) ==> (v.state.catalog_batch is None <==> final(catalog)@ == old(catalog)@),
            r is Ok && all_resident(self.state.db_schema@, raw_lines_of(lp@))
                ==> r->Ok_0.state.catalog_batch is None,
            !accept_partial && some_type_conflict(self.state.db_schema@, raw_lines_of(lp@)) ==> r is Err,
            find_database_id(old(catalog)@.databases, self.state.db_schema@.id) matches Some(d) ==> (
            r is Ok && old(catalog)@.databases[d] == self.state.db_schema@
                ==> final(catalog)@.databases[d] == r->Ok_0.state.db_schema@),
            r is Ok && !accept_partial ==> all_resident(r->Ok_0.state.db_schema@, raw_lines_of(lp@)),
            r is Ok && !accept_partial ==> all_clean(
                r->Ok_0.state.db_schema@,
                raw_lines_of(lp@),
                precision,
            ),
            r matches Ok(v) ==> extends(self.state.db_schema@, v.state.db_schema@),
            r matches Ok(v) ==> (v.state.catalog_batch is None ==> v.state.db_schema@ == self.state.db_schema@),
            r matches Ok(v) ==> (v.state.catalog_batch matches Some(o) ==> apply_ops(
                self.state.db_schema@,
                o.batch.ops@,
            ) == Some(v.state.db_schema@) && o.batch.ops.len() == staged_op_count(
                self.state.db_schema@,
                self.state.ids,
                raw_lines_of(lp@),
                precision,
                accept_partial,
            ) && o.sequence_number == old(catalog)@.sequence_number + 1
                && o.batch.database_id == self.state.db_schema@.id && o.batch.database_name@
                == self.state.db_schema@.name && o.batch.time_ns == self.state.time_now_ns
                && o.batch.ops.len() > 0),
            accept_partial && r is Err ==> r matches Err(WriteError::Catalog(_)),
            r matches Err(WriteError::ParseError(e)) ==> !accept_partial && exists|q: int|
                0 <= q < raw_lines_of(lp@).len() && e.original_line@ == raw_lines_of(lp@)[q]
                    && e.line_number == tokenized_count(raw_lines_of(lp@).take(q + 1))
                    && #[trigger] tokens_of(raw_lines_of(lp@)[q]) is Some && run(
                    self.state.db_schema@,
                    self.state.ids,
                    raw_lines_of(lp@).take(q),
                    precision,
                    accept_partial,
                ) is Some && step(
                    run(self.state.db_schema@, self.state.ids, raw_lines_of(lp@).take(q), precision, accept_partial)->Some_0.0,
                    run(self.state.db_schema@, self.state.ids, raw_lines_of(lp@).take(q), precision, accept_partial)->Some_0.1,
                    raw_lines_of(lp@)[q],
                    precision,
                    accept_partial,
                ) is None && error_fits(
                    e.error,
                    run(self.state.db_schema@, self.state.ids, raw_lines_of(lp@).take(q), precision, accept_partial)->Some_0.0,
                    tokens_of(raw_lines_of(lp@)[q]),
                ) && forall|q2: int|
                    0 <= q2 < q ==> (#[trigger] tokens_of(raw_lines_of(lp@)[q2]) matches Some(r2)
                        ==> r2 is Ok),
    {
        let WithCatalog { db_schema, ids, time_now_ns } = self.state;
        let ghost snapshot = db_schema@;
        let raws = split_raw_lines(lp);
        let ghost rv = raws@.map_values(|s: String| s@);
        let mut shadow = db_schema.copy();
        let mut local_ids = ids;
        let mut lines: Vec<QualifiedLine> = Vec::new();
        let mut errors: Vec<WriteLineError> = Vec::new();
        let mut ops: Vec<CatalogOp> = Vec::new();
        let mut bytes: u64 = 0;
        let mut count: usize = 0;
        let ghost mut sources: Seq<int> = Seq::empty();
        let ghost mut err_sources: Seq<int> = Seq::empty();
        proof {
            lemma_extends_refl(snapshot);
        }
        let mut i: usize = 0;
        while i < raws.len()
            invariant
                0 <= i <= raws.len(),
                rv == raws@.map_values(|s: String| s@),
                rv == raw_lines_of(lp@),
                snapshot == db_schema@,
                snapshot == self.state.db_schema@,
                *catalog == *old(catalog),
                count == tokenized_count(rv.take(i as int)),
                count <= i,
                lines.len() + errors.len() == count,
                !accept_partial ==> errors.len() == 0,
                shadow@.id == snapshot.id,
                shadow@.name == snapshot.name,
                apply_ops(snapshot, ops@) == Some(shadow@),
                all_resident(snapshot, rv.take(i as int)) ==> ops.len() == 0 && shadow@ == snapshot,
                extends(snapshot, shadow@),
                !accept_partial ==> all_resident(shadow@, rv.take(i as int)),
                !accept_partial ==> all_clean(shadow@, rv.take(i as int), precision),
                ids == self.state.ids,
                run(snapshot, ids, rv.take(i as int), precision, accept_partial) == Some((shadow@, local_ids)),
                judged(snapshot, ids, rv, precision, accept_partial, sources, err_sources),
                ops@.len() == staged_op_count(snapshot, ids, rv.take(i as int), precision, accept_partial),
                !accept_partial ==> !some_type_conflict(snapshot, rv.take(i as int)),
                sources.len() == lines.len(),
                forall|a: int|
                    0 <= a < sources.len() ==> record_carries(
                        lines@[a],
                        #[trigger] tokens_of(rv[sources[a]]),
                        shadow@,
                        precision,
                        ingest_time,
                    ),
                forall|a: int, b: int| 0 <= a < b < sources.len() ==> sources[a] < sources[b],
                forall|a: int| 0 <= a < sources.len() ==> 0 <= #[trigger] sources[a] < i,
                bytes == min_u64(source_bytes(rv, sources)),
                forall|a: int, b: int|
                    0 <= a < b < errors.len() ==> errors@[a].line_number < errors@[b].line_number,
                forall|a: int| 0 <= a < errors.len() ==> 1 <= (#[trigger] errors@[a]).line_number <= count,
                errors_placed(errors@, rv, sources, err_sources, i as int),
            decreases raws.len() - i,
        {
            proof {
                assert(rv.take(i as int + 1).drop_last() =~= rv.take(i as int));
                assert(rv.take(i as int + 1).last() == rv[i as int]);
            }
            let ghost sh0 = shadow@;
            let ghost ids_i = local_ids;
            let raw = &raws[i];
            let tokens = tokenize_record(raw.as_str());
            let tokenized = tokens_is_some(&tokens);
            match tokens {
                None => {},
                Some(Err(message)) => {
                    let e = WriteLineError {
                        original_line: raw.clone(),
                        line_number: count + 1,
                        error: LineError::Tokenize(message),
                    };
                    if !accept_partial {
                        proof {
                            assert(tokens_of(rv[i as int]) matches Some(r) && r is Err);
                            assert(run(snapshot, ids, rv.take(i as int + 1), precision, accept_partial) is None);
                            lemma_run_stuck(snapshot, ids, rv, precision, accept_partial, i as int + 1);
                        }
                        return Err(WriteError::ParseError(e));
                    }
                    let ghost errors_before = errors@;
                    errors.push(e);
                    proof {
                        let es2 = err_sources.push(i as int);
                        assert forall|a: int| 0 <= a < es2.len() implies 0 <= #[trigger] es2[a] < i + 1
                            && errors@[a].original_line@ == rv[es2[a]] && errors@[a].line_number
                            == tokenized_count(rv.take(es2[a] + 1)) && tokens_of(rv[es2[a]]) is Some
                            && (tokens_of(rv[es2[a]]) matches Some(Err(m)) ==> errors@[a].error
                            == LineError::Tokenize(m)) by {
                            if a < err_sources.len() {
                                assert(errors@[a] == errors_before[a]);
                            } else {
                                assert(rv[i as int] == raws@[i as int]@);
                            }
                        }
                        assert forall|a: int, b: int|
                            0 <= a < sources.len() && 0 <= b < es2.len() implies #[trigger] sources[a]
                            != #[trigger] es2[b] by {
                            if b < err_sources.len() {
                                assert(es2[b] == err_sources[b]);
                            }
                        }
                        assert forall|q: int| 0 <= q < i + 1 && #[trigger] tokens_of(rv[q]) is Some implies sources.contains(q)
                            || es2.contains(q) by {
                            if q < i {
                                if err_sources.contains(q) {
                                    let b = choose|b: int| 0 <= b < err_sources.len() && err_sources[b] == q;
                                    assert(es2[b] == q);
                                }
                            } else {
                                assert(es2[err_sources.len() as int] == q);
                            }
                        }
                        assert(judged(snapshot, ids, rv, precision, accept_partial, sources, es2)) by {
                            assert forall|b: int| 0 <= b < es2.len() implies run(snapshot, ids, rv.take(es2[b]), precision, accept_partial) is Some
                                && (#[trigger] tokens_of(rv[es2[b]]) matches Some(Ok(t)) ==> !can_qualify(
                                run(snapshot, ids, rv.take(es2[b]), precision, accept_partial)->Some_0.0,
                                run(snapshot, ids, rv.take(es2[b]), precision, accept_partial)->Some_0.1,
                                t,
                                precision,
                            )) by {
                                if b < err_sources.len() {
                                    assert(es2[b] == err_sources[b]);
                                }
                            }
                        }
                        err_sources = es2;
                    }
                },
                Some(Ok(line)) => {
                    let ghost ops_before = ops@;
                    let ghost shadow_before = shadow@;
                    let ghost ids_before = local_ids;
                    match validate_and_qualify_line(
                        &mut shadow,
                        &mut local_ids,
                        &line,
                        ingest_time,
                        precision,
                    ) {
                        Ok((ql, op)) => {
                            proof {
                                assert(can_qualify(shadow_before, ids_before, line, precision));
                                let after = shadow@;
                                let m = line.measurement@;
                                assert(qualified(
                                    shadow_before,
                                    after,
                                    ids_before,
                                    local_ids,
                                    line,
                                    precision,
                                    ingest_time,
                                    ql,
                                    op,
                                ));
                                if op is Some {
                                    lemma_apply_op_extends(shadow_before, op->Some_0);
                                } else {
                                    lemma_extends_refl(shadow_before);
                                }
                                let j = find_table(after.tables, m).unwrap();
                                lemma_row_matches_resident(after.tables[j].columns, line, ql.row);
                                if find_table(snapshot.tables, m) is Some {
                                    lemma_prefix_keeps_lookups(
                                        columns_of_table(snapshot, m),
                                        columns_of_table(shadow_before, m),
                                        line,
                                    );
                                }
                                assert(tokens_of(rv[i as int]) == Some(Ok::<LineTokens, String>(line)));
                                assert(rv.take(i as int + 1) =~= rv.take(i as int).push(rv[i as int]));
                                if !accept_partial {
                                    lemma_row_matches_clean(after.tables[j].columns, line, ql.row);
                                    lemma_clean_step(shadow_before, after, rv.take(i as int), rv[i as int], precision);
                                    lemma_parse_step(snapshot, shadow_before, after, rv.take(i as int), rv[i as int]);
                                } else {
                                    lemma_extends_trans(snapshot, shadow_before, after);
                                }
                            }
                            let raw_str = raw.as_str();
                            let raw_len: usize = raw_str.len();
                            proof {
                                assert(rv[i as int] == raws@[i as int]@);
                                assert(raw_str@ == rv[i as int]);
                                assert(raw_len == byte_len(rv[i as int]));
                            }
                            let len = raw_len as u64;
                            if bytes <= u64::MAX - len {
                                bytes = bytes + len;
                            } else {
                                bytes = u64::MAX;
                            }
                            match op {
                                Some(op) => {
                                    ops.push(op);
                                    proof {
                                        assert(ops@.drop_last() =~= ops_before);
                                    }
                                },
                                None => {},
                            }
                            proof {
                                let nt = line.tags.len() as int;
                                let j = find_table(shadow@.tables, line.measurement@).unwrap();
                                assert(row_matches(shadow@.tables[j].columns, line, ql.row));
                                assert forall|k: int| 0 <= k < nt implies (#[trigger] ql.row.fields@[k]).value
                                    == FieldData::Tag(line.tags@[k].1) by {}
                                assert forall|k: int| 0 <= k < line.fields.len() implies (#[trigger] ql.row.fields@[nt + k]).value
                                    == field_data_of(line.fields@[k].1) by {}
                                assert(carries(ql, line, precision, ingest_time));
                            }
                            let ghost lines_before = lines@;
                            lines.push(ql);
                            proof {
                                assert forall|a: int| 0 <= a < sources.len() + 1 implies record_carries(
                                    lines@[a],
                                    #[trigger] tokens_of(rv[sources.push(i as int)[a]]),
                                    shadow@,
                                    precision,
                                    ingest_time,
                                ) by {
                                    if a < sources.len() {
                                        assert(lines@[a] == lines_before[a]);
                                        assert(sources.push(i as int)[a] == sources[a]);
                                        assert(record_carries(
                                            lines_before[a],
                                            tokens_of(rv[sources[a]]),
                                            shadow_before,
                                            precision,
                                            ingest_time,
                                        ));
                                        let t = tokens_of(rv[sources[a]])->Some_0->Ok_0;
                                        lemma_placed_extends(shadow_before, shadow@, t, lines_before[a]);
                                    }
                                }
                                let s2 = sources.push(i as int);
                                assert(s2.drop_last() =~= sources);
                                assert forall|a: int, b: int|
                                    0 <= a < s2.len() && 0 <= b < err_sources.len() implies #[trigger] s2[a]
                                    != #[trigger] err_sources[b] by {
                                    if a < sources.len() {
                                        assert(s2[a] == sources[a]);
                                    }
                                }
                                assert forall|q: int| 0 <= q < i + 1 && #[trigger] tokens_of(rv[q]) is Some implies s2.contains(q)
                                    || err_sources.contains(q) by {
                                    if q < i {
                                        if sources.contains(q) {
                                            let b = choose|b: int| 0 <= b < sources.len() && sources[b] == q;
                                            assert(s2[b] == q);
                                        }
                                    } else {
                                        assert(s2[sources.len() as int] == q);
                                    }
                                }
                                assert(source_bytes(rv, s2) == source_bytes(rv, sources)
                                    + byte_len(rv[i as int]));
                                assert(judged(snapshot, ids, rv, precision, accept_partial, s2, err_sources)) by {
                                    assert forall|a: int| 0 <= a < s2.len() implies run(snapshot, ids, rv.take(s2[a]), precision, accept_partial) is Some
                                        && (#[trigger] tokens_of(rv[s2[a]]) matches Some(Ok(t)) && can_qualify(
                                        run(snapshot, ids, rv.take(s2[a]), precision, accept_partial)->Some_0.0,
                                        run(snapshot, ids, rv.take(s2[a]), precision, accept_partial)->Some_0.1,
                                        t,
                                        precision,
                                    )) by {
                                        if a < sources.len() {
                                            assert(s2[a] == sources[a]);
                                        }
                                    }
                                }
                                sources = s2;
                            }
                        },
                        Err(error) => {
                            proof {
                                if all_clean(snapshot, rv, precision) {
                                    lemma_clean_prefix_resident(snapshot, rv, precision, i as int);
                                    // a clean record over an unchanged shadow qualifies
                                    assert(tokens_of(rv[i as int]) == Some(Ok::<LineTokens, String>(line)));
                                }
                            }
                            let e = WriteLineError {
                                original_line: raw.clone(),
                                line_number: count + 1,
                                error,
                            };
                            proof {
                                assert(!can_qualify(shadow_before, ids_before, line, precision));
                                assert(tokens_of(rv[i as int]) == Some(Ok::<LineTokens, String>(line)));
                            }
                            if !accept_partial {
                                proof {
                                    assert(run(snapshot, ids, rv.take(i as int + 1), precision, accept_partial) is None);
                                    lemma_run_stuck(snapshot, ids, rv, precision, accept_partial, i as int + 1);
                                }
                                return Err(WriteError::ParseError(e));
                            }
                            let ghost errors_before = errors@;
                            errors.push(e);
                            proof {
                                let es2 = err_sources.push(i as int);
                                assert forall|a: int| 0 <= a < es2.len() implies 0 <= #[trigger] es2[a] < i + 1
                                    && errors@[a].original_line@ == rv[es2[a]] && errors@[a].line_number
                                    == tokenized_count(rv.take(es2[a] + 1)) && tokens_of(rv[es2[a]]) is Some
                                    && (tokens_of(rv[es2[a]]) matches Some(Err(m)) ==> errors@[a].error
                                    == LineError::Tokenize(m)) by {
                                    if a < err_sources.len() {
                                        assert(errors@[a] == errors_before[a]);
                                    } else {
                                        assert(rv[i as int] == raws@[i as int]@);
                                        assert(tokens_of(rv[i as int]) == Some(Ok::<LineTokens, String>(line)));
                                    }
                                }
                                assert forall|a: int, b: int|
                                    0 <= a < sources.len() && 0 <= b < es2.len() implies #[trigger] sources[a]
                                    != #[trigger] es2[b] by {
                                    if b < err_sources.len() {
                                        assert(es2[b] == err_sources[b]);
                                    }
                                }
                                assert forall|q: int| 0 <= q < i + 1 && #[trigger] tokens_of(rv[q]) is Some implies sources.contains(q)
                                    || es2.contains(q) by {
                                    if q < i {
                                        if err_sources.contains(q) {
                                            let b = choose|b: int| 0 <= b < err_sources.len() && err_sources[b] == q;
                                            assert(es2[b] == q);
                                        }
                                    } else {
                                        assert(es2[err_sources.len() as int] == q);
                                    }
                                }
                                assert(judged(snapshot, ids, rv, precision, accept_partial, sources, es2)) by {
                                    assert forall|b: int| 0 <= b < es2.len() implies run(snapshot, ids, rv.take(es2[b]), precision, accept_partial) is Some
                                        && (#[trigger] tokens_of(rv[es2[b]]) matches Some(Ok(t)) ==> !can_qualify(
                                        run(snapshot, ids, rv.take(es2[b]), precision, accept_partial)->Some_0.0,
                                        run(snapshot, ids, rv.take(es2[b]), precision, accept_partial)->Some_0.1,
                                        t,
                                        precision,
                                    )) by {
                                        if b < err_sources.len() {
                                            assert(es2[b] == err_sources[b]);
                                        }
                                    }
                                }
                                err_sources = es2;
                            }
                        },
                    }
                },
            }
            if tokenized {
                count = count + 1;
            }
            proof {
                assert(step(sh0, ids_i, rv[i as int], precision, accept_partial) == Some((shadow@, local_ids)));
                assert(rv.take(i as int + 1) =~= rv.take(i as int).push(rv[i as int]));
                if shadow@ == sh0 {
                    lemma_extends_refl(sh0);
                    if !accept_partial {
                        lemma_clean_step(sh0, sh0, rv.take(i as int), rv[i as int], precision);
                        lemma_parse_step(snapshot, sh0, sh0, rv.take(i as int), rv[i as int]);
                    }
                }
                if all_resident(snapshot, rv.take(i as int + 1)) {
                    assert forall|q: int| 0 <= q < rv.take(i as int).len() implies (#[trigger] tokens_of(
                        rv.take(i as int)[q],
                    ) matches Some(Ok(t)) ==> find_table(snapshot.tables, t.measurement@) is Some
                        && is_resident(columns_of_table(snapshot, t.measurement@), t)) by {
                        assert(rv.take(i as int)[q] == rv.take(i as int + 1)[q]);
                    }
                }
            }
            i = i + 1;
        }
        proof {
            assert(rv.take(i as int) =~= rv);
        }
        let ghost staged = ops@;
        proof {
            if all_clean(snapshot, rv, precision) {
                lemma_clean_prefix_resident(snapshot, rv, precision, rv.len() as int);
                assert(rv.take(rv.len() as int) =~= rv);
            }
        }
        let catalog_batch = if ops.len() == 0 {
            None
        } else {
            let batch = CatalogBatch {
                database_id: db_schema.id,
                database_name: db_schema.name.clone(),
                time_ns: time_now_ns,
                ops,
            };
            proof {
                assert(batch.ops@ == ops@);
            }
            let applied = catalog.apply_catalog_batch(batch, local_ids);
            proof {
                lemma_find_database_id_bounds(old(catalog)@.databases, snapshot.id);
                if find_database_id(old(catalog)@.databases, snapshot.id) is Some && applied is Ok {
                    let d = find_database_id(old(catalog)@.databases, snapshot.id).unwrap();
                    assert(catalog@.databases == old(catalog)@.databases.update(
                        d,
                        apply_ops(old(catalog)@.databases[d], staged).unwrap(),
                    ));
                }
            }
            match applied {
                Ok(b) => b,
                Err(e) => {
                    return Err(WriteError::Catalog(e));
                },
            }
        };
        proof {
            if staged.len() == 0 {
                assert(shadow@ == snapshot);
            }
            if !accept_partial && find_database_id(old(catalog)@.databases, snapshot.id) is Some {
                let d = find_database_id(old(catalog)@.databases, snapshot.id).unwrap();
                lemma_find_database_id_bounds(old(catalog)@.databases, snapshot.id);
                if old(catalog)@.databases[d] == snapshot {
                    if staged.len() > 0 {
                        assert(catalog@.databases[d] == apply_ops(snapshot, staged).unwrap());
                    }
                    assert(catalog@.databases[d] == shadow@);
                }
            }
        }
        let state = LinesParsed { db_schema: shadow, lines, bytes, catalog_batch, errors };
        proof {
            assert(parsed_state(state, snapshot, rv, accept_partial, precision, ingest_time, sources));
            assert(errors_placed(state.errors@, rv, sources, err_sources, rv.len() as int));
            assert(state.db_schema@ == shadow@);
        }
        Ok(WriteValidator { state })
    }
}

proof fn lemma_parse_step(
    snapshot: SchemaModel,
    before: SchemaModel,
    after: SchemaModel,
    done: Seq<Seq<char>>,
    next: Seq<char>,
)
    requires
        extends(snapshot, before),
        extends(before, after),
        all_resident(before, done),
        !some_type_conflict(snapshot, done),
        tokens_of(next) matches Some(Ok(t)) ==> find_table(after.tables, t.measurement@) is Some
            && is_resident(columns_of_table(after, t.measurement@), t) && !(find_table(
            snapshot.tables,
            t.measurement@,
        ) is Some && has_type_conflict(columns_of_table(snapshot, t.measurement@), t)),
    ensures
        extends(snapshot, after),
        all_resident(after, done.push(next)),
        !some_type_conflict(snapshot, done.push(next)),
{
    lemma_extends_trans(snapshot, before, after);
    let all = done.push(next);
    assert forall|q: int| 0 <= q < all.len() implies (#[trigger] tokens_of(all[q]) matches Some(
        Ok(t),
    ) ==> find_table(after.tables, t.measurement@) is Some && is_resident(
        columns_of_table(after, t.measurement@),
        t,
    )) by {
        if q < done.len() {
            assert(all[q] == done[q]);
            if let Some(Ok(t)) = tokens_of(done[q]) {
                assert(find_table(before.tables, t.measurement@) is Some);
                lemma_prefix_keeps_lookups(
                    columns_of_table(before, t.measurement@),
                    columns_of_table(after, t.measurement@),
                    t,
                );
            }
        } else {
            assert(all[q] == next);
        }
    }
    assert forall|q: int| 0 <= q < all.len() implies !(#[trigger] tokens_of(all[q]) matches Some(
        Ok(t),
    ) && find_table(snapshot.tables, t.measurement@) is Some && has_type_conflict(
        columns_of_table(snapshot, t.measurement@),
        t,
    )) by {
        if q < done.len() {
            assert(all[q] == done[q]);
        } else {
            assert(all[q] == next);
        }
    }
}

proof fn lemma_clean_step(
    before: SchemaModel,
    after: SchemaModel,
    done: Seq<Seq<char>>,
    next: Seq<char>,
    precision: Precision,
)
    requires
        extends(before, after),
        all_clean(before, done, precision),
        tokens_of(next) matches Some(r) ==> (r matches Ok(t) && find_table(after.tables, t.measurement@)
            is Some && is_clean(columns_of_table(after, t.measurement@), t) && time_fits(
            precision,
            t.timestamp,
        )),
    ensures
        all_clean(after, done.push(next), precision),
{
    let all = done.push(next);
    assert forall|q: int| 0 <= q < all.len() implies (#[trigger] tokens_of(all[q]) matches Some(r) ==> (r matches Ok(
        t,
    ) && find_table(after.tables, t.measurement@) is Some && is_clean(
        columns_of_table(after, t.measurement@),
        t,
    ) && time_fits(precision, t.timestamp))) by {
        if q < done.len() {
            assert(all[q] == done[q]);
            if let Some(Ok(t)) = tokens_of(done[q]) {
                assert(find_table(before.tables, t.measurement@) is Some);
                lemma_prefix_keeps_clean(
                    columns_of_table(before, t.measurement@),
                    columns_of_table(after, t.measurement@),
                    t,
                );
            }
        } else {
            assert(all[q] == next);
        }
    }
}

fn tokens_is_some(t: &Option<Result<LineTokens, String>>) -> (r: bool)
    ensures
        r == t is Some,
{
    t.is_some()
}

impl LinesParsed {
    /// The rows of the accepted lines, in input order.
    pub fn to_rows(self) -> (r: Vec<Row>)
        ensures
            r@.len() == self.lines@.len(),
            forall|k: int| 0 <= k < r@.len() ==> r@[k] == self.lines@[k].row,
    {
        let ghost all = self.lines@;
        let mut src = self.lines;
        let mut reversed: Vec<Row> = Vec::new();
        while src.len() > 0
            invariant
                src@ == all.take(src@.len() as int),
                reversed@.len() + src@.len() == all.len(),
                forall|q: int| 0 <= q < reversed@.len() ==> reversed@[q] == all[all.len() - 1 - q].row,
            decreases src@.len(),
        {
            let ghost n = src@.len();
            let line = src.pop().unwrap();
            proof {
                assert(src@ =~= all.take(n - 1));
            }
            reversed.push(line.row);
        }
        let mut rows: Vec<Row> = Vec::new();
        while reversed.len() > 0
            invariant
                reversed@.len() + rows@.len() == all.len(),
                forall|q: int| 0 <= q < reversed@.len() ==> reversed@[q] == all[all.len() - 1 - q].row,
                forall|q: int| 0 <= q < rows@.len() ==> rows@[q] == all[q].row,
            decreases reversed@.len(),
        {
            let row = reversed.pop().unwrap();
            rows.push(row);
        }
        rows
    }
}

impl WriteValidator<LinesParsed> {
    /// The parsed state.
    pub fn into_inner(self) -> (r: LinesParsed)
        ensures
            r == self.state,
    {
        self.state
    }
}

/// Width of the time windows that the buffer groups rows by.
#[derive(Debug, Clone, Copy, PartialEq, Eq, Structural)]
pub struct Gen1Duration {
    pub nanos: i64,
}

impl Gen1Duration {
    /// One-minute windows.
    pub fn new_1m() -> (r: Gen1Duration)
        ensures
            r.nanos == 60_000_000_000,
    {
        Gen1Duration { nanos: 60_000_000_000 }
    }

    /// Five-minute windows.
    pub fn new_5m() -> (r: Gen1Duration)
        ensures
            r.nanos == 300_000_000_000,
    {
        Gen1Duration { nanos: 300_000_000_000 }
    }

    /// Ten-minute windows.
    pub fn new_10m() -> (r: Gen1Duration)
        ensures
            r.nanos == 600_000_000_000,
    {
        Gen1Duration { nanos: 600_000_000_000 }
    }

    /// The window start that holds `t`.
    pub fn chunk_time_for_timestamp(&self, t: i64) -> (r: i64)
        requires
            self.nanos > 0,
            chunk_start(t as int, self.nanos as int) >= i64::MIN,
        ensures
            r == chunk_start(t as int, self.nanos as int),
    {
        crate::chunks::chunk_time_for(t, self.nanos)
    }
}

/// The outcome of a write: counts, per-line errors, the bucketed rows and
/// the published schema changes.
#[derive(Debug)]
pub struct ValidatedLines {
    /// Number of lines attempted: the accepted ones and the rejected ones.
    pub line_count: usize,
    /// Bytes of the accepted lines.
    pub valid_bytes_count: u64,
    /// Number of fields over the accepted lines.
    pub field_count: usize,
    /// Number of tags over the accepted lines.
    pub index_count: usize,
    /// The lines that were not accepted, in input order.
    pub errors: Vec<WriteLineError>,
    /// The accepted rows.
    pub valid_data: WriteBatch,
    /// The schema changes that the catalog applied, if any.
    pub catalog_updates: Option<OrderedCatalogBatch>,
}

impl From<ValidatedLines> for WriteBatch {
    fn from(value: ValidatedLines) -> (r: WriteBatch) {
        value.valid_data
    }
}

impl vstd::std_specs::convert::FromSpecImpl<ValidatedLines> for WriteBatch {
    open spec fn obeys_from_spec() -> bool {
        true
    }

    open spec fn from_spec(v: ValidatedLines) -> WriteBatch {
        v.valid_data
    }
}

/// The rows of `lines` of table `t` whose time falls in the window that
/// starts at `c`, in input order.
pub open spec fn rows_expected(lines: Seq<QualifiedLine>, window: int, t: u64, c: i64) -> Seq<Row>
    decreases lines.len(),
{
    if lines.len() == 0 {
        Seq::empty()
    } else {
        rows_expected(lines.drop_last(), window, t, c) + if lines.last().table_id == t && chunk_start(
            lines.last().row.time as int,
            window,
        ) == c as int {
            seq![lines.last().row]
        } else {
            Seq::<Row>::empty()
        }
    }
}

/// The table ids of `lines` in order of first appearance.
pub open spec fn first_tables(lines: Seq<QualifiedLine>) -> Seq<u64>
    decreases lines.len(),
{
    if lines.len() == 0 {
        Seq::empty()
    } else {
        let p = first_tables(lines.drop_last());
        if p.contains(lines.last().table_id) {
            p
        } else {
            p.push(lines.last().table_id)
        }
    }
}

/// The window starts of the rows of table `t` in `lines`, in order of first
/// appearance.
pub open spec fn first_windows(lines: Seq<QualifiedLine>, window: int, t: u64) -> Seq<i64>
    decreases lines.len(),
{
    if lines.len() == 0 {
        Seq::empty()
    } else {
        let p = first_windows(lines.drop_last(), window, t);
        let c = chunk_start(lines.last().row.time as int, window) as i64;
        if lines.last().table_id == t && !p.contains(c) {
            p.push(c)
        } else {
            p
        }
    }
}

/// Every row's window start fits in an `i64`.
pub open spec fn lines_fit_window(lines: Seq<QualifiedLine>, window: int) -> bool {
    forall|k: int| 0 <= k < lines.len() ==> chunk_start((#[trigger] lines[k]).row.time as int, window) >= i64::MIN
}

pub open spec fn sum_fields(lines: Seq<QualifiedLine>) -> int
    decreases lines.len(),
{
    if lines.len() == 0 {
        0
    } else {
        sum_fields(lines.drop_last()) + lines.last().field_count
    }
}

pub open spec fn sum_indexes(lines: Seq<QualifiedLine>) -> int
    decreases lines.len(),
{
    if lines.len() == 0 {
        0
    } else {
        sum_indexes(lines.drop_last()) + lines.last().index_count
    }
}

pub open spec fn min_usize(x: int) -> int {
    if x <= usize::MAX {
        x
    } else {
        usize::MAX as int
    }
}

fn saturating_add(a: usize, b: usize) -> (r: usize)
    ensures
        r == min_usize(a + b),
{
    if a <= usize::MAX - b {
        a + b
    } else {
        usize::MAX
    }
}

impl WriteValidator<LinesParsed> {
    /// Whether every accepted row's window under `gen1_duration` starts at a
    /// time that an `i64` holds.
    pub fn fits_window(&self, gen1_duration: Gen1Duration) -> (r: bool)
        requires
            gen1_duration.nanos > 0,
        ensures
            r == lines_fit_window(self.state.lines@, gen1_duration.nanos as int),
    {
        let w = gen1_duration.nanos;
        let mut k: usize = 0;
        while k < self.state.lines.len()
            invariant
                0 <= k <= self.state.lines.len(),
                w == gen1_duration.nanos,
                w > 0,
                forall|q: int|
                    0 <= q < k ==> chunk_start((#[trigger] self.state.lines@[q]).row.time as int, w as int)
                        >= i64::MIN,
            decreases self.state.lines.len() - k,
        {
            let start = crate::chunks::wide_chunk_start(self.state.lines[k].row.time, w);
            if start < i64::MIN as i128 {
                return false;
            }
            k = k + 1;
        }
        true
    }

    /// Places every accepted row in the window of its table that holds its
    /// time, and reports the counts of the write.
    pub fn convert_lines_to_buffer(self, gen1_duration: Gen1Duration) -> (r: ValidatedLines)
        requires
            gen1_duration.nanos > 0,
            lines_fit_window(self.state.lines@, gen1_duration.nanos as int),
        ensures
            r.line_count == min_usize(self.state.lines.len() + self.state.errors.len()),
            r.valid_bytes_count == self.state.bytes,
            r.field_count == min_usize(sum_fields(self.state.lines@)),
            r.index_count == min_usize(sum_indexes(self.state.lines@)),
            r.errors == self.state.errors,
            r.catalog_updates == self.state.catalog_batch,
            r.valid_data.database_id == self.state.db_schema.id,
            r.valid_data.database_name@ == self.state.db_schema.name@,
            tables_hold(table_entries(r.valid_data.table_chunks), gen1_duration.nanos as int),
            table_keys(table_entries(r.valid_data.table_chunks)) == first_tables(self.state.lines@),
            no_empty_entries(table_entries(r.valid_data.table_chunks)),
            forall|t: u64|
                #[trigger] windows_of(table_entries(r.valid_data.table_chunks), t) == first_windows(
                    self.state.lines@,
                    gen1_duration.nanos as int,
                    t,
                ),
            forall|t: u64, c: i64|
                #[trigger] rows_in(table_entries(r.valid_data.table_chunks), t, c) == rows_expected(
                    self.state.lines@,
                    gen1_duration.nanos as int,
                    t,
                    c,
                ),
    {
        let LinesParsed { db_schema, lines, bytes, catalog_batch, errors } = self.state;
        let ghost all = lines@;
        let line_count = lines.len();
        let attempted = saturating_add(line_count, errors.len());
        proof {
            assert(lines@ =~= all.take(line_count as int));
        }
        let mut table_chunks = empty_tables();
        let mut field_count: usize = 0;
        let mut index_count: usize = 0;
        let mut src = lines;
        let mut rest: Vec<QualifiedLine> = Vec::new();
        while src.len() > 0
            invariant
                line_count == all.len(),
                src@ == all.take(src@.len() as int),
                rest@.len() + src@.len() == line_count,
                forall|q: int| 0 <= q < rest@.len() ==> rest@[q] == all[line_count - 1 - q],
            decreases src@.len(),
        {
            let ghost n = src@.len();
            let item = src.pop().unwrap();
            proof {
                assert(item == all[n - 1]);
                assert(src@ =~= all.take(n - 1));
            }
            rest.push(item);
        }
        let mut k: usize = 0;
        proof {
            assert(all.take(0) =~= Seq::<QualifiedLine>::empty());
            assert(table_entries(table_chunks) =~= Seq::<(u64, TableChunks)>::empty());
            assert(table_keys(table_entries(table_chunks)) =~= Seq::<u64>::empty());
        }
        while k < line_count
            invariant
                0 <= k <= line_count,
                line_count == all.len(),
                rest@.len() == line_count - k,
                forall|q: int| 0 <= q < rest@.len() ==> rest@[q] == all[line_count - 1 - q],
                gen1_duration.nanos > 0,
                lines_fit_window(all, gen1_duration.nanos as int),
                tables_hold(table_entries(table_chunks), gen1_duration.nanos as int),
                table_keys(table_entries(table_chunks)) == first_tables(all.take(k as int)),
                no_empty_entries(table_entries(table_chunks)),
                forall|t: u64|
                    #[trigger] windows_of(table_entries(table_chunks), t) == first_windows(
                        all.take(k as int),
                        gen1_duration.nanos as int,
                        t,
                    ),
                forall|t: u64, c: i64|
                    #[trigger] rows_in(table_entries(table_chunks), t, c) == rows_expected(
                        all.take(k as int),
                        gen1_duration.nanos as int,
                        t,
                        c,
                    ),
                field_count == min_usize(sum_fields(all.take(k as int))),
                index_count == min_usize(sum_indexes(all.take(k as int))),
            decreases line_count - k,
        {
            let line = rest.pop().unwrap();
            proof {
                assert(line == all[k as int]);
                assert(all.take(k as int + 1).drop_last() =~= all.take(k as int));
            }
            field_count = saturating_add(field_count, line.field_count);
            index_count = saturating_add(index_count, line.index_count);
            let ghost before = table_entries(table_chunks);
            let ghost the_line = line;
            bucket_row(&mut table_chunks, line.table_id, line.row, gen1_duration.nanos);
            proof {
                let w = gen1_duration.nanos as int;
                let x = chunk_start(the_line.row.time as int, w);
                lemma_chunk_start_bounds(the_line.row.time as int, w);
                assert(x >= i64::MIN);
                let prefix = all.take(k as int + 1);
                assert(prefix.last() == the_line);
                lemma_push_keys(before, table_entries(table_chunks), the_line.table_id, x as i64, the_line.row);
                assert forall|t: u64| #[trigger] windows_of(table_entries(table_chunks), t) == first_windows(
                    prefix,
                    w,
                    t,
                ) by {
                    lemma_windows_after_push(
                        before,
                        table_entries(table_chunks),
                        w,
                        the_line.table_id,
                        x as i64,
                        the_line.row,
                        t,
                    );
                    assert(windows_of(before, t) == first_windows(all.take(k as int), w, t));
                }
                assert forall|t: u64, c: i64| #[trigger]
                    rows_in(table_entries(table_chunks), t, c) == rows_expected(prefix, w, t, c) by {
                    lemma_rows_in_after_push(
                        before,
                        table_entries(table_chunks),
                        w,
                        the_line.table_id,
                        x as i64,
                        the_line.row,
                        t,
                        c,
                    );
                    assert(rows_in(before, t, c) == rows_expected(all.take(k as int), w, t, c));
                }
            }
            k = k + 1;
        }
        proof {
            assert(all.take(k as int) =~= all);
        }
        let valid_data = WriteBatch {
            database_id: db_schema.id,
            database_name: db_schema.name,
            table_chunks,
        };
        ValidatedLines {
            line_count: attempted,
            valid_bytes_count: bytes,
            field_count,
            index_count,
            errors,
            valid_data,
            catalog_updates: catalog_batch,
        }
    }
}


} // verus!
