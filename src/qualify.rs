use crate::line::{
    column_type_of, field_data_of, field_type_of, to_field_data, Field, FieldData, FieldValue,
    LineTokens,
    Row,
};
use crate::ops::{apply_op, fresh_columns, CatalogOp};
use crate::precision::{checked_timestamp_nanos, timestamp_nanos, Precision};
use crate::schema::{
    column_index, column_models, copy_columns, copy_ids, find_column, find_table, find_table_id,
    lemma_find_column_append, lemma_find_column_bounds, lemma_find_column_push,
    lemma_find_table_bounds, lemma_find_table_update, table_id_index, table_index,
    ColumnDefinition, ColumnModel, ColumnType, DatabaseSchema, SchemaModel, TableDefinition, TableModel,
};
use vstd::prelude::*;

verus! {

/// The next table and column ids to hand out.
#[derive(Debug, Clone, Copy, PartialEq, Eq, Structural)]
pub struct IdCounters {
    pub next_table_id: u64,
    pub next_column_id: u64,
}

/// Why a line was not accepted.
#[derive(Debug)]
pub enum LineError {
    /// The tokenizer refused the line's syntax.
    Tokenize(String),
    /// A value disagrees with the type of its existing column.
    TypeMismatch { column: String, expected: ColumnType, got: ColumnType },
    /// The line introduces the same new column name twice.
    DuplicateColumn(String),
    /// No table or column id is left to hand out.
    IdsExhausted,
    /// The timestamp does not fit in nanoseconds.
    TimestampOutOfRange,
    /// The freshly minted table id is already taken.
    TableOverwrite,
}

/// A line resolved against the schema: its table and its row.
#[derive(Debug)]
pub struct QualifiedLine {
    pub table_id: u64,
    pub row: Row,
    pub index_count: usize,
    pub field_count: usize,
}

pub open spec fn time_column_name() -> Seq<char> {
    seq!['t', 'i', 'm', 'e']
}

/// The first column called `name` has type `ty` and id `id`.
pub open spec fn column_is(cols: Seq<ColumnModel>, name: Seq<char>, ty: ColumnType, id: u64) -> bool {
    find_column(cols, name) matches Some(j) && cols[j].id == id && cols[j].data_type == ty
}

/// The columns of the table called `m`, empty where there is none.
pub open spec fn columns_of_table(s: SchemaModel, m: Seq<char>) -> Seq<ColumnModel> {
    match find_table(s.tables, m) {
        Some(i) => s.tables[i].columns,
        None => Seq::empty(),
    }
}

/// An existing column called `name` has a type other than `ty`.
pub open spec fn conflicts(cols: Seq<ColumnModel>, name: Seq<char>, ty: ColumnType) -> bool {
    find_column(cols, name) matches Some(j) && cols[j].data_type != ty
}

/// Some value of the line disagrees with the type of its existing column.
pub open spec fn has_type_conflict(cols: Seq<ColumnModel>, line: LineTokens) -> bool {
    (exists|k: int|
        0 <= k < line.tags.len() && #[trigger] conflicts(cols, line.tags@[k].0@, ColumnType::Tag))
        || (exists|k: int|
        0 <= k < line.fields.len() && #[trigger] conflicts(
            cols,
            line.fields@[k].0@,
            ColumnType::Field(field_type_of(line.fields@[k].1)),
        ))
}

/// Every column that the line names, and the time column, already exist.
pub open spec fn is_resident(cols: Seq<ColumnModel>, line: LineTokens) -> bool {
    &&& forall|k: int| 0 <= k < line.tags.len() ==> (#[trigger] find_column(cols, line.tags@[k].0@)) is Some
    &&& forall|k: int| 0 <= k < line.fields.len() ==> (#[trigger] find_column(cols, line.fields@[k].0@)) is Some
    &&& find_column(cols, time_column_name()) is Some
}

/// Every column that the line names exists with the line's type, and the
/// time column exists as a timestamp.
pub open spec fn is_clean(cols: Seq<ColumnModel>, line: LineTokens) -> bool {
    &&& is_resident(cols, line)
    &&& !has_type_conflict(cols, line)
    &&& !conflicts(cols, time_column_name(), ColumnType::Timestamp)
}

/// The line's time in nanoseconds fits in an `i64`.
pub open spec fn time_fits(p: Precision, ts: Option<i64>) -> bool {
    match ts {
        Some(t) => i64::MIN <= timestamp_nanos(p, t) <= i64::MAX,
        None => true,
    }
}

/// The time of a line in nanoseconds: its own timestamp under `p`, else the
/// ingest time.
pub open spec fn line_time(p: Precision, ts: Option<i64>, ingest_time: i64) -> int {
    match ts {
        Some(t) => timestamp_nanos(p, t),
        None => ingest_time as int,
    }
}

/// The row holds the line's values in order, tags first, then fields, then
/// the time, each against the column of that name and type in `cols`.
pub open spec fn row_matches(cols: Seq<ColumnModel>, line: LineTokens, row: Row) -> bool {
    let nt = line.tags.len() as int;
    let nf = line.fields.len() as int;
    &&& row.fields.len() == nt + nf + 1
    &&& forall|k: int|
        0 <= k < nt ==> (#[trigger] row.fields@[k]).value == FieldData::Tag(line.tags@[k].1)
            && column_is(cols, line.tags@[k].0@, ColumnType::Tag, row.fields@[k].id)
    &&& forall|k: int|
        0 <= k < nf ==> (#[trigger] row.fields@[nt + k]).value == field_data_of(line.fields@[k].1)
            && column_is(
            cols,
            line.fields@[k].0@,
            ColumnType::Field(field_type_of(line.fields@[k].1)),
            row.fields@[nt + k].id,
        )
    &&& row.fields@[nt + nf].value == FieldData::Timestamp(row.time)
    &&& column_is(cols, time_column_name(), ColumnType::Timestamp, row.fields@[nt + nf].id)
}

fn time_column() -> (r: String)
    ensures
        r@ == time_column_name(),
{
    proof {
        reveal_strlit("time");
    }
    String::from_str("time")
}

/// `e` reports that the existing column `name` has a type other than `ty`.
pub open spec fn reports_mismatch(e: LineError, cols: Seq<ColumnModel>, name: Seq<char>, ty: ColumnType) -> bool {
    e matches LineError::TypeMismatch { column, expected, got } && column@ == name && got == ty
        && conflicts(cols, name, ty) && cols[find_column(cols, name).unwrap()].data_type == expected
}

/// `e` reports a type mismatch of one of the line's tags, fields or its time.
pub open spec fn reports_line_mismatch(e: LineError, cols: Seq<ColumnModel>, line: LineTokens) -> bool {
    (exists|k: int|
        0 <= k < line.tags.len() && #[trigger] reports_mismatch(e, cols, line.tags@[k].0@, ColumnType::Tag))
        || (exists|k: int|
        0 <= k < line.fields.len() && #[trigger] reports_mismatch(
            e,
            cols,
            line.fields@[k].0@,
            ColumnType::Field(field_type_of(line.fields@[k].1)),
        )) || reports_mismatch(e, cols, time_column_name(), ColumnType::Timestamp)
}

/// `e` reports the first column of the line, in source order (tags, fields,
/// time), whose value disagrees with its existing column.
pub open spec fn first_mismatch(e: LineError, cols: Seq<ColumnModel>, line: LineTokens) -> bool {
    exists|p: int|
        0 <= p < line_names(line).len() && #[trigger] reports_mismatch(
            e,
            cols,
            line_names(line)[p],
            line_type(line, p),
        ) && forall|q: int|
            0 <= q < p ==> !conflicts(cols, #[trigger] line_names(line)[q], line_type(line, q))
}

/// The names of the line's columns: its tags, its fields, then the time.
pub open spec fn line_names(line: LineTokens) -> Seq<Seq<char>> {
    line.tags@.map_values(|p: (String, String)| p.0@) + line.fields@.map_values(
        |p: (String, FieldValue)| p.0@,
    ) + seq![time_column_name()]
}

/// The type of the line's `k`-th column in the order of `line_names`.
pub open spec fn line_type(line: LineTokens, k: int) -> ColumnType {
    if k < line.tags.len() {
        ColumnType::Tag
    } else if k < line.tags.len() + line.fields.len() {
        ColumnType::Field(field_type_of(line.fields@[k - line.tags.len()].1))
    } else {
        ColumnType::Timestamp
    }
}

/// The columns of a table created for the line: its tags, its fields and the
/// time, in order, with consecutive ids from `start`.
pub open spec fn new_table_columns(line: LineTokens, start: int) -> Seq<ColumnModel> {
    Seq::new(
        line_names(line).len(),
        |k: int| ColumnModel { id: (start + k) as u64, name: line_names(line)[k], data_type: line_type(line, k) },
    )
}

/// The columns that the line adds to columns `cc`, from its first `pos`
/// columns: each name that `cc` lacks, in order, with consecutive ids from
/// `start`.
pub open spec fn new_columns(cc: Seq<ColumnModel>, line: LineTokens, start: int, pos: int) -> Seq<ColumnModel>
    decreases pos,
{
    if pos <= 0 {
        Seq::empty()
    } else {
        let prev = new_columns(cc, line, start, pos - 1);
        if find_column(cc, line_names(line)[pos - 1]) is None {
            prev.push(
                ColumnModel {
                    id: (start + prev.len()) as u64,
                    name: line_names(line)[pos - 1],
                    data_type: line_type(line, pos - 1),
                },
            )
        } else {
            prev
        }
    }
}

/// All the columns that the line adds to the table of its measurement in `s`.
pub open spec fn added_columns(s: SchemaModel, ids: IdCounters, line: LineTokens) -> Seq<ColumnModel> {
    new_columns(
        columns_of_table(s, line.measurement@),
        line,
        ids.next_column_id as int,
        line_names(line).len() as int,
    )
}

pub proof fn lemma_new_columns_has(cc: Seq<ColumnModel>, line: LineTokens, start: int, a: int, pos: int)
    requires
        0 <= a < pos <= line_names(line).len(),
        find_column(cc, line_names(line)[a]) is None,
    ensures
        find_column(new_columns(cc, line, start, pos), line_names(line)[a]) is Some,
    decreases pos,
{
    let prev = new_columns(cc, line, start, pos - 1);
    let n = line_names(line)[a];
    if a < pos - 1 {
        lemma_new_columns_has(cc, line, start, a, pos - 1);
    }
    if find_column(cc, line_names(line)[pos - 1]) is None {
        lemma_find_column_push(
            prev,
            ColumnModel {
                id: (start + prev.len()) as u64,
                name: line_names(line)[pos - 1],
                data_type: line_type(line, pos - 1),
            },
            n,
        );
    }
}

pub proof fn lemma_new_columns_grow(cc: Seq<ColumnModel>, line: LineTokens, start: int, a: int, b: int)
    requires
        0 <= a <= b,
    ensures
        new_columns(cc, line, start, a).len() <= new_columns(cc, line, start, b).len(),
        a < b && a < line_names(line).len() && find_column(cc, line_names(line)[a]) is None ==> new_columns(
            cc,
            line,
            start,
            a,
        ).len() + 1 <= new_columns(cc, line, start, b).len(),
    decreases b - a,
{
    if a < b {
        lemma_new_columns_grow(cc, line, start, a, b - 1);
        if a == b - 1 {
        }
    }
}

/// The schema after the line qualified against `s`: its table gains the
/// added columns, or is created with them and with its tags as key.
pub open spec fn qualified_schema(s: SchemaModel, ids: IdCounters, line: LineTokens) -> SchemaModel {
    let nc = added_columns(s, ids, line);
    let m = line.measurement@;
    if nc.len() == 0 {
        s
    } else {
        match find_table(s.tables, m) {
            Some(i) => SchemaModel {
                tables: s.tables.update(i, TableModel { columns: s.tables[i].columns + nc, ..s.tables[i] }),
                ..s
            },
            None => SchemaModel {
                tables: s.tables.push(
                    TableModel {
                        table_id: ids.next_table_id,
                        table_name: m,
                        columns: nc,
                        series_key: Seq::new(
                            line.tags.len() as nat,
                            |q: int| (ids.next_column_id + q) as u64,
                        ),
                    },
                ),
                ..s
            },
        }
    }
}

/// The counters after the line qualified against `s`.
pub open spec fn qualified_ids(s: SchemaModel, ids: IdCounters, line: LineTokens) -> IdCounters {
    IdCounters {
        next_table_id: if find_table(s.tables, line.measurement@) is None {
            (ids.next_table_id + 1) as u64
        } else {
            ids.next_table_id
        },
        next_column_id: (ids.next_column_id + added_columns(s, ids, line).len()) as u64,
    }
}

/// The line can be qualified against `s` with counters `ids`: no value
/// disagrees with an existing column, the names it adds are distinct, ids
/// are left, the time fits, and the table's id is consistent.
pub open spec fn can_qualify(s: SchemaModel, ids: IdCounters, line: LineTokens, p: Precision) -> bool {
    let cols = columns_of_table(s, line.measurement@);
    let names = line_names(line);
    &&& !has_type_conflict(cols, line)
    &&& !conflicts(cols, time_column_name(), ColumnType::Timestamp)
    &&& forall|a: int, b: int|
        #![trigger names[a], names[b]]
        0 <= a < b < names.len() && names[a] == names[b] ==> find_column(cols, names[a]) is Some
    &&& ids.next_column_id + added_columns(s, ids, line).len() <= u64::MAX
    &&& time_fits(p, line.timestamp)
    &&& match find_table(s.tables, line.measurement@) {
        Some(i) => added_columns(s, ids, line).len() > 0 ==> find_table_id(s.tables, s.tables[i].table_id)
            == Some(i),
        None => ids.next_table_id < u64::MAX && find_table_id(s.tables, ids.next_table_id) is None,
    }
}

/// What the qualifier has staged after the first `pos` columns of the line:
/// new columns only, in order, with consecutive ids from `start`, each from
/// an earlier position; for a new table, exactly those columns.
pub open spec fn staging_follows(
    cc: Seq<ColumnModel>,
    staged: Seq<ColumnModel>,
    origin: Seq<int>,
    line: LineTokens,
    start: int,
    pos: int,
    next: int,
    is_new: bool,
) -> bool {
    &&& next == start + staged.len()
    &&& staged == new_columns(cc, line, start, pos)
    &&& staged.len() <= pos
    &&& origin.len() == staged.len()
    &&& forall|j: int|
        0 <= j < staged.len() ==> (#[trigger] staged[j]).id == start + j && 0 <= origin[j] < pos
            && line_names(line)[origin[j]] == staged[j].name && find_column(cc, staged[j].name) is None
    &&& is_new ==> staged == new_table_columns(line, start).take(pos) && cc.len() == 0
}

proof fn lemma_line_names(line: LineTokens)
    ensures
        line_names(line).len() == line.tags.len() + line.fields.len() + 1,
        forall|k: int| 0 <= k < line.tags.len() ==> #[trigger] line_names(line)[k] == line.tags@[k].0@,
        forall|k: int|
            0 <= k < line.fields.len() ==> #[trigger] line_names(line)[line.tags.len() + k]
                == line.fields@[k].0@,
        line_names(line)[line.tags.len() + line.fields.len()] == time_column_name(),
{
}

/// Under `can_qualify`, a name new to the table is new to what is staged,
/// and an id is left for it.
proof fn lemma_no_duplicate(
    s: SchemaModel,
    ids: IdCounters,
    cc: Seq<ColumnModel>,
    staged: Seq<ColumnModel>,
    origin: Seq<int>,
    line: LineTokens,
    p: Precision,
    pos: int,
    next: int,
    is_new: bool,
)
    requires
        can_qualify(s, ids, line, p),
        cc == columns_of_table(s, line.measurement@),
        staging_follows(cc, staged, origin, line, ids.next_column_id as int, pos, next, is_new),
        0 <= pos < line_names(line).len(),
        find_column(cc, line_names(line)[pos]) is None,
    ensures
        find_column(staged, line_names(line)[pos]) is None,
        next < u64::MAX,
{
    let names = line_names(line);
    lemma_new_columns_grow(cc, line, ids.next_column_id as int, pos, names.len() as int);
    lemma_find_column_bounds(staged, names[pos]);
    if let Some(j) = find_column(staged, names[pos]) {
        let a = origin[j];
        assert(names[a] == names[pos]);
        assert(find_column(cc, names[a]) is Some);
    }
}

/// Resolving the column at `pos` keeps the staging in step.
proof fn lemma_track_step(
    cc: Seq<ColumnModel>,
    staged: Seq<ColumnModel>,
    staged2: Seq<ColumnModel>,
    origin: Seq<int>,
    line: LineTokens,
    start: int,
    pos: int,
    next: int,
    next2: int,
    is_new: bool,
) -> (origin2: Seq<int>)
    requires
        staging_follows(cc, staged, origin, line, start, pos, next, is_new),
        0 <= pos < line_names(line).len(),
        find_column(cc, line_names(line)[pos]) is Some ==> staged2 == staged && next2 == next,
        find_column(cc, line_names(line)[pos]) is None ==> next2 == next + 1 && staged2 == staged.push(
            ColumnModel { id: next as u64, name: line_names(line)[pos], data_type: line_type(line, pos) },
        ),
        0 <= next <= u64::MAX,
    ensures
        staging_follows(cc, staged2, origin2, line, start, pos + 1, next2, is_new),
{
    if find_column(cc, line_names(line)[pos]) is Some {
        origin
    } else {
        let o2 = origin.push(pos);
        assert forall|j: int| 0 <= j < staged2.len() implies (#[trigger] staged2[j]).id == start + j
            && 0 <= o2[j] < pos + 1 && line_names(line)[o2[j]] == staged2[j].name && find_column(
            cc,
            staged2[j].name,
        ) is None by {
            if j < staged.len() {
                assert(staged2[j] == staged[j]);
            }
        }
        if is_new {
            assert(staged2 =~= new_table_columns(line, start).take(pos + 1));
        }
        o2
    }
}

/// `op` creates the line's table: a fresh id, the measurement as its name,
/// its tags, fields and time as columns with consecutive fresh ids, and the
/// tag ids as its key.
pub open spec fn creates_table(
    op: CatalogOp,
    s: SchemaModel,
    ids0: IdCounters,
    ids1: IdCounters,
    line: LineTokens,
    ql: QualifiedLine,
) -> bool {
    op matches CatalogOp::CreateTable {
        database_id,
        database_name,
        table_id,
        table_name,
        field_definitions,
        key,
    } && find_table(s.tables, line.measurement@) is None && table_id == ids0.next_table_id
        && ql.table_id == table_id && table_name@ == line.measurement@ && database_id == s.id
        && database_name@ == s.name && column_models(field_definitions@) == new_table_columns(
        line,
        ids0.next_column_id as int,
    ) && key@ == Seq::new(line.tags.len() as nat, |q: int| (ids0.next_column_id + q) as u64)
        && ids1.next_table_id == ids0.next_table_id + 1 && ids1.next_column_id
        == ids0.next_column_id + line_names(line).len()
}

/// `op` adds columns to the line's existing table, with consecutive fresh
/// ids.
pub open spec fn adds_fields(
    op: CatalogOp,
    s: SchemaModel,
    ids0: IdCounters,
    ids1: IdCounters,
    line: LineTokens,
    ql: QualifiedLine,
) -> bool {
    op matches CatalogOp::AddFields {
        database_id,
        database_name,
        table_id,
        table_name,
        field_definitions,
    } && find_table(s.tables, line.measurement@) matches Some(i) && table_id == s.tables[i].table_id
        && ql.table_id == table_id && table_name@ == line.measurement@ && database_id == s.id
        && database_name@ == s.name && field_definitions.len() > 0 && column_models(
        field_definitions@,
    ) == added_columns(s, ids0, line) && (forall|j: int|
        0 <= j < field_definitions.len() ==> (#[trigger] column_models(field_definitions@)[j]).id
            == ids0.next_column_id + j) && ids1.next_table_id == ids0.next_table_id
        && ids1.next_column_id == ids0.next_column_id + field_definitions.len()
}

/// Every tag and field of the line names an existing column.
pub open spec fn names_present(cols: Seq<ColumnModel>, line: LineTokens) -> bool {
    &&& forall|k: int| 0 <= k < line.tags.len() ==> (#[trigger] find_column(cols, line.tags@[k].0@)) is Some
    &&& forall|k: int| 0 <= k < line.fields.len() ==> (#[trigger] find_column(cols, line.fields@[k].0@)) is Some
}

/// Resolves the column `name` of type `ty`: an existing column of that name,
/// or a new one staged with a freshly minted id.
fn resolve_column(
    cols: &Vec<ColumnDefinition>,
    staged: &mut Vec<ColumnDefinition>,
    ids: &mut IdCounters,
    name: &String,
    ty: ColumnType,
) -> (r: Result<u64, LineError>)
    requires
        fresh_columns(column_models(cols@), column_models(old(staged)@)),
    ensures
        fresh_columns(column_models(cols@), column_models(final(staged)@)),
        final(ids).next_table_id == old(ids).next_table_id,
        final(ids).next_column_id >= old(ids).next_column_id,
        r is Err ==> final(staged)@ == old(staged)@ && *final(ids) == *old(ids),
        r matches Ok(id) ==> column_is(
            column_models(cols@) + column_models(final(staged)@),
            name@,
            ty,
            id,
        ),
        r is Ok ==> forall|n: Seq<char>, t: ColumnType, i: u64|
            column_is(column_models(cols@) + column_models(old(staged)@), n, t, i) ==> #[trigger] column_is(
                column_models(cols@) + column_models(final(staged)@),
                n,
                t,
                i,
            ),
        find_column(column_models(cols@), name@) matches Some(j) ==> final(staged)@ == old(staged)@
            && *final(ids) == *old(ids) && (r is Ok <==> column_models(cols@)[j].data_type == ty),
        find_column(column_models(cols@), name@) is Some && r is Err ==> reports_mismatch(
            r->Err_0,
            column_models(cols@),
            name@,
            ty,
        ),
        r matches Err(LineError::TypeMismatch { .. }) ==> reports_mismatch(
            r->Err_0,
            column_models(cols@),
            name@,
            ty,
        ),
        find_column(column_models(cols@), name@) is None && r is Ok ==> r == Ok::<u64, LineError>(
            old(ids).next_column_id,
        ) && final(ids).next_column_id == old(ids).next_column_id + 1 && column_models(
            final(staged)@,
        ) == column_models(old(staged)@).push(
            ColumnModel { id: old(ids).next_column_id, name: name@, data_type: ty },
        ),
        find_column(column_models(cols@), name@) is None && find_column(
            column_models(old(staged)@),
            name@,
        ) is None && old(ids).next_column_id < u64::MAX ==> r is Ok,
        find_column(column_models(cols@), name@) is None && r is Ok ==> find_column(
            column_models(old(staged)@),
            name@,
        ) is None,
{
    let ghost c = column_models(cols@);
    let ghost s0 = column_models(staged@);
    proof {
        lemma_find_column_bounds(c, name@);
        lemma_find_column_append(c, s0, name@);
    }
    match column_index(cols, name) {
        Some(j) => {
            if cols[j].data_type == ty {
                Ok(cols[j].id)
            } else {
                Err(
                    LineError::TypeMismatch {
                        column: name.clone(),
                        expected: cols[j].data_type,
                        got: ty,
                    },
                )
            }
        },
        None => {
            if column_index(staged, name).is_some() {
                return Err(LineError::DuplicateColumn(name.clone()));
            }
            if ids.next_column_id == u64::MAX {
                return Err(LineError::IdsExhausted);
            }
            let id = ids.next_column_id;
            ids.next_column_id = id + 1;
            let col = ColumnDefinition { id, name: name.clone(), data_type: ty };
            staged.push(col);
            proof {
                let s1 = column_models(staged@);
                assert(s1 =~= s0.push(col@));
                assert(c + s1 =~= (c + s0).push(col@));
                lemma_find_column_push(c + s0, col@, name@);
                assert forall|n: Seq<char>, t: ColumnType, i: u64|
                    column_is(c + s0, n, t, i) implies #[trigger] column_is(c + s1, n, t, i) by {
                    lemma_find_column_push(c + s0, col@, n);
                    lemma_find_column_bounds(c + s0, n);
                }
                assert forall|j: int| 0 <= j < s1.len() implies (#[trigger] find_column(
                    c + s1.take(j),
                    s1[j].name,
                )) is None by {
                    if j < s0.len() {
                        assert(s1.take(j) =~= s0.take(j));
                    } else {
                        assert(s1.take(j) =~= s0);
                    }
                }
                lemma_find_column_bounds(c + s0, name@);
                lemma_find_column_bounds(c + s1, name@);
            }
            Ok(id)
        },
    }
}

/// What a successful qualification promises: the counts and time of the
/// line, a row whose every value names a column of the right name and type in
/// the new schema, and a schema that is the old one, or the old one with the
/// returned op applied.
pub open spec fn qualified(
    s0: SchemaModel,
    s1: SchemaModel,
    ids0: IdCounters,
    ids1: IdCounters,
    line: LineTokens,
    precision: Precision,
    ingest_time: i64,
    ql: QualifiedLine,
    op: Option<CatalogOp>,
) -> bool {
    &&& ql.index_count == line.tags.len()
    &&& ql.field_count == line.fields.len()
    &&& ql.row.time == line_time(precision, line.timestamp, ingest_time)
    &&& find_table(s1.tables, line.measurement@) matches Some(i) && s1.tables[i].table_id
        == ql.table_id && row_matches(s1.tables[i].columns, line, ql.row)
    &&& match op {
        None => s1 == s0 && ids1 == ids0,
        Some(op) => apply_op(s0, op) == Some(s1),
    }
}

/// Validates one tokenized line against the shadow schema `schema`, staging
/// the columns and the table that it introduces.
#[verifier::rlimit(100)]
#[verifier::spinoff_prover]
pub fn validate_and_qualify_line(
    schema: &mut DatabaseSchema,
    ids: &mut IdCounters,
    line: &LineTokens,
    ingest_time: i64,
    precision: Precision,
) -> (r: Result<(QualifiedLine, Option<CatalogOp>), LineError>)
    ensures
        r is Err ==> final(schema)@ == old(schema)@ && *final(ids) == *old(ids),
        has_type_conflict(columns_of_table(old(schema)@, line.measurement@), *line) ==> r is Err,
        has_type_conflict(columns_of_table(old(schema)@, line.measurement@), *line) && names_present(
            columns_of_table(old(schema)@, line.measurement@),
            *line,
        ) ==> r matches Err(LineError::TypeMismatch { .. }),
        r matches Err(LineError::TypeMismatch { .. }) ==> first_mismatch(
            r->Err_0,
            columns_of_table(old(schema)@, line.measurement@),
            *line,
        ),
        r matches Err(LineError::TypeMismatch { .. }) ==> reports_line_mismatch(
            r->Err_0,
            columns_of_table(old(schema)@, line.measurement@),
            *line,
        ),
        r matches Ok((ql, op)) ==> qualified(
            old(schema)@,
            final(schema)@,
            *old(ids),
            *final(ids),
            *line,
            precision,
            ingest_time,
            ql,
            op,
        ),
        find_table(old(schema)@.tables, line.measurement@) is Some && is_clean(
            columns_of_table(old(schema)@, line.measurement@),
            *line,
        ) && time_fits(precision, line.timestamp) ==> r is Ok,
        r is Ok && find_table(old(schema)@.tables, line.measurement@) is Some && is_resident(
            columns_of_table(old(schema)@, line.measurement@),
            *line,
        ) ==> r->Ok_0.1 is None,
        final(ids).next_table_id >= old(ids).next_table_id,
        final(ids).next_column_id >= old(ids).next_column_id,
        can_qualify(old(schema)@, *old(ids), *line, precision) <==> r is Ok,
        r is Ok ==> (r->Ok_0.1 is Some <==> added_columns(old(schema)@, *old(ids), *line).len() > 0),
        r is Ok ==> final(schema)@ == qualified_schema(old(schema)@, *old(ids), *line) && *final(ids)
            == qualified_ids(old(schema)@, *old(ids), *line),
        r is Ok && find_table(old(schema)@.tables, line.measurement@) is None ==> r->Ok_0.1 is Some,
        r is Ok && r->Ok_0.1 is Some ==> (creates_table(
            r->Ok_0.1->Some_0,
            old(schema)@,
            *old(ids),
            *final(ids),
            *line,
            r->Ok_0.0,
        ) || adds_fields(r->Ok_0.1->Some_0, old(schema)@, *old(ids), *final(ids), *line, r->Ok_0.0)),
{
    let ghost s0 = schema@;
    let ghost m = line.measurement@;
    let ghost ids0 = *ids;
    let existing = table_index(&schema.tables, &line.measurement);
    proof {
        lemma_find_table_bounds(s0.tables, m);
    }
    let mut local = *ids;
    let empty: Vec<ColumnDefinition> = Vec::new();
    let mut table_id: u64 = 0;
    match existing {
        Some(i) => {
            table_id = schema.tables[i].table_id;
        },
        None => {
            if local.next_table_id == u64::MAX {
                return Err(LineError::IdsExhausted);
            }
            table_id = local.next_table_id;
            local.next_table_id = table_id + 1;
        },
    }
    let ghost local0 = local;
    let ghost start = ids0.next_column_id as int;
    let ghost is_new = existing is None;
    let ghost mut origin: Seq<int> = Seq::empty();
    proof {
        lemma_line_names(*line);
    }
    let cols: &Vec<ColumnDefinition> = match existing {
        Some(i) => &schema.tables[i].columns,
        None => &empty,
    };
    let ghost cc = column_models(cols@);
    proof {
        assert(cc =~= columns_of_table(s0, m));
    }
    let mut staged: Vec<ColumnDefinition> = Vec::new();
    let mut row: Vec<Field> = Vec::new();
    let mut key: Vec<u64> = Vec::new();
    let nt = line.tags.len();
    let nf = line.fields.len();
    let mut k: usize = 0;
    proof {
        assert(column_models(staged@) =~= Seq::<ColumnModel>::empty());
        assert(new_table_columns(*line, start).take(0) =~= Seq::<ColumnModel>::empty());
        if is_new {
            assert(cc =~= Seq::<ColumnModel>::empty());
        }
        assert forall|j: int| 0 <= j < column_models(staged@).len() implies (#[trigger] find_column(
            cc + column_models(staged@).take(j),
            column_models(staged@)[j].name,
        )) is None by {}
    }
    while k < nt
        invariant
            k <= nt,
            nt == line.tags.len(),
            cc == column_models(cols@),
            cc == columns_of_table(s0, m),
            schema@ == s0,
            s0 == old(schema)@,
            m == line.measurement@,
            *ids == ids0,
            fresh_columns(cc, column_models(staged@)),
            row@.len() == k,
            key@.len() == k,
            forall|q: int|
                0 <= q < k ==> (#[trigger] row@[q]).value == FieldData::Tag(line.tags@[q].1)
                    && column_is(cc + column_models(staged@), line.tags@[q].0@, ColumnType::Tag, row@[q].id)
                    && key@[q] == row@[q].id,
            forall|q: int| 0 <= q < k ==> !#[trigger] conflicts(cc, line.tags@[q].0@, ColumnType::Tag),
            (forall|q: int| 0 <= q < k ==> (#[trigger] find_column(cc, line.tags@[q].0@)) is Some)
                ==> staged@.len() == 0 && local == local0,
            local.next_table_id == local0.next_table_id,
            local.next_column_id >= local0.next_column_id,
            local0.next_column_id == ids0.next_column_id,
            start == ids0.next_column_id,
            is_new == (existing is None),
            staging_follows(cc, column_models(staged@), origin, *line, start, k as int, local.next_column_id as int, is_new),
            is_new ==> forall|q: int| 0 <= q < k ==> key@[q] == start + q,
            forall|a: int, b: int|
                #![trigger line_names(*line)[a], line_names(*line)[b]]
                0 <= a < b < k && line_names(*line)[a] == line_names(*line)[b] ==> find_column(
                    cc,
                    line_names(*line)[a],
                ) is Some,
        decreases nt - k,
    {
        let ghost st = staged@;
        let ghost nb = local.next_column_id;
        proof {
            lemma_line_names(*line);
            if can_qualify(s0, ids0, *line, precision) && find_column(cc, line_names(*line)[k as int]) is None {
                lemma_no_duplicate(s0, ids0, cc, column_models(staged@), origin, *line, precision, k as int, nb as int, is_new);
            }
            if can_qualify(s0, ids0, *line, precision) {
                assert(!conflicts(cc, line.tags@[k as int].0@, ColumnType::Tag));
            }
        }
        let id = match resolve_column(cols, &mut staged, &mut local, &line.tags[k].0, ColumnType::Tag) {
            Ok(id) => id,
            Err(e) => {
                proof {
                    if is_clean(cc, *line) {
                        assert(find_column(cc, line.tags@[k as int].0@) is Some);
                        assert(!conflicts(cc, line.tags@[k as int].0@, ColumnType::Tag));
                    }
                    if names_present(cc, *line) {
                        assert(find_column(cc, line.tags@[k as int].0@) is Some);
                    }
                    if e is TypeMismatch {
                        assert(reports_mismatch(e, cc, line.tags@[k as int].0@, ColumnType::Tag));
                        lemma_line_names(*line);
                        assert(line_names(*line)[k as int] == line.tags@[k as int].0@);
                        assert forall|q: int| 0 <= q < k implies !conflicts(
                            cc,
                            #[trigger] line_names(*line)[q],
                            line_type(*line, q),
                        ) by {
                            assert(line_names(*line)[q] == line.tags@[q].0@);
                        }
                        assert(reports_mismatch(e, cc, line_names(*line)[k as int], line_type(*line, k as int)));
                    }
                }
                return Err(e);
            },
        };
        proof {
            lemma_line_names(*line);
            assert forall|a: int, b: int|
                #![trigger line_names(*line)[a], line_names(*line)[b]]
                0 <= a < b < k + 1 && line_names(*line)[a] == line_names(*line)[b] implies find_column(
                    cc,
                    line_names(*line)[a],
                ) is Some by {
                if b == k && find_column(cc, line_names(*line)[a]) is None {
                    lemma_new_columns_has(cc, *line, start, a, k as int);
                }
            }
            origin = lemma_track_step(
                cc,
                column_models(st),
                column_models(staged@),
                origin,
                *line,
                start,
                k as int,
                nb as int,
                local.next_column_id as int,
                is_new,
            );
        }
        row.push(Field { id, value: FieldData::Tag(line.tags[k].1.clone()) });
        key.push(id);
        proof {
            lemma_find_column_bounds(cc, line.tags@[k as int].0@);
            if forall|q: int| 0 <= q <= k ==> (#[trigger] find_column(cc, line.tags@[q].0@)) is Some {
                assert(find_column(cc, line.tags@[k as int].0@) is Some);
            }
        }
        k = k + 1;
    }
    let ghost row_tags = row@;
    let mut f: usize = 0;
    while f < nf
        invariant
            f <= nf,
            nt == line.tags.len(),
            nf == line.fields.len(),
            cc == column_models(cols@),
            cc == columns_of_table(s0, m),
            schema@ == s0,
            s0 == old(schema)@,
            m == line.measurement@,
            *ids == ids0,
            fresh_columns(cc, column_models(staged@)),
            row@.len() == nt + f,
            key@.len() == nt,
            forall|q: int|
                0 <= q < nt ==> (#[trigger] row@[q]).value == FieldData::Tag(line.tags@[q].1)
                    && column_is(cc + column_models(staged@), line.tags@[q].0@, ColumnType::Tag, row@[q].id)
                    && key@[q] == row@[q].id,
            forall|q: int|
                0 <= q < f ==> (#[trigger] row@[nt + q]).value == field_data_of(line.fields@[q].1)
                    && column_is(
                    cc + column_models(staged@),
                    line.fields@[q].0@,
                    ColumnType::Field(field_type_of(line.fields@[q].1)),
                    row@[nt + q].id,
                ),
            forall|q: int| 0 <= q < nt ==> !#[trigger] conflicts(cc, line.tags@[q].0@, ColumnType::Tag),
            forall|q: int|
                0 <= q < f ==> !#[trigger] conflicts(
                    cc,
                    line.fields@[q].0@,
                    ColumnType::Field(field_type_of(line.fields@[q].1)),
                ),
            (forall|q: int| 0 <= q < nt ==> (#[trigger] find_column(cc, line.tags@[q].0@)) is Some)
                && (forall|q: int| 0 <= q < f ==> (#[trigger] find_column(cc, line.fields@[q].0@)) is Some)
                ==> staged@.len() == 0 && local == local0,
            local.next_table_id == local0.next_table_id,
            local.next_column_id >= local0.next_column_id,
            local0.next_column_id == ids0.next_column_id,
            start == ids0.next_column_id,
            is_new == (existing is None),
            staging_follows(
                cc,
                column_models(staged@),
                origin,
                *line,
                start,
                nt + f as int,
                local.next_column_id as int,
                is_new,
            ),
            is_new ==> forall|q: int| 0 <= q < nt ==> key@[q] == start + q,
            forall|a: int, b: int|
                #![trigger line_names(*line)[a], line_names(*line)[b]]
                0 <= a < b < nt + f && line_names(*line)[a] == line_names(*line)[b] ==> find_column(
                    cc,
                    line_names(*line)[a],
                ) is Some,
        decreases nf - f,
    {
        let ty = column_type_of(&line.fields[f].1);
        let ghost st = staged@;
        let ghost nb = local.next_column_id;
        proof {
            lemma_line_names(*line);
            assert(line_type(*line, nt + f as int) == ty);
            if can_qualify(s0, ids0, *line, precision) && find_column(cc, line_names(*line)[nt + f as int]) is None {
                lemma_no_duplicate(
                    s0,
                    ids0,
                    cc,
                    column_models(staged@),
                    origin,
                    *line,
                    precision,
                    nt + f as int,
                    nb as int,
                    is_new,
                );
            }
            if can_qualify(s0, ids0, *line, precision) {
                assert(!conflicts(cc, line.fields@[f as int].0@, ty));
            }
        }
        let id = match resolve_column(cols, &mut staged, &mut local, &line.fields[f].0, ty) {
            Ok(id) => id,
            Err(e) => {
                proof {
                    if is_clean(cc, *line) {
                        assert(find_column(cc, line.fields@[f as int].0@) is Some);
                        assert(!conflicts(
                            cc,
                            line.fields@[f as int].0@,
                            ColumnType::Field(field_type_of(line.fields@[f as int].1)),
                        ));
                    }
                    if names_present(cc, *line) {
                        assert(find_column(cc, line.fields@[f as int].0@) is Some);
                    }
                    if e is TypeMismatch {
                        assert(reports_mismatch(
                            e,
                            cc,
                            line.fields@[f as int].0@,
                            ColumnType::Field(field_type_of(line.fields@[f as int].1)),
                        ));
                        lemma_line_names(*line);
                        let p = nt + f as int;
                        assert(line_names(*line)[p] == line.fields@[f as int].0@);
                        assert forall|q: int| 0 <= q < p implies !conflicts(
                            cc,
                            #[trigger] line_names(*line)[q],
                            line_type(*line, q),
                        ) by {
                            if q < nt {
                                assert(line_names(*line)[q] == line.tags@[q].0@);
                            } else {
                                assert(line_names(*line)[nt + (q - nt)] == line.fields@[q - nt].0@);
                            }
                        }
                        assert(reports_mismatch(e, cc, line_names(*line)[p], line_type(*line, p)));
                    }
                }
                return Err(e);
            },
        };
        proof {
            lemma_line_names(*line);
            assert forall|a: int, b: int|
                #![trigger line_names(*line)[a], line_names(*line)[b]]
                0 <= a < b < nt + f + 1 && line_names(*line)[a] == line_names(*line)[b] implies find_column(
                    cc,
                    line_names(*line)[a],
                ) is Some by {
                if b == nt + f && find_column(cc, line_names(*line)[a]) is None {
                    lemma_new_columns_has(cc, *line, start, a, nt + f as int);
                }
            }
            origin = lemma_track_step(
                cc,
                column_models(st),
                column_models(staged@),
                origin,
                *line,
                start,
                nt + f as int,
                nb as int,
                local.next_column_id as int,
                is_new,
            );
        }
        let value = to_field_data(&line.fields[f].1);
        let ghost row_before = row@;
        row.push(Field { id, value });
        proof {
            lemma_find_column_bounds(cc, line.fields@[f as int].0@);
            if forall|q: int| 0 <= q <= f ==> (#[trigger] find_column(cc, line.fields@[q].0@)) is Some {
                assert(find_column(cc, line.fields@[f as int].0@) is Some);
            }
            assert forall|q: int| 0 <= q <= f implies (#[trigger] row@[nt + q]).value == field_data_of(line.fields@[q].1)
                    && column_is(
                    cc + column_models(staged@),
                    line.fields@[q].0@,
                    ColumnType::Field(field_type_of(line.fields@[q].1)),
                    row@[nt + q].id,
                ) by {
                if q < f {
                    assert(row@[nt + q] == row_before[nt + q]);
                }
            }
        }
        f = f + 1;
    }
    let time_name = time_column();
    let ghost st = staged@;
    let ghost nb = local.next_column_id;
    proof {
        lemma_line_names(*line);
        if can_qualify(s0, ids0, *line, precision) && find_column(cc, time_column_name()) is None {
            lemma_no_duplicate(
                s0,
                ids0,
                cc,
                column_models(staged@),
                origin,
                *line,
                precision,
                nt + nf as int,
                nb as int,
                is_new,
            );
        }
    }
    let time_id = match resolve_column(cols, &mut staged, &mut local, &time_name, ColumnType::Timestamp) {
        Ok(id) => id,
        Err(e) => {
            proof {
                if e is TypeMismatch {
                    lemma_line_names(*line);
                    let p = nt + nf as int;
                    assert forall|q: int| 0 <= q < p implies !conflicts(
                        cc,
                        #[trigger] line_names(*line)[q],
                        line_type(*line, q),
                    ) by {
                        if q < nt {
                            assert(line_names(*line)[q] == line.tags@[q].0@);
                        } else {
                            assert(line_names(*line)[nt + (q - nt)] == line.fields@[q - nt].0@);
                        }
                    }
                    assert(reports_mismatch(e, cc, line_names(*line)[p], line_type(*line, p)));
                }
            }
            return Err(e);
        },
    };
    proof {
        lemma_line_names(*line);
        assert forall|a: int, b: int|
            #![trigger line_names(*line)[a], line_names(*line)[b]]
            0 <= a < b < nt + nf + 1 && line_names(*line)[a] == line_names(*line)[b] implies find_column(
                cc,
                line_names(*line)[a],
            ) is Some by {
            if b == nt + nf && find_column(cc, line_names(*line)[a]) is None {
                lemma_new_columns_has(cc, *line, start, a, nt + nf as int);
            }
        }
        lemma_new_columns_grow(cc, *line, start, nt + nf as int, nt + nf + 1);
        origin = lemma_track_step(
            cc,
            column_models(st),
            column_models(staged@),
            origin,
            *line,
            start,
            nt + nf as int,
            nb as int,
            local.next_column_id as int,
            is_new,
        );
        assert(new_table_columns(*line, start).take(nt + nf + 1) =~= new_table_columns(*line, start));
        if is_new {
            assert(key@ =~= Seq::new(nt as nat, |q: int| (start + q) as u64));
        }
    }
    let time_ns: i64 = match line.timestamp {
        Some(t) => match checked_timestamp_nanos(precision, t) {
            Some(ns) => ns,
            None => {
                return Err(LineError::TimestampOutOfRange);
            },
        },
        None => ingest_time,
    };
    row.push(Field { id: time_id, value: FieldData::Timestamp(time_ns) });
    let ghost final_cols = cc + column_models(staged@);
    let ghost row_v = row@;
    proof {
        lemma_find_column_bounds(cc, time_column_name());
    }
    let ql = QualifiedLine {
        table_id,
        row: Row { time: time_ns, fields: row },
        index_count: nt,
        field_count: nf,
    };
    if staged.len() == 0 {
        proof {
            assert(final_cols =~= cc);
        }
        return Ok((ql, None));
    }
    let op = match existing {
        Some(i) => {
            match table_id_index(&schema.tables, table_id) {
                Some(j) => {
                    if j != i {
                        return Err(LineError::TableOverwrite);
                    }
                },
                None => {
                    return Err(LineError::TableOverwrite);
                },
            }
            let defs = copy_columns(&staged);
            let mut t = schema.tables[i].copy();
            t.columns.append(&mut staged);
            schema.tables.set(i, t);
            proof {
                assert(column_models(t.columns@) =~= final_cols);
                assert(schema@.tables =~= s0.tables.update(i as int, t@));
                lemma_find_table_update(s0.tables, i as int, t@, m);
            }
            CatalogOp::AddFields {
                database_id: schema.id,
                database_name: schema.name.clone(),
                table_id,
                table_name: line.measurement.clone(),
                field_definitions: defs,
            }
        },
        None => {
            if table_id_index(&schema.tables, table_id).is_some() {
                return Err(LineError::TableOverwrite);
            }
            let defs = copy_columns(&staged);
            let key_copy = copy_ids(&key);
            let t = TableDefinition {
                table_id,
                table_name: line.measurement.clone(),
                columns: staged,
                series_key: key,
            };
            schema.tables.push(t);
            proof {
                assert(cc =~= Seq::<ColumnModel>::empty());
                assert(column_models(t.columns@) =~= final_cols);
                assert(schema@.tables =~= s0.tables.push(t@));
                assert(schema@.tables.drop_last() =~= s0.tables);
            }
            CatalogOp::CreateTable {
                database_id: schema.id,
                database_name: schema.name.clone(),
                table_id,
                table_name: line.measurement.clone(),
                field_definitions: defs,
                key: key_copy,
            }
        },
    };
    *ids = local;
    Ok((ql, Some(op)))
}

/// A row that matches the columns names only columns that exist.
pub proof fn lemma_row_matches_resident(cols: Seq<ColumnModel>, line: LineTokens, row: Row)
    requires
        row_matches(cols, line, row),
    ensures
        is_resident(cols, line),
{
    let nt = line.tags.len() as int;
    assert forall|k: int| 0 <= k < line.tags.len() implies (#[trigger] find_column(
        cols,
        line.tags@[k].0@,
    )) is Some by {
        assert(column_is(cols, line.tags@[k].0@, ColumnType::Tag, row.fields@[k].id));
    }
    assert forall|k: int| 0 <= k < line.fields.len() implies (#[trigger] find_column(
        cols,
        line.fields@[k].0@,
    )) is Some by {
        assert(column_is(
            cols,
            line.fields@[k].0@,
            ColumnType::Field(field_type_of(line.fields@[k].1)),
            row.fields@[nt + k].id,
        ));
    }
}

/// Columns added after the existing ones keep every lookup of an existing
/// name, so residence and type conflicts carry over.
pub proof fn lemma_prefix_keeps_lookups(a: Seq<ColumnModel>, b: Seq<ColumnModel>, line: LineTokens)
    requires
        a.len() <= b.len(),
        b.take(a.len() as int) == a,
    ensures
        is_resident(a, line) ==> is_resident(b, line),
        has_type_conflict(a, line) ==> has_type_conflict(b, line),
{
    assert(b =~= a + b.skip(a.len() as int));
    assert forall|n: Seq<char>| (#[trigger] find_column(a, n)) is Some implies find_column(b, n)
        == find_column(a, n) by {
        lemma_find_column_append(a, b.skip(a.len() as int), n);
        lemma_find_column_bounds(a, n);
    }
    if is_resident(a, line) {
        assert forall|k: int| 0 <= k < line.tags.len() implies (#[trigger] find_column(
            b,
            line.tags@[k].0@,
        )) is Some by {
            assert(find_column(a, line.tags@[k].0@) is Some);
        }
        assert forall|k: int| 0 <= k < line.fields.len() implies (#[trigger] find_column(
            b,
            line.fields@[k].0@,
        )) is Some by {
            assert(find_column(a, line.fields@[k].0@) is Some);
        }
        assert(find_column(a, time_column_name()) is Some);
    }
    if has_type_conflict(a, line) {
        if exists|k: int|
            0 <= k < line.tags.len() && #[trigger] conflicts(a, line.tags@[k].0@, ColumnType::Tag) {
            let k = choose|k: int|
                0 <= k < line.tags.len() && #[trigger] conflicts(a, line.tags@[k].0@, ColumnType::Tag);
            assert(find_column(a, line.tags@[k].0@) is Some);
            lemma_find_column_bounds(a, line.tags@[k].0@);
            assert(conflicts(b, line.tags@[k].0@, ColumnType::Tag));
        } else {
            let k = choose|k: int|
                0 <= k < line.fields.len() && #[trigger] conflicts(
                    a,
                    line.fields@[k].0@,
                    ColumnType::Field(field_type_of(line.fields@[k].1)),
                );
            assert(find_column(a, line.fields@[k].0@) is Some);
            lemma_find_column_bounds(a, line.fields@[k].0@);
            assert(conflicts(
                b,
                line.fields@[k].0@,
                ColumnType::Field(field_type_of(line.fields@[k].1)),
            ));
        }
    }
}

/// The line's row sits in the table of its measurement in `s`, against
/// columns of `s` of the right names and types.
pub open spec fn placed(s: SchemaModel, line: LineTokens, ql: QualifiedLine) -> bool {
    find_table(s.tables, line.measurement@) matches Some(j) && s.tables[j].table_id == ql.table_id
        && row_matches(s.tables[j].columns, line, ql.row)
}

/// A schema that only adds tables and columns keeps every placed row placed.
pub proof fn lemma_placed_extends(a: SchemaModel, b: SchemaModel, line: LineTokens, ql: QualifiedLine)
    requires
        placed(a, line, ql),
        crate::ops::extends(a, b),
    ensures
        placed(b, line, ql),
{
    let m = line.measurement@;
    let j = find_table(a.tables, m).unwrap();
    lemma_find_table_bounds(a.tables, m);
    assert(find_table(b.tables, m) == Some(j));
    let ca = a.tables[j].columns;
    let cb = b.tables[j].columns;
    assert(ca == columns_of_table(a, m));
    assert(cb == columns_of_table(b, m));
    assert(cb =~= ca + cb.skip(ca.len() as int));
    assert forall|n: Seq<char>, ty: ColumnType, id: u64| column_is(ca, n, ty, id) implies #[trigger] column_is(
        cb,
        n,
        ty,
        id,
    ) by {
        lemma_find_column_append(ca, cb.skip(ca.len() as int), n);
        lemma_find_column_bounds(ca, n);
    }
    let nt = line.tags.len() as int;
    let nf = line.fields.len() as int;
    assert forall|k: int| 0 <= k < nt implies (#[trigger] ql.row.fields@[k]).value == FieldData::Tag(line.tags@[k].1)
        && column_is(cb, line.tags@[k].0@, ColumnType::Tag, ql.row.fields@[k].id) by {
        assert(column_is(ca, line.tags@[k].0@, ColumnType::Tag, ql.row.fields@[k].id));
    }
    assert forall|k: int| 0 <= k < nf implies (#[trigger] ql.row.fields@[nt + k]).value == field_data_of(line.fields@[k].1)
        && column_is(
        cb,
        line.fields@[k].0@,
        ColumnType::Field(field_type_of(line.fields@[k].1)),
        ql.row.fields@[nt + k].id,
    ) by {
        assert(column_is(
            ca,
            line.fields@[k].0@,
            ColumnType::Field(field_type_of(line.fields@[k].1)),
            ql.row.fields@[nt + k].id,
        ));
    }
    assert(column_is(cb, time_column_name(), ColumnType::Timestamp, ql.row.fields@[nt + nf].id));
}

/// A row that matches the columns shows the line clean against them.
pub proof fn lemma_row_matches_clean(cols: Seq<ColumnModel>, line: LineTokens, row: Row)
    requires
        row_matches(cols, line, row),
    ensures
        is_clean(cols, line),
{
    lemma_row_matches_resident(cols, line, row);
    let nt = line.tags.len() as int;
    let nf = line.fields.len() as int;
    assert forall|k: int| 0 <= k < nt implies !#[trigger] conflicts(cols, line.tags@[k].0@, ColumnType::Tag) by {
        assert(column_is(cols, line.tags@[k].0@, ColumnType::Tag, row.fields@[k].id));
    }
    assert forall|k: int| 0 <= k < nf implies !#[trigger] conflicts(
        cols,
        line.fields@[k].0@,
        ColumnType::Field(field_type_of(line.fields@[k].1)),
    ) by {
        assert(column_is(
            cols,
            line.fields@[k].0@,
            ColumnType::Field(field_type_of(line.fields@[k].1)),
            row.fields@[nt + k].id,
        ));
    }
}

/// Columns added after the existing ones keep a clean line clean.
pub proof fn lemma_prefix_keeps_clean(a: Seq<ColumnModel>, b: Seq<ColumnModel>, line: LineTokens)
    requires
        a.len() <= b.len(),
        b.take(a.len() as int) == a,
        is_clean(a, line),
    ensures
        is_clean(b, line),
{
    lemma_prefix_keeps_lookups(a, b, line);
    assert(b =~= a + b.skip(a.len() as int));
    assert forall|n: Seq<char>| (#[trigger] find_column(a, n)) is Some implies find_column(b, n)
        == find_column(a, n) by {
        lemma_find_column_append(a, b.skip(a.len() as int), n);
        lemma_find_column_bounds(a, n);
    }
    assert forall|k: int| 0 <= k < line.tags.len() implies !#[trigger] conflicts(b, line.tags@[k].0@, ColumnType::Tag) by {
        assert(find_column(a, line.tags@[k].0@) is Some);
        assert(!conflicts(a, line.tags@[k].0@, ColumnType::Tag));
        lemma_find_column_bounds(a, line.tags@[k].0@);
    }
    assert forall|k: int| 0 <= k < line.fields.len() implies !#[trigger] conflicts(
        b,
        line.fields@[k].0@,
        ColumnType::Field(field_type_of(line.fields@[k].1)),
    ) by {
        assert(find_column(a, line.fields@[k].0@) is Some);
        assert(!conflicts(a, line.fields@[k].0@, ColumnType::Field(field_type_of(line.fields@[k].1))));
        lemma_find_column_bounds(a, line.fields@[k].0@);
    }
    assert(find_column(a, time_column_name()) is Some);
    lemma_find_column_bounds(a, time_column_name());
}

/// Every table id of `s` lies below the next table id and every column id
/// below the next column id.
pub open spec fn ids_above(s: SchemaModel, ids: IdCounters) -> bool {
    &&& forall|i: int| 0 <= i < s.tables.len() ==> (#[trigger] s.tables[i]).table_id < ids.next_table_id
    &&& forall|i: int, j: int|
        0 <= i < s.tables.len() && 0 <= j < s.tables[i].columns.len() ==> (#[trigger] s.tables[i].columns[j]).id
            < ids.next_column_id
}

pub proof fn lemma_new_columns_ids(cc: Seq<ColumnModel>, line: LineTokens, start: int, pos: int)
    requires
        0 <= start,
        start + new_columns(cc, line, start, pos) .len() <= u64::MAX,
    ensures
        forall|j: int|
            0 <= j < new_columns(cc, line, start, pos).len() ==> (#[trigger] new_columns(cc, line, start, pos)[j]).id
                == start + j,
    decreases pos,
{
    if pos > 0 {
        lemma_new_columns_grow(cc, line, start, pos - 1, pos);
        lemma_new_columns_ids(cc, line, start, pos - 1);
    }
}

/// Qualifying a line mints only ids at or above the counters, so none of
/// them is an id the schema already holds, and the counters stay above every
/// id of the new schema.
pub proof fn lemma_qualify_mints_fresh_ids(s: SchemaModel, ids: IdCounters, line: LineTokens, p: Precision)
    requires
        ids_above(s, ids),
        can_qualify(s, ids, line, p),
    ensures
        ids_above(qualified_schema(s, ids, line), qualified_ids(s, ids, line)),
        forall|j: int|
            0 <= j < added_columns(s, ids, line).len() ==> (#[trigger] added_columns(s, ids, line)[j]).id
                >= ids.next_column_id,
{
    let m = line.measurement@;
    let nc = added_columns(s, ids, line);
    let s2 = qualified_schema(s, ids, line);
    let ids2 = qualified_ids(s, ids, line);
    lemma_new_columns_ids(columns_of_table(s, m), line, ids.next_column_id as int, line_names(line).len() as int);
    lemma_find_table_bounds(s.tables, m);
    if nc.len() > 0 {
        match find_table(s.tables, m) {
            Some(i0) => {
                assert forall|i: int, j: int|
                    0 <= i < s2.tables.len() && 0 <= j < s2.tables[i].columns.len() implies (#[trigger] s2.tables[i].columns[j]).id
                    < ids2.next_column_id by {
                    if i == i0 && j >= s.tables[i0].columns.len() {
                        assert(s2.tables[i].columns[j] == nc[j - s.tables[i0].columns.len()]);
                    }
                }
            },
            None => {
                assert forall|i: int, j: int|
                    0 <= i < s2.tables.len() && 0 <= j < s2.tables[i].columns.len() implies (#[trigger] s2.tables[i].columns[j]).id
                    < ids2.next_column_id by {
                    if i == s.tables.len() {
                        assert(s2.tables[i].columns[j] == nc[j]);
                    }
                }
            },
        }
    }
}

} // verus!
