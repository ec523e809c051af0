use crate::qualify::columns_of_table;
use crate::schema::{
    column_models, find_column, find_table, find_table_id, lemma_find_table_bounds,
    lemma_find_table_update, ColumnDefinition, ColumnModel, SchemaModel, TableModel,
};
use vstd::prelude::*;

verus! {

/// One schema change staged by a write.
#[derive(Debug)]
pub enum CatalogOp {
    CreateTable {
        database_id: u64,
        database_name: String,
        table_id: u64,
        table_name: String,
        field_definitions: Vec<ColumnDefinition>,
        key: Vec<u64>,
    },
    AddFields {
        database_id: u64,
        database_name: String,
        table_id: u64,
        table_name: String,
        field_definitions: Vec<ColumnDefinition>,
    },
}

/// Each added column is new to the columns before it.
pub open spec fn fresh_columns(cols: Seq<ColumnModel>, added: Seq<ColumnModel>) -> bool {
    forall|j: int|
        0 <= j < added.len() ==> (#[trigger] find_column(cols + added.take(j), added[j].name)) is None
}

/// The schema that results from applying `op`, or `None` where the op
/// conflicts with what the schema holds.
pub open spec fn apply_op(s: SchemaModel, op: CatalogOp) -> Option<SchemaModel> {
    match op {
        CatalogOp::CreateTable { table_id, table_name, field_definitions, key, .. } => {
            let cols = column_models(field_definitions@);
            if find_table(s.tables, table_name@) is None && find_table_id(s.tables, table_id) is None
                && fresh_columns(Seq::empty(), cols) {
                Some(
                    SchemaModel {
                        tables: s.tables.push(
                            TableModel {
                                table_id,
                                table_name: table_name@,
                                columns: cols,
                                series_key: key@,
                            },
                        ),
                        ..s
                    },
                )
            } else {
                None
            }
        },
        CatalogOp::AddFields { table_id, field_definitions, .. } => {
            let cols = column_models(field_definitions@);
            match find_table_id(s.tables, table_id) {
                Some(i) => if fresh_columns(s.tables[i].columns, cols) {
                    Some(
                        SchemaModel {
                            tables: s.tables.update(
                                i,
                                TableModel { columns: s.tables[i].columns + cols, ..s.tables[i] },
                            ),
                            ..s
                        },
                    )
                } else {
                    None
                },
                None => None,
            }
        },
    }
}

/// The schema after applying `ops` in order, or `None` where one conflicts.
pub open spec fn apply_ops(s: SchemaModel, ops: Seq<CatalogOp>) -> Option<SchemaModel>
    decreases ops.len(),
{
    if ops.len() == 0 {
        Some(s)
    } else {
        match apply_ops(s, ops.drop_last()) {
            Some(t) => apply_op(t, ops.last()),
            None => None,
        }
    }
}

/// `b` starts with `a`.
pub open spec fn is_prefix(a: Seq<ColumnModel>, b: Seq<ColumnModel>) -> bool {
    a.len() <= b.len() && b.take(a.len() as int) == a
}

/// Every table of `s` is a table of `s2` under the same name, whose columns
/// start with the old ones.
pub open spec fn extends(s: SchemaModel, s2: SchemaModel) -> bool {
    &&& s2.id == s.id
    &&& s2.name == s.name
    &&& s.tables.len() <= s2.tables.len()
    &&& forall|i: int| 0 <= i < s.tables.len() ==> (#[trigger] s2.tables[i]).table_id == s.tables[i].table_id
    &&& forall|m: Seq<char>|
        #[trigger] find_table(s.tables, m) is Some ==> find_table(s2.tables, m) == find_table(s.tables, m) && is_prefix(
            columns_of_table(s, m),
            columns_of_table(s2, m),
        )
}

/// Applying an op keeps every table and every column that was there.
pub proof fn lemma_apply_op_extends(s: SchemaModel, op: CatalogOp)
    requires
        apply_op(s, op) is Some,
    ensures
        extends(s, apply_op(s, op).unwrap()),
{
    let s2 = apply_op(s, op).unwrap();
    match op {
        CatalogOp::AddFields { table_id, .. } => {
            crate::schema::lemma_find_table_id_bounds(s.tables, table_id);
        },
        _ => {},
    }
    assert(s.tables.len() <= s2.tables.len());
    assert forall|i: int| 0 <= i < s.tables.len() implies (#[trigger] s2.tables[i]).table_id
        == s.tables[i].table_id by {
        match op {
            CatalogOp::CreateTable { .. } => {},
            CatalogOp::AddFields { table_id, .. } => {
                crate::schema::lemma_find_table_id_bounds(s.tables, table_id);
            },
        }
    }
    assert forall|m: Seq<char>| #[trigger] find_table(s.tables, m) is Some implies find_table(
        s2.tables,
        m,
    ) == find_table(s.tables, m) && is_prefix(columns_of_table(s, m), columns_of_table(s2, m)) by {
        lemma_find_table_bounds(s.tables, m);
        let i = find_table(s.tables, m).unwrap();
        match op {
            CatalogOp::CreateTable { .. } => {
                assert(s2.tables.drop_last() =~= s.tables);
                assert(s2.tables[i] == s.tables[i]);
                assert(columns_of_table(s2, m).take(columns_of_table(s, m).len() as int)
                    =~= columns_of_table(s, m));
            },
            CatalogOp::AddFields { table_id, field_definitions, .. } => {
                let i0 = find_table_id(s.tables, table_id).unwrap();
                let t2 = TableModel {
                    columns: s.tables[i0].columns + column_models(field_definitions@),
                    ..s.tables[i0]
                };
                crate::schema::lemma_find_table_id_bounds(s.tables, table_id);
                lemma_find_table_update(s.tables, i0, t2, m);
                assert(s2.tables == s.tables.update(i0, t2));
                if i == i0 {
                    assert(columns_of_table(s2, m).take(columns_of_table(s, m).len() as int)
                        =~= columns_of_table(s, m));
                } else {
                    assert(columns_of_table(s2, m).take(columns_of_table(s, m).len() as int)
                        =~= columns_of_table(s, m));
                }
            },
        }
    }
}

pub proof fn lemma_extends_trans(a: SchemaModel, b: SchemaModel, c: SchemaModel)
    requires
        extends(a, b),
        extends(b, c),
    ensures
        extends(a, c),
{
    assert forall|i: int| 0 <= i < a.tables.len() implies (#[trigger] c.tables[i]).table_id
        == a.tables[i].table_id by {
        assert(b.tables[i].table_id == a.tables[i].table_id);
    }
    assert forall|m: Seq<char>| #[trigger] find_table(a.tables, m) is Some implies find_table(
        c.tables,
        m,
    ) == find_table(a.tables, m) && is_prefix(columns_of_table(a, m), columns_of_table(c, m)) by {
        assert(find_table(b.tables, m) is Some);
        let ca = columns_of_table(a, m);
        let cb = columns_of_table(b, m);
        let cc = columns_of_table(c, m);
        assert(cc.take(ca.len() as int) =~= cb.take(ca.len() as int));
    }
}

pub proof fn lemma_extends_refl(a: SchemaModel)
    ensures
        extends(a, a),
{
    assert forall|m: Seq<char>| #[trigger] find_table(a.tables, m) is Some implies find_table(
        a.tables,
        m,
    ) == find_table(a.tables, m) && is_prefix(columns_of_table(a, m), columns_of_table(a, m)) by {
        assert(columns_of_table(a, m).take(columns_of_table(a, m).len() as int) =~= columns_of_table(
            a,
            m,
        ));
    }
}

/// Applying a sequence of ops keeps every table and every column that was
/// there.
pub proof fn lemma_apply_ops_extends(s: SchemaModel, ops: Seq<CatalogOp>)
    requires
        apply_ops(s, ops) is Some,
    ensures
        extends(s, apply_ops(s, ops).unwrap()),
    decreases ops.len(),
{
    if ops.len() == 0 {
        lemma_extends_refl(s);
    } else {
        let t = apply_ops(s, ops.drop_last()).unwrap();
        lemma_apply_ops_extends(s, ops.drop_last());
        lemma_apply_op_extends(t, ops.last());
        lemma_extends_trans(s, t, apply_ops(s, ops).unwrap());
    }
}

} // verus!
