use crate::ops::{apply_op, apply_ops, fresh_columns, CatalogOp};
use crate::qualify::IdCounters;
use crate::schema::{
    column_index, column_models, copy_columns, copy_ids, find_column,
    lemma_find_column_append, lemma_find_column_bounds, table_id_index, table_index,
    ColumnDefinition, ColumnModel, DatabaseSchema, SchemaModel, TableDefinition,
};
use vstd::prelude::*;

verus! {

/// An ordered list of schema changes for one namespace, applied as a whole.
#[derive(Debug)]
pub struct CatalogBatch {
    pub database_id: u64,
    pub database_name: String,
    pub time_ns: i64,
    pub ops: Vec<CatalogOp>,
}

/// A batch that the catalog applied, with the sequence number it was given.
#[derive(Debug)]
pub struct OrderedCatalogBatch {
    pub sequence_number: u64,
    pub batch: CatalogBatch,
}

/// Why the catalog refused a request.
#[derive(Debug, Clone, Copy, PartialEq, Eq, Structural)]
pub enum CatalogError {
    /// No namespace has the batch's database id.
    DatabaseNotFound,
    /// An op conflicts with the current schema.
    Conflict,
    /// No database id or sequence number is left to hand out.
    Exhausted,
}

/// The catalog as the proofs see it.
pub struct CatalogModel {
    pub node_id: Seq<char>,
    pub instance_id: Seq<char>,
    pub databases: Seq<SchemaModel>,
    pub ids: IdCounters,
    pub next_database_id: u64,
    pub sequence_number: u64,
}

/// The shared catalog of namespace schemas.
#[derive(Debug)]
pub struct Catalog {
    node_id: String,
    instance_id: String,
    databases: Vec<DatabaseSchema>,
    ids: IdCounters,
    next_database_id: u64,
    sequence_number: u64,
}

pub open spec fn schema_models(dbs: Seq<DatabaseSchema>) -> Seq<SchemaModel> {
    dbs.map_values(|d: DatabaseSchema| d@)
}

impl View for Catalog {
    type V = CatalogModel;

    closed spec fn view(&self) -> CatalogModel {
        CatalogModel {
            node_id: self.node_id@,
            instance_id: self.instance_id@,
            databases: schema_models(self.databases@),
            ids: self.ids,
            next_database_id: self.next_database_id,
            sequence_number: self.sequence_number,
        }
    }
}

/// Index of the first namespace called `name`.
pub open spec fn find_database(dbs: Seq<SchemaModel>, name: Seq<char>) -> Option<int>
    decreases dbs.len(),
{
    if dbs.len() == 0 {
        None
    } else {
        match find_database(dbs.drop_last(), name) {
            Some(i) => Some(i),
            None => if dbs.last().name == name {
                Some(dbs.len() - 1)
            } else {
                None
            },
        }
    }
}

/// Index of the first namespace with id `id`.
pub open spec fn find_database_id(dbs: Seq<SchemaModel>, id: u64) -> Option<int>
    decreases dbs.len(),
{
    if dbs.len() == 0 {
        None
    } else {
        match find_database_id(dbs.drop_last(), id) {
            Some(i) => Some(i),
            None => if dbs.last().id == id {
                Some(dbs.len() - 1)
            } else {
                None
            },
        }
    }
}

pub proof fn lemma_find_database_bounds(dbs: Seq<SchemaModel>, name: Seq<char>)
    ensures
        find_database(dbs, name) matches Some(i) ==> 0 <= i < dbs.len() && dbs[i].name == name,
    decreases dbs.len(),
{
    if dbs.len() > 0 {
        lemma_find_database_bounds(dbs.drop_last(), name);
    }
}

pub proof fn lemma_find_database_id_bounds(dbs: Seq<SchemaModel>, id: u64)
    ensures
        find_database_id(dbs, id) matches Some(i) ==> 0 <= i < dbs.len() && dbs[i].id == id,
    decreases dbs.len(),
{
    if dbs.len() > 0 {
        lemma_find_database_id_bounds(dbs.drop_last(), id);
    }
}

proof fn lemma_find_database_append(a: Seq<SchemaModel>, b: Seq<SchemaModel>, name: Seq<char>)
    ensures
        find_database(a, name) matches Some(i) ==> find_database(a + b, name) == Some(i),
    decreases b.len(),
{
    if b.len() == 0 {
        assert(a + b =~= a);
    } else {
        lemma_find_database_append(a, b.drop_last(), name);
        assert((a + b).drop_last() =~= a + b.drop_last());
    }
}

proof fn lemma_find_database_id_append(a: Seq<SchemaModel>, b: Seq<SchemaModel>, id: u64)
    ensures
        find_database_id(a, id) matches Some(i) ==> find_database_id(a + b, id) == Some(i),
    decreases b.len(),
{
    if b.len() == 0 {
        assert(a + b =~= a);
    } else {
        lemma_find_database_id_append(a, b.drop_last(), id);
        assert((a + b).drop_last() =~= a + b.drop_last());
    }
}

pub open spec fn max_u64(a: u64, b: u64) -> u64 {
    if a >= b {
        a
    } else {
        b
    }
}

/// Whether every added column is new to `cols` and to the added columns
/// before it.
fn columns_are_fresh(cols: &Vec<ColumnDefinition>, added: &Vec<ColumnDefinition>) -> (r: bool)
    ensures
        r == fresh_columns(column_models(cols@), column_models(added@)),
{
    let ghost c = column_models(cols@);
    let ghost a = column_models(added@);
    let mut j: usize = 0;
    while j < added.len()
        invariant
            0 <= j <= added.len(),
            c == column_models(cols@),
            a == column_models(added@),
            forall|q: int| 0 <= q < j ==> (#[trigger] find_column(c + a.take(q), a[q].name)) is None,
        decreases added.len() - j,
    {
        proof {
            lemma_find_column_append(c, a.take(j as int), a[j as int].name);
            lemma_find_column_bounds(a.take(j as int), a[j as int].name);
        }
        let found = column_index(cols, &added[j].name);
        if found.is_some() {
            return false;
        }
        assert(find_column(c, a[j as int].name) is None);
        let mut q: usize = 0;
        while q < j
            invariant
                0 <= q <= j < added.len(),
                a == column_models(added@),
                c == column_models(cols@),
                forall|p: int| 0 <= p < q ==> a[p].name != a[j as int].name,
            decreases j - q,
        {
            if added[q].name == added[j].name {
                proof {
                    assert(a.take(j as int)[q as int].name == a[j as int].name);
                    lemma_find_column_bounds(a.take(j as int), a[j as int].name);
                    lemma_find_column_append(c, a.take(j as int), a[j as int].name);
                    assert(find_column(c + a.take(j as int), a[j as int].name) is Some);
                }
                return false;
            }
            q = q + 1;
        }
        proof {
            assert forall|p: int| 0 <= p < a.take(j as int).len() implies a.take(j as int)[p].name
                != a[j as int].name by {}
            lemma_find_column_bounds(a.take(j as int), a[j as int].name);
        }
        j = j + 1;
    }
    true
}

/// Applies one op to `s`, or leaves it unchanged and returns `false` where
/// the op conflicts with it.
fn apply_op_to_schema(s: &mut DatabaseSchema, op: &CatalogOp) -> (r: bool)
    ensures
        r == apply_op(old(s)@, *op) is Some,
        r ==> apply_op(old(s)@, *op) == Some(final(s)@),
        !r ==> final(s)@ == old(s)@,
{
    match op {
        CatalogOp::CreateTable { table_id, table_name, field_definitions, key, .. } => {
            let empty: Vec<ColumnDefinition> = Vec::new();
            proof {
                assert(column_models(empty@) =~= Seq::<ColumnModel>::empty());
            }
            if table_index(&s.tables, table_name).is_some() || table_id_index(
                &s.tables,
                *table_id,
            ).is_some() || !columns_are_fresh(&empty, field_definitions) {
                return false;
            }
            let t = TableDefinition {
                table_id: *table_id,
                table_name: table_name.clone(),
                columns: copy_columns(field_definitions),
                series_key: copy_ids(key),
            };
            let ghost before = s@;
            s.tables.push(t);
            proof {
                assert(s@.tables =~= before.tables.push(t@));
                assert(s@ =~= apply_op(before, *op).unwrap());
            }
            true
        },
        CatalogOp::AddFields { table_id, field_definitions, .. } => {
            match table_id_index(&s.tables, *table_id) {
                Some(i) => {
                    if !columns_are_fresh(&s.tables[i].columns, field_definitions) {
                        return false;
                    }
                    let ghost before = s@;
                    let mut t = s.tables[i].copy();
                    let mut added = copy_columns(field_definitions);
                    t.columns.append(&mut added);
                    s.tables.set(i, t);
                    proof {
                        assert(column_models(t.columns@) =~= before.tables[i as int].columns
                            + column_models(field_definitions@));
                        assert(s@.tables =~= before.tables.update(i as int, t@));
                        assert(s@ =~= apply_op(before, *op).unwrap());
                    }
                    true
                },
                None => false,
            }
        },
    }
}

impl Catalog {
    /// An empty catalog for the given node and instance.
    pub fn new(node_id: String, instance_id: String) -> (r: Catalog)
        ensures
            r@.node_id == node_id@,
            r@.instance_id == instance_id@,
            r@.databases.len() == 0,
            r@.ids == (IdCounters { next_table_id: 0, next_column_id: 0 }),
            r@.next_database_id == 0,
            r@.sequence_number == 0,
    {
        let r = Catalog {
            node_id,
            instance_id,
            databases: Vec::new(),
            ids: IdCounters { next_table_id: 0, next_column_id: 0 },
            next_database_id: 0,
            sequence_number: 0,
        };
        assert(r@.databases =~= Seq::<SchemaModel>::empty());
        r
    }

    /// The node that the catalog belongs to.
    pub fn node_id(&self) -> (r: &String)
        ensures
            r@ == self@.node_id,
    {
        &self.node_id
    }

    /// The instance that the catalog belongs to.
    pub fn instance_id(&self) -> (r: &String)
        ensures
            r@ == self@.instance_id,
    {
        &self.instance_id
    }

    /// The next table and column ids that the catalog has not handed out.
    pub fn id_counters(&self) -> (r: IdCounters)
        ensures
            r == self@.ids,
    {
        self.ids
    }

    /// The sequence number of the last applied batch.
    pub fn sequence_number(&self) -> (r: u64)
        ensures
            r == self@.sequence_number,
    {
        self.sequence_number
    }

    fn database_index(&self, name: &String) -> (r: Option<usize>)
        ensures
            r matches Some(i) ==> i < self.databases.len() && find_database(self@.databases, name@)
                == Some(i as int),
            r is None ==> find_database(self@.databases, name@) is None,
    {
        let ghost models = self@.databases;
        let mut i: usize = 0;
        while i < self.databases.len()
            invariant
                0 <= i <= self.databases.len(),
                models == self@.databases,
                find_database(models.take(i as int), name@) is None,
            decreases self.databases.len() - i,
        {
            proof {
                assert(models.take(i as int + 1).drop_last() =~= models.take(i as int));
            }
            if self.databases[i].name == *name {
                proof {
                    assert(models =~= models.take(i as int + 1) + models.skip(i as int + 1));
                    lemma_find_database_append(models.take(i as int + 1), models.skip(i as int + 1), name@);
                }
                return Some(i);
            }
            i = i + 1;
        }
        proof {
            assert(models.take(i as int) =~= models);
        }
        None
    }

    fn database_id_index(&self, id: u64) -> (r: Option<usize>)
        ensures
            r matches Some(i) ==> i < self.databases.len() && find_database_id(self@.databases, id)
                == Some(i as int),
            r is None ==> find_database_id(self@.databases, id) is None,
    {
        let ghost models = self@.databases;
        let mut i: usize = 0;
        while i < self.databases.len()
            invariant
                0 <= i <= self.databases.len(),
                models == self@.databases,
                find_database_id(models.take(i as int), id) is None,
            decreases self.databases.len() - i,
        {
            proof {
                assert(models.take(i as int + 1).drop_last() =~= models.take(i as int));
            }
            if self.databases[i].id == id {
                proof {
                    assert(models =~= models.take(i as int + 1) + models.skip(i as int + 1));
                    lemma_find_database_id_append(models.take(i as int + 1), models.skip(i as int + 1), id);
                }
                return Some(i);
            }
            i = i + 1;
        }
        proof {
            assert(models.take(i as int) =~= models);
        }
        None
    }

    /// A copy of the schema of namespace `name`, which is created, empty and
    /// with a fresh id, where the catalog has none.
    pub fn db_or_create(&mut self, name: &String) -> (r: Result<DatabaseSchema, CatalogError>)
        ensures
            find_database(old(self)@.databases, name@) matches Some(i) ==> r matches Ok(s) && s@
                == old(self)@.databases[i] && final(self)@ == old(self)@,
            r is Err <==> find_database(old(self)@.databases, name@) is None
                && old(self)@.next_database_id == u64::MAX,
            r is Err ==> final(self)@ == old(self)@ && r == Err::<DatabaseSchema, CatalogError>(
                CatalogError::Exhausted,
            ),
            find_database(old(self)@.databases, name@) is None && r is Ok ==> {
                &&& r->Ok_0@.id == old(self)@.next_database_id
                &&& r->Ok_0@.name == name@
                &&& r->Ok_0@.tables.len() == 0
                &&& final(self)@.databases == old(self)@.databases.push(r->Ok_0@)
                &&& final(self)@.next_database_id == old(self)@.next_database_id + 1
                &&& final(self)@.ids == old(self)@.ids
                &&& final(self)@.sequence_number == old(self)@.sequence_number
            },
    {
        match self.database_index(name) {
            Some(i) => Ok(self.databases[i].copy()),
            None => {
                if self.next_database_id == u64::MAX {
                    return Err(CatalogError::Exhausted);
                }
                let id = self.next_database_id;
                let db = DatabaseSchema::new(id, name.clone());
                let out = db.copy();
                let ghost before = self@;
                self.databases.push(db);
                self.next_database_id = id + 1;
                proof {
                    assert(self@.databases =~= before.databases.push(db@));
                }
                Ok(out)
            },
        }
    }

    /// Applies every op of `batch` to the namespace it names, all or none,
    /// and raises the id counters to `ids`. A batch without ops changes
    /// nothing and gives `None`.
    pub fn apply_catalog_batch(&mut self, batch: CatalogBatch, ids: IdCounters) -> (r: Result<
        Option<OrderedCatalogBatch>,
        CatalogError,
    >)
        ensures
            r is Err ==> final(self)@ == old(self)@,
            batch.ops.len() == 0 ==> (r matches Ok(None)) && final(self)@ == old(self)@,
            batch.ops.len() > 0 && r is Ok ==> r->Ok_0 is Some,
            batch.ops.len() > 0 ==> (r is Ok <==> (find_database_id(
                old(self)@.databases,
                batch.database_id,
            ) matches Some(i) && apply_ops(old(self)@.databases[i], batch.ops@) is Some
                && old(self)@.sequence_number < u64::MAX)),
            r matches Ok(Some(o)) ==> {
                &&& find_database_id(old(self)@.databases, batch.database_id) matches Some(i)
                    && final(self)@.databases == old(self)@.databases.update(
                    i,
                    apply_ops(old(self)@.databases[i], batch.ops@).unwrap(),
                )
                &&& o.sequence_number == old(self)@.sequence_number + 1
                &&& final(self)@.sequence_number == o.sequence_number
                &&& o.batch == batch
                &&& final(self)@.ids.next_table_id == max_u64(
                    old(self)@.ids.next_table_id,
                    ids.next_table_id,
                )
                &&& final(self)@.ids.next_column_id == max_u64(
                    old(self)@.ids.next_column_id,
                    ids.next_column_id,
                )
                &&& final(self)@.next_database_id == old(self)@.next_database_id
            },
    {
        if batch.ops.len() == 0 {
            return Ok(None);
        }
        let i = match self.database_id_index(batch.database_id) {
            Some(i) => i,
            None => {
                return Err(CatalogError::DatabaseNotFound);
            },
        };
        let mut s = self.databases[i].copy();
        let ghost s0 = s@;
        assert(s0 == self@.databases[i as int]);
        let mut k: usize = 0;
        while k < batch.ops.len()
            invariant
                0 <= k <= batch.ops.len(),
                apply_ops(s0, batch.ops@.take(k as int)) == Some(s@),
                self@ == old(self)@,
                s0 == old(self)@.databases[i as int],
                i < self.databases.len(),
                find_database_id(old(self)@.databases, batch.database_id) == Some(i as int),
            decreases batch.ops.len() - k,
        {
            let ghost before = s@;
            proof {
                assert(batch.ops@.take(k as int + 1).drop_last() =~= batch.ops@.take(k as int));
            }
            if !apply_op_to_schema(&mut s, &batch.ops[k]) {
                proof {
                    assert(batch.ops@.take(k as int + 1).last() == batch.ops@[k as int]);
                    assert(apply_op(before, batch.ops@[k as int]) is None);
                    assert(apply_ops(s0, batch.ops@.take(k as int + 1)) is None);
                    lemma_apply_ops_stuck(s0, batch.ops@, k as int + 1);
                    assert(batch.ops@.take(batch.ops@.len() as int) =~= batch.ops@);
                }
                return Err(CatalogError::Conflict);
            }
            proof {
                assert(batch.ops@.take(k as int + 1).last() == batch.ops@[k as int]);
            }
            k = k + 1;
        }
        proof {
            assert(batch.ops@.take(k as int) =~= batch.ops@);
        }
        if self.sequence_number == u64::MAX {
            return Err(CatalogError::Exhausted);
        }
        let ghost before = self@;
        self.databases.set(i, s);
        if ids.next_table_id > self.ids.next_table_id {
            self.ids.next_table_id = ids.next_table_id;
        }
        if ids.next_column_id > self.ids.next_column_id {
            self.ids.next_column_id = ids.next_column_id;
        }
        self.sequence_number = self.sequence_number + 1;
        proof {
            assert(self@.databases =~= before.databases.update(i as int, s@));
        }
        Ok(Some(OrderedCatalogBatch { sequence_number: self.sequence_number, batch }))
    }
}

/// Once a prefix of the ops conflicts, every longer prefix does.
proof fn lemma_apply_ops_stuck(s: SchemaModel, ops: Seq<CatalogOp>, n: int)
    requires
        0 < n <= ops.len(),
        apply_ops(s, ops.take(n)) is None,
    ensures
        apply_ops(s, ops) is None,
    decreases ops.len() - n,
{
    if n < ops.len() {
        assert(ops.take(n + 1).drop_last() =~= ops.take(n));
        lemma_apply_ops_stuck(s, ops, n + 1);
    } else {
        assert(ops.take(n) =~= ops);
    }
}

} // verus!
