use vstd::prelude::*;

verus! {

/// The type of a field column, fixed by the first value written to it.
#[derive(Debug, Clone, Copy, PartialEq, Eq, Structural)]
pub enum FieldType {
    Integer,
    UInteger,
    Float,
    Str,
    Boolean,
}

/// The semantic type of a column.
#[derive(Debug, Clone, Copy, PartialEq, Eq, Structural)]
pub enum ColumnType {
    Tag,
    Field(FieldType),
    Timestamp,
}

/// A column as the proofs see it.
pub struct ColumnModel {
    pub id: u64,
    pub name: Seq<char>,
    pub data_type: ColumnType,
}

/// A table as the proofs see it.
pub struct TableModel {
    pub table_id: u64,
    pub table_name: Seq<char>,
    pub columns: Seq<ColumnModel>,
    pub series_key: Seq<u64>,
}

/// A namespace schema as the proofs see it.
pub struct SchemaModel {
    pub id: u64,
    pub name: Seq<char>,
    pub tables: Seq<TableModel>,
}

#[derive(Debug)]
pub struct ColumnDefinition {
    pub id: u64,
    pub name: String,
    pub data_type: ColumnType,
}

impl View for ColumnDefinition {
    type V = ColumnModel;

    open spec fn view(&self) -> ColumnModel {
        ColumnModel { id: self.id, name: self.name@, data_type: self.data_type }
    }
}

#[derive(Debug)]
pub struct TableDefinition {
    pub table_id: u64,
    pub table_name: String,
    pub columns: Vec<ColumnDefinition>,
    pub series_key: Vec<u64>,
}

pub open spec fn column_models(cols: Seq<ColumnDefinition>) -> Seq<ColumnModel> {
    cols.map_values(|c: ColumnDefinition| c@)
}

impl View for TableDefinition {
    type V = TableModel;

    open spec fn view(&self) -> TableModel {
        TableModel {
            table_id: self.table_id,
            table_name: self.table_name@,
            columns: column_models(self.columns@),
            series_key: self.series_key@,
        }
    }
}

#[derive(Debug)]
pub struct DatabaseSchema {
    pub id: u64,
    pub name: String,
    pub tables: Vec<TableDefinition>,
}

pub open spec fn table_models(tables: Seq<TableDefinition>) -> Seq<TableModel> {
    tables.map_values(|t: TableDefinition| t@)
}

impl View for DatabaseSchema {
    type V = SchemaModel;

    open spec fn view(&self) -> SchemaModel {
        SchemaModel { id: self.id, name: self.name@, tables: table_models(self.tables@) }
    }
}

/// Index of the first column called `name`.
pub open spec fn find_column(cols: Seq<ColumnModel>, name: Seq<char>) -> Option<int>
    decreases cols.len(),
{
    if cols.len() == 0 {
        None
    } else {
        match find_column(cols.drop_last(), name) {
            Some(i) => Some(i),
            None => if cols.last().name == name {
                Some(cols.len() - 1)
            } else {
                None
            },
        }
    }
}

/// Index of the first table called `name`.
pub open spec fn find_table(tables: Seq<TableModel>, name: Seq<char>) -> Option<int>
    decreases tables.len(),
{
    if tables.len() == 0 {
        None
    } else {
        match find_table(tables.drop_last(), name) {
            Some(i) => Some(i),
            None => if tables.last().table_name == name {
                Some(tables.len() - 1)
            } else {
                None
            },
        }
    }
}

/// Index of the first table whose id is `id`.
pub open spec fn find_table_id(tables: Seq<TableModel>, id: u64) -> Option<int>
    decreases tables.len(),
{
    if tables.len() == 0 {
        None
    } else {
        match find_table_id(tables.drop_last(), id) {
            Some(i) => Some(i),
            None => if tables.last().table_id == id {
                Some(tables.len() - 1)
            } else {
                None
            },
        }
    }
}

pub proof fn lemma_find_column_bounds(cols: Seq<ColumnModel>, name: Seq<char>)
    ensures
        find_column(cols, name) matches Some(i) ==> 0 <= i < cols.len() && cols[i].name == name,
        find_column(cols, name) is None ==> forall|j: int|
            0 <= j < cols.len() ==> cols[j].name != name,
    decreases cols.len(),
{
    if cols.len() > 0 {
        lemma_find_column_bounds(cols.drop_last(), name);
        assert forall|j: int| 0 <= j < cols.len() - 1 implies cols.drop_last()[j] == cols[j] by {}
    }
}

pub proof fn lemma_find_column_push(cols: Seq<ColumnModel>, c: ColumnModel, name: Seq<char>)
    ensures
        find_column(cols.push(c), name) == (match find_column(cols, name) {
            Some(i) => Some(i),
            None => if c.name == name {
                Some(cols.len() as int)
            } else {
                None
            },
        }),
{
    assert(cols.push(c).drop_last() =~= cols);
}

pub proof fn lemma_find_column_append(a: Seq<ColumnModel>, b: Seq<ColumnModel>, name: Seq<char>)
    ensures
        find_column(a + b, name) == (match find_column(a, name) {
            Some(i) => Some(i),
            None => match find_column(b, name) {
                Some(j) => Some(a.len() + j),
                None => None,
            },
        }),
    decreases b.len(),
{
    if b.len() == 0 {
        assert(a + b =~= a);
    } else {
        lemma_find_column_append(a, b.drop_last(), name);
        assert((a + b).drop_last() =~= a + b.drop_last());
    }
}

pub proof fn lemma_find_table_append(a: Seq<TableModel>, b: Seq<TableModel>, name: Seq<char>)
    ensures
        find_table(a, name) matches Some(i) ==> find_table(a + b, name) == Some(i),
    decreases b.len(),
{
    if b.len() == 0 {
        assert(a + b =~= a);
    } else {
        lemma_find_table_append(a, b.drop_last(), name);
        assert((a + b).drop_last() =~= a + b.drop_last());
    }
}

pub proof fn lemma_find_table_id_append(a: Seq<TableModel>, b: Seq<TableModel>, id: u64)
    ensures
        find_table_id(a, id) matches Some(i) ==> find_table_id(a + b, id) == Some(i),
    decreases b.len(),
{
    if b.len() == 0 {
        assert(a + b =~= a);
    } else {
        lemma_find_table_id_append(a, b.drop_last(), id);
        assert((a + b).drop_last() =~= a + b.drop_last());
    }
}

pub proof fn lemma_find_table_update(tables: Seq<TableModel>, i: int, t: TableModel, name: Seq<char>)
    requires
        0 <= i < tables.len(),
        t.table_name == tables[i].table_name,
    ensures
        find_table(tables.update(i, t), name) == find_table(tables, name),
    decreases tables.len(),
{
    if i == tables.len() - 1 {
        assert(tables.update(i, t).drop_last() =~= tables.drop_last());
    } else {
        lemma_find_table_update(tables.drop_last(), i, t, name);
        assert(tables.update(i, t).drop_last() =~= tables.drop_last().update(i, t));
    }
}

pub proof fn lemma_find_table_bounds(tables: Seq<TableModel>, name: Seq<char>)
    ensures
        find_table(tables, name) matches Some(i) ==> 0 <= i < tables.len()
            && tables[i].table_name == name,
        find_table(tables, name) is None ==> forall|j: int|
            0 <= j < tables.len() ==> tables[j].table_name != name,
    decreases tables.len(),
{
    if tables.len() > 0 {
        lemma_find_table_bounds(tables.drop_last(), name);
        assert forall|j: int| 0 <= j < tables.len() - 1 implies tables.drop_last()[j]
            == tables[j] by {}
    }
}

pub proof fn lemma_find_table_id_bounds(tables: Seq<TableModel>, id: u64)
    ensures
        find_table_id(tables, id) matches Some(i) ==> 0 <= i < tables.len()
            && tables[i].table_id == id,
        find_table_id(tables, id) is None ==> forall|j: int|
            0 <= j < tables.len() ==> tables[j].table_id != id,
    decreases tables.len(),
{
    if tables.len() > 0 {
        lemma_find_table_id_bounds(tables.drop_last(), id);
        assert forall|j: int| 0 <= j < tables.len() - 1 implies tables.drop_last()[j]
            == tables[j] by {}
    }
}

/// Looks a column up by name.
pub fn column_index(cols: &Vec<ColumnDefinition>, name: &String) -> (r: Option<usize>)
    ensures
        r matches Some(i) ==> i < cols.len() && find_column(column_models(cols@), name@) == Some(
            i as int,
        ),
        r is None ==> find_column(column_models(cols@), name@) is None,
{
    let ghost models = column_models(cols@);
    let mut i: usize = 0;
    while i < cols.len()
        invariant
            0 <= i <= cols.len(),
            models == column_models(cols@),
            find_column(models.take(i as int), name@) is None,
        decreases cols.len() - i,
    {
        proof {
            assert(models.take(i as int + 1) =~= models.take(i as int).push(models[i as int]));
            lemma_find_column_push(models.take(i as int), models[i as int], name@);
        }
        if cols[i].name == *name {
            proof {
                assert(models =~= models.take(i as int + 1) + models.skip(i as int + 1));
                lemma_find_column_append(models.take(i as int + 1), models.skip(i as int + 1), name@);
            }
            return Some(i);
        }
        i = i + 1;
    }
    proof {
        assert(models.take(i as int) =~= models);
    }
    None
}

/// Looks a table up by name.
pub fn table_index(tables: &Vec<TableDefinition>, name: &String) -> (r: Option<usize>)
    ensures
        r matches Some(i) ==> i < tables.len() && find_table(table_models(tables@), name@)
            == Some(i as int),
        r is None ==> find_table(table_models(tables@), name@) is None,
{
    let ghost models = table_models(tables@);
    let mut i: usize = 0;
    while i < tables.len()
        invariant
            0 <= i <= tables.len(),
            models == table_models(tables@),
            find_table(models.take(i as int), name@) is None,
        decreases tables.len() - i,
    {
        proof {
            assert(models.take(i as int + 1) =~= models.take(i as int).push(models[i as int]));
            assert(models.take(i as int + 1).drop_last() =~= models.take(i as int));
        }
        if tables[i].table_name == *name {
            proof {
                assert(models =~= models.take(i as int + 1) + models.skip(i as int + 1));
                lemma_find_table_append(models.take(i as int + 1), models.skip(i as int + 1), name@);
            }
            return Some(i);
        }
        i = i + 1;
    }
    proof {
        assert(models.take(i as int) =~= models);
    }
    None
}

/// Looks a table up by id.
pub fn table_id_index(tables: &Vec<TableDefinition>, id: u64) -> (r: Option<usize>)
    ensures
        r matches Some(i) ==> i < tables.len() && find_table_id(table_models(tables@), id)
            == Some(i as int),
        r is None ==> find_table_id(table_models(tables@), id) is None,
{
    let ghost models = table_models(tables@);
    let mut i: usize = 0;
    while i < tables.len()
        invariant
            0 <= i <= tables.len(),
            models == table_models(tables@),
            find_table_id(models.take(i as int), id) is None,
        decreases tables.len() - i,
    {
        proof {
            assert(models.take(i as int + 1) =~= models.take(i as int).push(models[i as int]));
            assert(models.take(i as int + 1).drop_last() =~= models.take(i as int));
        }
        if tables[i].table_id == id {
            proof {
                assert(models =~= models.take(i as int + 1) + models.skip(i as int + 1));
                lemma_find_table_id_append(models.take(i as int + 1), models.skip(i as int + 1), id);
            }
            return Some(i);
        }
        i = i + 1;
    }
    proof {
        assert(models.take(i as int) =~= models);
    }
    None
}

impl ColumnDefinition {
    pub fn copy(&self) -> (r: ColumnDefinition)
        ensures
            r@ == self@,
    {
        ColumnDefinition { id: self.id, name: self.name.clone(), data_type: self.data_type }
    }
}

pub fn copy_columns(cols: &Vec<ColumnDefinition>) -> (r: Vec<ColumnDefinition>)
    ensures
        column_models(r@) == column_models(cols@),
{
    let mut r: Vec<ColumnDefinition> = Vec::new();
    let mut i: usize = 0;
    while i < cols.len()
        invariant
            0 <= i <= cols.len(),
            column_models(r@) =~= column_models(cols@).take(i as int),
        decreases cols.len() - i,
    {
        let c = cols[i].copy();
        r.push(c);
        assert(column_models(cols@).take(i as int + 1) =~= column_models(cols@).take(i as int).push(
            cols@[i as int]@,
        ));
        i = i + 1;
    }
    assert(column_models(cols@).take(i as int) =~= column_models(cols@));
    r
}

pub fn copy_ids(ids: &Vec<u64>) -> (r: Vec<u64>)
    ensures
        r@ == ids@,
{
    let mut r: Vec<u64> = Vec::new();
    let mut i: usize = 0;
    while i < ids.len()
        invariant
            0 <= i <= ids.len(),
            r@ =~= ids@.take(i as int),
        decreases ids.len() - i,
    {
        r.push(ids[i]);
        i = i + 1;
    }
    assert(ids@.take(i as int) =~= ids@);
    r
}

impl TableDefinition {
    pub fn copy(&self) -> (r: TableDefinition)
        ensures
            r@ == self@,
    {
        TableDefinition {
            table_id: self.table_id,
            table_name: self.table_name.clone(),
            columns: copy_columns(&self.columns),
            series_key: copy_ids(&self.series_key),
        }
    }
}

impl DatabaseSchema {
    /// An empty schema for a new namespace.
    pub fn new(id: u64, name: String) -> (r: DatabaseSchema)
        ensures
            r@.id == id,
            r@.name == name@,
            r@.tables.len() == 0,
    {
        let r = DatabaseSchema { id, name, tables: Vec::new() };
        assert(r@.tables =~= Seq::<TableModel>::empty());
        r
    }

    pub fn copy(&self) -> (r: DatabaseSchema)
        ensures
            r@ == self@,
    {
        let mut tables: Vec<TableDefinition> = Vec::new();
        let mut i: usize = 0;
        while i < self.tables.len()
            invariant
                0 <= i <= self.tables.len(),
                table_models(tables@) =~= table_models(self.tables@).take(i as int),
            decreases self.tables.len() - i,
        {
            let t = self.tables[i].copy();
            tables.push(t);
            assert(table_models(self.tables@).take(i as int + 1) =~= table_models(
                self.tables@,
            ).take(i as int).push(self.tables@[i as int]@));
            i = i + 1;
        }
        assert(table_models(self.tables@).take(i as int) =~= table_models(self.tables@));
        DatabaseSchema { id: self.id, name: self.name.clone(), tables }
    }

    /// The definition of the table called `name`, if the schema has one.
    pub fn table_definition(&self, name: &String) -> (r: Option<&TableDefinition>)
        ensures
            r matches Some(t) ==> find_table(self@.tables, name@) matches Some(i)
                && self@.tables[i] == t@,
            r is None ==> find_table(self@.tables, name@) is None,
    {
        match table_index(&self.tables, name) {
            Some(i) => Some(&self.tables[i]),
            None => None,
        }
    }
}

} // verus!
