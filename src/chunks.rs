use crate::line::Row;
use indexmap::IndexMap;
use vstd::arithmetic::div_mod::{
    lemma_fundamental_div_mod, lemma_fundamental_div_mod_converse, lemma_mod_multiples_basic,
};
use vstd::prelude::*;

verus! {

/// Start of the window of width `window` that holds time `t`.
pub open spec fn chunk_start(t: int, window: int) -> int {
    (t / window) * window
}

/// The rows of one time window of a table, in arrival order.
#[derive(Debug)]
pub struct ChunkRows {
    pub chunk_time: i64,
    pub rows: Vec<Row>,
}

/// The rows of one table, grouped by window in order of first arrival.
#[derive(Debug)]
pub struct TableChunks {
    pub table_id: u64,
    pub chunks: Vec<ChunkRows>,
}

/// The start of the window of width `window` that holds `t` is a multiple
/// of `window` at most `window - 1` before `t`.
pub proof fn lemma_chunk_start_bounds(t: int, window: int)
    requires
        window > 0,
    ensures
        chunk_start(t, window) <= t < chunk_start(t, window) + window,
        chunk_start(t, window) % window == 0,
{
    lemma_fundamental_div_mod(t, window);
    assert((t / window) * window == window * (t / window)) by (nonlinear_arith);
    lemma_mod_multiples_basic(t / window, window);
}

proof fn lemma_chunk_start_unique(t: int, window: int, k: int)
    requires
        window > 0,
        k * window <= t < k * window + window,
    ensures
        chunk_start(t, window) == k * window,
{
    lemma_fundamental_div_mod_converse(t, window, k, t - k * window);
}

/// The start of the window of width `window` that holds `t`, which may lie
/// below `i64::MIN`.
pub fn wide_chunk_start(t: i64, window: i64) -> (r: i128)
    requires
        window > 0,
    ensures
        r == chunk_start(t as int, window as int),
{
    let w = window as u64;
    if t >= 0 {
        let u = t as u64;
        let q = u / w;
        proof {
            lemma_fundamental_div_mod(u as int, w as int);
            assert(q * w <= u) by (nonlinear_arith)
                requires
                    u as int == w * q + u % w,
                    0 <= u % w,
            ;
            assert(u < q * w + w) by (nonlinear_arith)
                requires
                    u as int == w * q + u % w,
                    u % w < w,
            ;
            lemma_chunk_start_unique(t as int, window as int, q as int);
        }
        (q * w) as i128
    } else {
        let m: u128 = (-(t as i128)) as u128;
        let w2 = w as u128;
        let q: u128 = (m + w2 - 1) / w2;
        proof {
            lemma_fundamental_div_mod((m + w2 - 1) as int, w2 as int);
            let rem = ((m + w2 - 1) as int) % (w2 as int);
            assert(m <= q * w2 && q * w2 < m + w2) by (nonlinear_arith)
                requires
                    (m + w2 - 1) as int == w2 * q + rem,
                    0 <= rem < w2,
            ;
            assert((-(q as int)) * (w as int) == -(q * w2)) by (nonlinear_arith)
                requires
                    w2 as int == w as int,
            ;
            lemma_chunk_start_unique(t as int, window as int, -(q as int));
        }
        -((q * w2) as i128)
    }
}

/// The start of the window of width `window` that holds `t`.
pub fn chunk_time_for(t: i64, window: i64) -> (r: i64)
    requires
        window > 0,
        chunk_start(t as int, window as int) >= i64::MIN,
    ensures
        r == chunk_start(t as int, window as int),
{
    proof {
        lemma_chunk_start_bounds(t as int, window as int);
    }
    wide_chunk_start(t, window) as i64
}

/// `new` is `old` with `row` appended to the window starting at
/// `chunk_time`, that window added last where `old` has none.
pub open spec fn row_pushed(old: Seq<ChunkRows>, new: Seq<ChunkRows>, chunk_time: i64, row: Row) -> bool {
    if exists|j: int| 0 <= j < old.len() && (#[trigger] old[j]).chunk_time == chunk_time {
        exists|j: int|
            0 <= j < old.len() && (#[trigger] old[j]).chunk_time == chunk_time && new.len() == old.len()
                && new[j].chunk_time == chunk_time && new[j].rows@ == old[j].rows@.push(row)
                && forall|q: int| 0 <= q < old.len() && q != j ==> #[trigger] new[q] == old[q]
    } else {
        &&& new.len() == old.len() + 1
        &&& forall|q: int| 0 <= q < old.len() ==> #[trigger] new[q] == old[q]
        &&& new.last().chunk_time == chunk_time
        &&& new.last().rows@ == seq![row]
    }
}

/// Appends `row` to the window starting at `chunk_time`, which is added
/// after the others where the table has no such window yet.
fn push_row(chunks: &mut Vec<ChunkRows>, chunk_time: i64, row: Row)
    ensures
        row_pushed(old(chunks)@, final(chunks)@, chunk_time, row),
{
    let mut j: usize = 0;
    while j < chunks.len()
        invariant
            0 <= j <= chunks.len(),
            chunks@ == old(chunks)@,
            forall|q: int| 0 <= q < j ==> (#[trigger] chunks@[q]).chunk_time != chunk_time,
        decreases chunks.len() - j,
    {
        if chunks[j].chunk_time == chunk_time {
            let ghost before = chunks@[j as int];
            chunks[j].rows.push(row);
            proof {
                assert(chunks@[j as int].rows@ == before.rows@.push(row));
                assert(old(chunks)@[j as int].chunk_time == chunk_time);
            }
            return ;
        }
        j = j + 1;
    }
    let mut rows: Vec<Row> = Vec::new();
    rows.push(row);
    proof {
        assert(rows@ =~= seq![row]);
    }
    chunks.push(ChunkRows { chunk_time, rows });
}

/// Every row of the window lies in it.
pub open spec fn chunk_holds(c: ChunkRows, window: int) -> bool {
    forall|k: int| 0 <= k < c.rows@.len() ==> chunk_start((#[trigger] c.rows@[k]).time as int, window) == c.chunk_time
}

/// Every row of every window of the table lies in its window, and no two
/// windows share a start.
pub open spec fn table_holds(t: TableChunks, window: int) -> bool {
    &&& forall|j: int| 0 <= j < t.chunks@.len() ==> chunk_holds(#[trigger] t.chunks@[j], window)
    &&& forall|a: int, b: int|
        0 <= a < b < t.chunks@.len() ==> t.chunks@[a].chunk_time != t.chunks@[b].chunk_time
}

/// Every table of the batch holds its rows in their windows under its own
/// id, and no two entries share a table id.
pub open spec fn tables_hold(ts: Seq<(u64, TableChunks)>, window: int) -> bool {
    &&& forall|i: int|
        0 <= i < ts.len() ==> table_holds((#[trigger] ts[i]).1, window) && ts[i].1.table_id == ts[i].0
    &&& forall|a: int, b: int| 0 <= a < b < ts.len() ==> ts[a].0 != ts[b].0
}

/// Index of the first entry with key `k`.
pub open spec fn find_key(ts: Seq<(u64, TableChunks)>, k: u64) -> Option<int>
    decreases ts.len(),
{
    if ts.len() == 0 {
        None
    } else {
        match find_key(ts.drop_last(), k) {
            Some(i) => Some(i),
            None => if ts.last().0 == k {
                Some(ts.len() - 1)
            } else {
                None
            },
        }
    }
}

pub proof fn lemma_find_key_bounds(ts: Seq<(u64, TableChunks)>, k: u64)
    ensures
        find_key(ts, k) matches Some(i) ==> 0 <= i < ts.len() && ts[i].0 == k,
        find_key(ts, k) is None ==> forall|j: int| 0 <= j < ts.len() ==> ts[j].0 != k,
    decreases ts.len(),
{
    if ts.len() > 0 {
        lemma_find_key_bounds(ts.drop_last(), k);
        assert forall|j: int| 0 <= j < ts.len() - 1 implies ts.drop_last()[j] == ts[j] by {}
    }
}

#[verifier::external_type_specification]
#[verifier::external_body]
#[verifier::reject_recursive_types(K)]
#[verifier::reject_recursive_types(V)]
#[verifier::reject_recursive_types(S)]
pub struct ExIndexMap<K, V, S>(IndexMap<K, V, S>);

/// The entries of a table map, in insertion order.
pub uninterp spec fn table_entries(m: IndexMap<u64, TableChunks>) -> Seq<(u64, TableChunks)>;

/// Relies on indexmap::IndexMap::new: a new map holds no entries.
#[verifier::external_body]
fn new_table_map() -> (r: IndexMap<u64, TableChunks>)
    ensures
        table_entries(r) == Seq::<(u64, TableChunks)>::empty(),
{
    IndexMap::new()
}

/// Relies on indexmap::IndexMap::insert: an existing key keeps its place
/// and gets the new value, the old one being returned; a new key goes last.
#[verifier::external_body]
fn insert_table(m: &mut IndexMap<u64, TableChunks>, key: u64, value: TableChunks) -> (r: Option<
    TableChunks,
>)
    ensures
        match find_key(table_entries(*old(m)), key) {
            Some(i) => table_entries(*final(m)) == table_entries(*old(m)).update(i, (key, value))
                && r == Some(table_entries(*old(m))[i].1),
            None => table_entries(*final(m)) == table_entries(*old(m)).push((key, value)) && r is None,
        },
{
    m.insert(key, value)
}

/// Relies on indexmap::IndexMap::get: the value stored under `key`.
#[verifier::external_body]
fn get_table(m: &IndexMap<u64, TableChunks>, key: u64) -> (r: Option<&TableChunks>)
    ensures
        match find_key(table_entries(*m), key) {
            Some(i) => r == Some(&table_entries(*m)[i].1),
            None => r is None,
        },
{
    m.get(&key)
}

/// Every row that a batch holds lies in the window it is filed under: the
/// window starts at a multiple of its width, at or before the row's time and
/// less than one width before it.
pub proof fn lemma_rows_lie_in_their_window(
    ts: Seq<(u64, TableChunks)>,
    window: int,
    i: int,
    j: int,
    k: int,
)
    requires
        window > 0,
        tables_hold(ts, window),
        0 <= i < ts.len(),
        0 <= j < ts[i].1.chunks@.len(),
        0 <= k < ts[i].1.chunks@[j].rows@.len(),
    ensures
        ts[i].1.chunks@[j].chunk_time <= ts[i].1.chunks@[j].rows@[k].time
            < ts[i].1.chunks@[j].chunk_time + window,
        (ts[i].1.chunks@[j].chunk_time as int) % window == 0,
{
    assert(table_holds(ts[i].1, window));
    assert(chunk_holds(ts[i].1.chunks@[j], window));
    lemma_chunk_start_bounds(ts[i].1.chunks@[j].rows@[k].time as int, window);
}

/// The rows that a write places in the buffer, per table and window.
#[derive(Debug)]
pub struct WriteBatch {
    pub database_id: u64,
    pub database_name: String,
    pub table_chunks: IndexMap<u64, TableChunks>,
}

impl TableChunks {
    /// Number of rows over all windows; saturates at `usize::MAX`.
    pub fn row_count(&self) -> (r: usize)
        ensures
            r == clamp_usize(total_rows(self.chunks@)),
    {
        let mut total: usize = 0;
        let mut j: usize = 0;
        while j < self.chunks.len()
            invariant
                0 <= j <= self.chunks.len(),
                total == clamp_usize(total_rows(self.chunks@.take(j as int))),
            decreases self.chunks.len() - j,
        {
            proof {
                assert(self.chunks@.take(j as int + 1).drop_last() =~= self.chunks@.take(j as int));
            }
            let n = self.chunks[j].rows.len();
            if total <= usize::MAX - n {
                total = total + n;
            } else {
                total = usize::MAX;
            }
            j = j + 1;
        }
        proof {
            assert(self.chunks@.take(j as int) =~= self.chunks@);
        }
        total
    }
}

/// Number of rows over the windows.
pub open spec fn total_rows(cs: Seq<ChunkRows>) -> int
    decreases cs.len(),
{
    if cs.len() == 0 {
        0
    } else {
        total_rows(cs.drop_last()) + cs.last().rows@.len()
    }
}

pub open spec fn clamp_usize(x: int) -> int {
    if x <= usize::MAX {
        x
    } else {
        usize::MAX as int
    }
}

impl WriteBatch {
    /// The rows of table `table_id`, if the batch has any.
    pub fn table(&self, table_id: u64) -> (r: Option<&TableChunks>)
        ensures
            match find_key(table_entries(self.table_chunks), table_id) {
                Some(i) => r == Some(&table_entries(self.table_chunks)[i].1),
                None => r is None,
            },
    {
        get_table(&self.table_chunks, table_id)
    }
}

/// A batch's table map with no entries.
pub fn empty_tables() -> (r: IndexMap<u64, TableChunks>)
    ensures
        table_entries(r) == Seq::<(u64, TableChunks)>::empty(),
{
    new_table_map()
}

/// `new` is `old` with `row` appended last to window `chunk_time` of table
/// `table_id`; the table goes after the others where `old` has none, and
/// every other table, window and row stays where it was.
pub open spec fn table_row_pushed(
    old: Seq<(u64, TableChunks)>,
    new: Seq<(u64, TableChunks)>,
    table_id: u64,
    chunk_time: i64,
    row: Row,
) -> bool {
    match find_key(old, table_id) {
        Some(i) => {
            &&& new.len() == old.len()
            &&& forall|q: int| 0 <= q < old.len() && q != i ==> #[trigger] new[q] == old[q]
            &&& new[i].0 == table_id
            &&& row_pushed(old[i].1.chunks@, new[i].1.chunks@, chunk_time, row)
        },
        None => {
            &&& new.len() == old.len() + 1
            &&& forall|q: int| 0 <= q < old.len() ==> #[trigger] new[q] == old[q]
            &&& new.last().0 == table_id
            &&& row_pushed(Seq::empty(), new.last().1.chunks@, chunk_time, row)
        },
    }
}

/// Places `row` of table `table_id` in the window that holds its time,
/// adding the table and the window after the others where they are new.
pub fn bucket_row(tables: &mut IndexMap<u64, TableChunks>, table_id: u64, row: Row, window: i64)
    requires
        window > 0,
        chunk_start(row.time as int, window as int) >= i64::MIN,
        tables_hold(table_entries(*old(tables)), window as int),
    ensures
        tables_hold(table_entries(*final(tables)), window as int),
        table_row_pushed(
            table_entries(*old(tables)),
            table_entries(*final(tables)),
            table_id,
            chunk_start(row.time as int, window as int) as i64,
            row,
        ),
{
    let chunk_time = chunk_time_for(row.time, window);
    let ghost the_row = row;
    let ghost w = window as int;
    let ghost e0 = table_entries(*tables);
    proof {
        lemma_find_key_bounds(e0, table_id);
    }
    let placeholder = TableChunks { table_id, chunks: Vec::new() };
    match insert_table(tables, table_id, placeholder) {
        Some(mut t) => {
            let ghost i = find_key(e0, table_id).unwrap();
            let ghost before = t;
            let ghost e1 = table_entries(*tables);
            assert(table_holds(e0[i].1, w));
            push_row(&mut t.chunks, chunk_time, row);
            proof {
                let after = t;
                let bc = before.chunks@;
                let ac = after.chunks@;
                assert(chunk_start(the_row.time as int, w) == chunk_time);
                if exists|j: int| 0 <= j < bc.len() && (#[trigger] bc[j]).chunk_time == chunk_time {
                    let jj = choose|jj: int|
                        0 <= jj < bc.len() && (#[trigger] bc[jj]).chunk_time == chunk_time && ac.len()
                            == bc.len() && ac[jj].chunk_time == chunk_time && ac[jj].rows@
                            == bc[jj].rows@.push(the_row) && forall|q: int|
                            0 <= q < bc.len() && q != jj ==> #[trigger] ac[q] == bc[q];
                    assert forall|j: int| 0 <= j < ac.len() implies chunk_holds(#[trigger] ac[j], w) by {
                        assert(chunk_holds(bc[j], w));
                        if j == jj {
                            assert forall|k: int| 0 <= k < ac[j].rows@.len() implies chunk_start(
                                (#[trigger] ac[j].rows@[k]).time as int,
                                w,
                            ) == ac[j].chunk_time by {
                                if k < bc[j].rows@.len() {
                                    assert(ac[j].rows@[k] == bc[j].rows@[k]);
                                }
                            }
                        } else {
                            assert(ac[j] == bc[j]);
                        }
                    }
                    assert forall|a: int, b: int|
                        0 <= a < b < ac.len() implies ac[a].chunk_time != ac[b].chunk_time by {
                        if a != jj {
                            assert(ac[a] == bc[a]);
                        }
                        if b != jj {
                            assert(ac[b] == bc[b]);
                        }
                    }
                } else {
                    assert forall|j: int| 0 <= j < ac.len() implies chunk_holds(#[trigger] ac[j], w) by {
                        if j < bc.len() {
                            assert(ac[j] == bc[j]);
                            assert(chunk_holds(bc[j], w));
                        } else {
                            assert(ac[j].rows@ == seq![the_row]);
                            assert(ac[j].rows@[0] == the_row);
                        }
                    }
                    assert forall|a: int, b: int|
                        0 <= a < b < ac.len() implies ac[a].chunk_time != ac[b].chunk_time by {
                        assert(ac[a] == bc[a]);
                        if b < bc.len() {
                            assert(ac[b] == bc[b]);
                        }
                    }
                }
                assert(table_holds(after, w));
                lemma_find_key_bounds(e1, table_id);
                assert(e1 == e0.update(i, (table_id, placeholder)));
                assert(e1[i].0 == table_id);
                if let Some(i2) = find_key(e1, table_id) {
                    if i2 != i {
                        assert(e1[i2] == e0[i2]);
                        if i2 < i {
                            assert(e0[i2].0 != e0[i].0);
                        } else {
                            assert(e0[i].0 != e0[i2].0);
                        }
                    }
                }
                assert(find_key(e1, table_id) == Some(i));
            }
            insert_table(tables, table_id, t);
            proof {
                let e2 = table_entries(*tables);
                assert(e2 =~= e0.update(i, (table_id, t)));
                assert forall|q: int| 0 <= q < e2.len() implies table_holds((#[trigger] e2[q]).1, w)
                    && e2[q].1.table_id == e2[q].0 by {
                    if q != i {
                        assert(e2[q] == e0[q]);
                    }
                }
            }
        },
        None => {
            let mut rows: Vec<Row> = Vec::new();
            rows.push(row);
            let mut chunks: Vec<ChunkRows> = Vec::new();
            chunks.push(ChunkRows { chunk_time, rows });
            let t = TableChunks { table_id, chunks };
            proof {
                assert(t.chunks@[0].rows@[0] == the_row);
                assert(chunk_holds(t.chunks@[0], w));
                assert(table_holds(t, w));
                assert(table_entries(*tables) == e0.push((table_id, placeholder)));
                lemma_find_key_bounds(table_entries(*tables), table_id);
            }
            insert_table(tables, table_id, t);
            proof {
                let e2 = table_entries(*tables);
                assert(e2 =~= e0.push((table_id, t)));
                assert(t.chunks@[0].rows@ =~= seq![the_row]);
                assert(row_pushed(Seq::empty(), t.chunks@, chunk_time, the_row));
                assert forall|q: int| 0 <= q < e2.len() implies table_holds((#[trigger] e2[q]).1, w)
                    && e2[q].1.table_id == e2[q].0 by {
                    if q < e0.len() {
                        assert(e2[q] == e0[q]);
                    }
                }
            }
        },
    }
}

/// Index of the first window starting at `chunk_time`.
pub open spec fn find_chunk(cs: Seq<ChunkRows>, chunk_time: i64) -> Option<int>
    decreases cs.len(),
{
    if cs.len() == 0 {
        None
    } else {
        match find_chunk(cs.drop_last(), chunk_time) {
            Some(i) => Some(i),
            None => if cs.last().chunk_time == chunk_time {
                Some(cs.len() - 1)
            } else {
                None
            },
        }
    }
}

/// The rows filed under table `table_id` and the window starting at
/// `chunk_time`.
pub open spec fn rows_in(ts: Seq<(u64, TableChunks)>, table_id: u64, chunk_time: i64) -> Seq<Row> {
    match find_key(ts, table_id) {
        Some(i) => match find_chunk(ts[i].1.chunks@, chunk_time) {
            Some(j) => ts[i].1.chunks@[j].rows@,
            None => Seq::empty(),
        },
        None => Seq::empty(),
    }
}

proof fn lemma_find_chunk_bounds(cs: Seq<ChunkRows>, chunk_time: i64)
    ensures
        find_chunk(cs, chunk_time) matches Some(i) ==> 0 <= i < cs.len() && cs[i].chunk_time
            == chunk_time,
        find_chunk(cs, chunk_time) is None ==> forall|j: int|
            0 <= j < cs.len() ==> cs[j].chunk_time != chunk_time,
    decreases cs.len(),
{
    if cs.len() > 0 {
        lemma_find_chunk_bounds(cs.drop_last(), chunk_time);
        assert forall|j: int| 0 <= j < cs.len() - 1 implies cs.drop_last()[j] == cs[j] by {}
    }
}

proof fn lemma_find_chunk_same_times(a: Seq<ChunkRows>, b: Seq<ChunkRows>, chunk_time: i64)
    requires
        a.len() == b.len(),
        forall|q: int| 0 <= q < a.len() ==> a[q].chunk_time == b[q].chunk_time,
    ensures
        find_chunk(a, chunk_time) == find_chunk(b, chunk_time),
    decreases a.len(),
{
    if a.len() > 0 {
        lemma_find_chunk_same_times(a.drop_last(), b.drop_last(), chunk_time);
    }
}

proof fn lemma_find_key_same_keys(a: Seq<(u64, TableChunks)>, b: Seq<(u64, TableChunks)>, k: u64)
    requires
        a.len() == b.len(),
        forall|q: int| 0 <= q < a.len() ==> a[q].0 == b[q].0,
    ensures
        find_key(a, k) == find_key(b, k),
    decreases a.len(),
{
    if a.len() > 0 {
        lemma_find_key_same_keys(a.drop_last(), b.drop_last(), k);
    }
}

/// Where keys and window starts are distinct, a lookup finds the one entry
/// that carries the key.
proof fn lemma_unique_lookups(ts: Seq<(u64, TableChunks)>, window: int)
    requires
        tables_hold(ts, window),
    ensures
        forall|i: int| 0 <= i < ts.len() ==> find_key(ts, #[trigger] ts[i].0) == Some(i),
        forall|i: int, j: int|
            0 <= i < ts.len() && 0 <= j < ts[i].1.chunks@.len() ==> find_chunk(
                ts[i].1.chunks@,
                #[trigger] ts[i].1.chunks@[j].chunk_time,
            ) == Some(j),
{
    assert forall|i: int| 0 <= i < ts.len() implies find_key(ts, #[trigger] ts[i].0) == Some(i) by {
        lemma_find_key_bounds(ts, ts[i].0);
        if let Some(i2) = find_key(ts, ts[i].0) {
            if i2 < i {
                assert(ts[i2].0 != ts[i].0);
            } else if i2 > i {
                assert(ts[i].0 != ts[i2].0);
            }
        }
    }
    assert forall|i: int, j: int|
        0 <= i < ts.len() && 0 <= j < ts[i].1.chunks@.len() implies find_chunk(
        ts[i].1.chunks@,
        #[trigger] ts[i].1.chunks@[j].chunk_time,
    ) == Some(j) by {
        let cs = ts[i].1.chunks@;
        assert(table_holds(ts[i].1, window));
        lemma_find_chunk_bounds(cs, cs[j].chunk_time);
        if let Some(j2) = find_chunk(cs, cs[j].chunk_time) {
            if j2 < j {
                assert(cs[j2].chunk_time != cs[j].chunk_time);
            } else if j2 > j {
                assert(cs[j].chunk_time != cs[j2].chunk_time);
            }
        }
    }
}

/// Filing a row appends it to the rows of its table and window and leaves
/// every other table and window as it was.
pub proof fn lemma_rows_in_after_push(
    old: Seq<(u64, TableChunks)>,
    new: Seq<(u64, TableChunks)>,
    window: int,
    table_id: u64,
    chunk_time: i64,
    row: Row,
    t: u64,
    c: i64,
)
    requires
        tables_hold(old, window),
        tables_hold(new, window),
        table_row_pushed(old, new, table_id, chunk_time, row),
    ensures
        rows_in(new, t, c) == rows_in(old, t, c) + if t == table_id && c == chunk_time {
            seq![row]
        } else {
            Seq::<Row>::empty()
        },
{
    lemma_find_key_bounds(old, table_id);
    lemma_find_key_bounds(old, t);
    lemma_find_key_bounds(new, t);
    lemma_unique_lookups(old, window);
    lemma_unique_lookups(new, window);
    match find_key(old, table_id) {
        Some(i0) => {
            lemma_find_key_same_keys(old, new, t);
            if let Some(i) = find_key(old, t) {
                let oc = old[i].1.chunks@;
                let nc = new[i].1.chunks@;
                lemma_find_chunk_bounds(oc, c);
                lemma_find_chunk_bounds(nc, c);
                if i != i0 {
                    assert(new[i] == old[i]);
                } else {
                    if exists|j: int| 0 <= j < oc.len() && (#[trigger] oc[j]).chunk_time == chunk_time {
                        let jj = choose|jj: int|
                            0 <= jj < oc.len() && (#[trigger] oc[jj]).chunk_time == chunk_time
                                && nc.len() == oc.len() && nc[jj].chunk_time == chunk_time
                                && nc[jj].rows@ == oc[jj].rows@.push(row) && forall|q: int|
                                0 <= q < oc.len() && q != jj ==> #[trigger] nc[q] == oc[q];
                        assert forall|q: int| 0 <= q < oc.len() implies oc[q].chunk_time
                            == nc[q].chunk_time by {
                            if q != jj {
                                assert(nc[q] == oc[q]);
                            }
                        }
                        lemma_find_chunk_same_times(oc, nc, c);
                        if let Some(j) = find_chunk(oc, c) {
                            if j != jj {
                                assert(nc[j] == oc[j]);
                            } else {
                                assert(oc[jj].rows@ + seq![row] =~= oc[jj].rows@.push(row));
                            }
                        }
                        if c == chunk_time {
                            assert(find_chunk(oc, c) == Some(jj));
                        }
                    } else {
                        assert(nc.drop_last() =~= oc) by {
                            assert forall|q: int| 0 <= q < oc.len() implies nc.drop_last()[q]
                                == oc[q] by {
                                assert(nc[q] == oc[q]);
                            }
                        }
                        if c == chunk_time {
                            assert(find_chunk(oc, c) is None);
                            assert(Seq::<Row>::empty() + seq![row] =~= seq![row]);
                        } else {
                            assert(rows_in(old, t, c) + Seq::<Row>::empty() =~= rows_in(old, t, c));
                            if let Some(j) = find_chunk(oc, c) {
                                assert(nc[j] == oc[j]);
                            }
                        }
                    }
                }
            }
            assert(rows_in(old, t, c) + Seq::<Row>::empty() =~= rows_in(old, t, c));
        },
        None => {
            assert(new.drop_last() =~= old) by {
                assert forall|q: int| 0 <= q < old.len() implies new.drop_last()[q] == old[q] by {
                    assert(new[q] == old[q]);
                }
            }
            if let Some(i) = find_key(old, t) {
                assert(new[i] == old[i]);
                assert(find_key(new, t) == Some(i));
            } else if t == table_id {
                let nc = new.last().1.chunks@;
                assert(find_key(new, t) == Some(old.len() as int));
                assert(nc.len() == 1);
                assert(nc.drop_last() =~= Seq::<ChunkRows>::empty());
                if c == chunk_time {
                    assert(Seq::<Row>::empty() + seq![row] =~= seq![row]);
                } else {
                    assert(find_chunk(nc.drop_last(), c) is None);
                    assert(find_chunk(nc, c) is None);
                    assert(Seq::<Row>::empty() + Seq::<Row>::empty() =~= Seq::<Row>::empty());
                }
            } else {
                assert(find_key(new, t) is None);
            }
            assert(rows_in(old, t, c) + Seq::<Row>::empty() =~= rows_in(old, t, c));
        },
    }
}

/// The table ids of the entries, in order.
pub open spec fn table_keys(ts: Seq<(u64, TableChunks)>) -> Seq<u64> {
    ts.map_values(|e: (u64, TableChunks)| e.0)
}

/// No table without windows and no window without rows.
pub open spec fn no_empty_entries(ts: Seq<(u64, TableChunks)>) -> bool {
    forall|i: int|
        0 <= i < ts.len() ==> (#[trigger] ts[i]).1.chunks@.len() > 0 && forall|j: int|
            0 <= j < ts[i].1.chunks@.len() ==> (#[trigger] ts[i].1.chunks@[j]).rows@.len() > 0
}

/// Filing a row keeps every entry non-empty, and adds its table id last
/// where the table is new.
pub proof fn lemma_push_keys(
    old: Seq<(u64, TableChunks)>,
    new: Seq<(u64, TableChunks)>,
    table_id: u64,
    chunk_time: i64,
    row: Row,
)
    requires
        table_row_pushed(old, new, table_id, chunk_time, row),
        no_empty_entries(old),
    ensures
        no_empty_entries(new),
        table_keys(new) == if table_keys(old).contains(table_id) {
            table_keys(old)
        } else {
            table_keys(old).push(table_id)
        },
{
    lemma_find_key_bounds(old, table_id);
    match find_key(old, table_id) {
        Some(i) => {
            assert(table_keys(old)[i] == table_id);
            assert(table_keys(new) =~= table_keys(old)) by {
                assert forall|q: int| 0 <= q < old.len() implies table_keys(new)[q] == table_keys(old)[q] by {
                    if q != i {
                        assert(new[q] == old[q]);
                    }
                }
            }
            let oc = old[i].1.chunks@;
            let nc = new[i].1.chunks@;
            assert(oc.len() > 0);
            if exists|j: int| 0 <= j < oc.len() && (#[trigger] oc[j]).chunk_time == chunk_time {
                let jj = choose|jj: int|
                    0 <= jj < oc.len() && (#[trigger] oc[jj]).chunk_time == chunk_time && nc.len()
                        == oc.len() && nc[jj].chunk_time == chunk_time && nc[jj].rows@ == oc[jj].rows@.push(row)
                        && forall|q: int| 0 <= q < oc.len() && q != jj ==> #[trigger] nc[q] == oc[q];
                assert forall|j: int| 0 <= j < nc.len() implies (#[trigger] nc[j]).rows@.len() > 0 by {
                    assert(oc[j].rows@.len() > 0);
                    if j != jj {
                        assert(nc[j] == oc[j]);
                    }
                }
            } else {
                assert forall|j: int| 0 <= j < nc.len() implies (#[trigger] nc[j]).rows@.len() > 0 by {
                    if j < oc.len() {
                        assert(nc[j] == oc[j]);
                        assert(oc[j].rows@.len() > 0);
                    }
                }
            }
            assert forall|q: int| 0 <= q < new.len() implies (#[trigger] new[q]).1.chunks@.len() > 0
                && forall|j: int|
                0 <= j < new[q].1.chunks@.len() ==> (#[trigger] new[q].1.chunks@[j]).rows@.len() > 0 by {
                if q != i {
                    assert(new[q] == old[q]);
                }
            }
        },
        None => {
            assert(!table_keys(old).contains(table_id)) by {
                if table_keys(old).contains(table_id) {
                    let q = choose|q: int| 0 <= q < table_keys(old).len() && table_keys(old)[q] == table_id;
                    assert(old[q].0 == table_id);
                }
            }
            assert(table_keys(new) =~= table_keys(old).push(table_id)) by {
                assert forall|q: int| 0 <= q < old.len() implies table_keys(new)[q] == table_keys(old)[q] by {
                    assert(new[q] == old[q]);
                }
            }
            let nc = new.last().1.chunks@;
            assert(nc.len() == 1);
            assert(nc[0].rows@ == seq![row]);
            assert forall|q: int| 0 <= q < new.len() implies (#[trigger] new[q]).1.chunks@.len() > 0
                && forall|j: int|
                0 <= j < new[q].1.chunks@.len() ==> (#[trigger] new[q].1.chunks@[j]).rows@.len() > 0 by {
                if q < old.len() {
                    assert(new[q] == old[q]);
                }
            }
        },
    }
}

/// The window starts of table `t`, in their order in the batch.
pub open spec fn windows_of(ts: Seq<(u64, TableChunks)>, t: u64) -> Seq<i64> {
    match find_key(ts, t) {
        Some(i) => ts[i].1.chunks@.map_values(|c: ChunkRows| c.chunk_time),
        None => Seq::empty(),
    }
}

/// Filing a row adds its window last to its table's windows where the
/// window is new, and changes no other table's windows.
pub proof fn lemma_windows_after_push(
    old: Seq<(u64, TableChunks)>,
    new: Seq<(u64, TableChunks)>,
    window: int,
    table_id: u64,
    chunk_time: i64,
    row: Row,
    t: u64,
)
    requires
        tables_hold(old, window),
        tables_hold(new, window),
        table_row_pushed(old, new, table_id, chunk_time, row),
    ensures
        windows_of(new, t) == if t == table_id && !windows_of(old, t).contains(chunk_time) {
            windows_of(old, t).push(chunk_time)
        } else {
            windows_of(old, t)
        },
{
    lemma_find_key_bounds(old, table_id);
    lemma_find_key_bounds(old, t);
    lemma_find_key_bounds(new, t);
    match find_key(old, table_id) {
        Some(i0) => {
            lemma_find_key_same_keys(old, new, t);
            if let Some(i) = find_key(old, t) {
                let oc = old[i].1.chunks@;
                let nc = new[i].1.chunks@;
                let ow = oc.map_values(|c: ChunkRows| c.chunk_time);
                let nw = nc.map_values(|c: ChunkRows| c.chunk_time);
                if i != i0 {
                    assert(new[i] == old[i]);
                } else if exists|j: int| 0 <= j < oc.len() && (#[trigger] oc[j]).chunk_time == chunk_time {
                    let jj = choose|jj: int|
                        0 <= jj < oc.len() && (#[trigger] oc[jj]).chunk_time == chunk_time && nc.len()
                            == oc.len() && nc[jj].chunk_time == chunk_time && nc[jj].rows@
                            == oc[jj].rows@.push(row) && forall|q: int|
                            0 <= q < oc.len() && q != jj ==> #[trigger] nc[q] == oc[q];
                    assert(ow[jj] == chunk_time);
                    assert(nw =~= ow) by {
                        assert forall|q: int| 0 <= q < oc.len() implies nw[q] == ow[q] by {
                            if q != jj {
                                assert(nc[q] == oc[q]);
                            }
                        }
                    }
                } else {
                    assert(!ow.contains(chunk_time)) by {
                        if ow.contains(chunk_time) {
                            let q = choose|q: int| 0 <= q < ow.len() && ow[q] == chunk_time;
                            assert(oc[q].chunk_time == chunk_time);
                        }
                    }
                    assert(nw =~= ow.push(chunk_time)) by {
                        assert forall|q: int| 0 <= q < oc.len() implies nw[q] == ow[q] by {
                            assert(nc[q] == oc[q]);
                        }
                    }
                }
            }
        },
        None => {
            if let Some(i) = find_key(old, t) {
                assert(new[i] == old[i]);
                assert(new.drop_last() =~= old) by {
                    assert forall|q: int| 0 <= q < old.len() implies new.drop_last()[q] == old[q] by {
                        assert(new[q] == old[q]);
                    }
                }
                assert(find_key(new, t) == Some(i));
            } else if t == table_id {
                assert(new.drop_last() =~= old) by {
                    assert forall|q: int| 0 <= q < old.len() implies new.drop_last()[q] == old[q] by {
                        assert(new[q] == old[q]);
                    }
                }
                let nc = new.last().1.chunks@;
                assert(find_key(new, t) == Some(old.len() as int));
                assert(nc.map_values(|c: ChunkRows| c.chunk_time) =~= Seq::<i64>::empty().push(chunk_time));
            } else {
                assert(new.drop_last() =~= old) by {
                    assert forall|q: int| 0 <= q < old.len() implies new.drop_last()[q] == old[q] by {
                        assert(new[q] == old[q]);
                    }
                }
            }
        },
    }
}

} // verus!
