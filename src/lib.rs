//! Validation of line-protocol writes against a namespace schema, with
//! schema reconciliation and bucketing of accepted rows into time chunks.

mod catalog;
mod chunks;
mod line;
mod ops;
mod precision;
mod qualify;
mod schema;
mod validator;

pub use catalog::{Catalog, CatalogBatch, CatalogError, CatalogModel, OrderedCatalogBatch};
pub use chunks::{
    chunk_time_for, empty_tables, lemma_chunk_start_bounds, lemma_rows_lie_in_their_window,
    lemma_rows_in_after_push, rows_in, wide_chunk_start, ChunkRows, TableChunks,
    WriteBatch,
};
pub use line::{Field, FieldData, FieldValue, LineTokens, Row};
pub use ops::{lemma_apply_ops_extends, CatalogOp};
pub use precision::{
    apply_precision_to_timestamp, checked_timestamp_nanos, guess_precision, Precision,
};
pub use qualify::{
    lemma_qualify_mints_fresh_ids, validate_and_qualify_line, IdCounters, LineError, QualifiedLine,
};
pub use schema::{
    ColumnDefinition, ColumnModel, ColumnType, DatabaseSchema, FieldType, SchemaModel,
    TableDefinition, TableModel,
};
pub use validator::{
    lemma_write_mints_fresh_ids, Gen1Duration, LinesParsed, ValidatedLines, WithCatalog, WriteError, WriteLineError,
    WriteValidator,
};
