use write_validator::{
    WriteBatch, apply_precision_to_timestamp, chunk_time_for, guess_precision, Catalog, CatalogOp,
    ColumnType, FieldData, FieldType, Gen1Duration, LineError, Precision, ValidatedLines,
    WriteError, WriteValidator,
};

fn new_catalog() -> Catalog {
    Catalog::new(
        String::from("sample-host-id"),
        String::from("sample-instance-id"),
    )
}

fn write(
    catalog: &mut Catalog,
    lp: &str,
    accept_partial: bool,
    ingest_time: i64,
    precision: Precision,
) -> Result<ValidatedLines, WriteError> {
    let db = String::from("test");
    let parsed = WriteValidator::initialize(&db, catalog, 0)
        .unwrap()
        .parse_lines_and_update_schema(catalog, lp, accept_partial, ingest_time, precision)?;
    Ok(parsed.convert_lines_to_buffer(Gen1Duration::new_5m()))
}

fn only_row_time(result: &ValidatedLines) -> i64 {
    let tables = &result.valid_data.table_chunks;
    assert_eq!(tables.len(), 1);
    let table = tables.get_index(0).unwrap().1;
    assert_eq!(table.chunks.len(), 1);
    assert_eq!(table.chunks[0].rows.len(), 1);
    table.chunks[0].rows[0].time
}

#[test]
fn write_validator() {
    let mut catalog = new_catalog();
    let namespace = String::from("test");
    let result = WriteValidator::initialize(&namespace, &mut catalog, 0)
        .unwrap()
        .parse_lines_and_update_schema(
            &mut catalog,
            "cpu,tag1=foo val1=\"bar\" 1234",
            false,
            0,
            Precision::Auto,
        )
        .unwrap()
        .convert_lines_to_buffer(Gen1Duration::new_5m());

    assert_eq!(result.line_count, 1);
    assert_eq!(result.field_count, 1);
    assert_eq!(result.index_count, 1);
    assert!(result.errors.is_empty());

    assert_eq!(result.valid_data.database_name.as_str(), namespace.as_str());
    // cpu table
    let batch = result.valid_data.table(0).unwrap();
    assert_eq!(batch.row_count(), 1);

    // the catalog now has the table and its columns, so this write takes
    // the path of an existing table
    let result = WriteValidator::initialize(&namespace, &mut catalog, 0)
        .unwrap()
        .parse_lines_and_update_schema(
            &mut catalog,
            "cpu,tag1=foo val1=\"bar\" 1235",
            false,
            0,
            Precision::Auto,
        )
        .unwrap()
        .convert_lines_to_buffer(Gen1Duration::new_5m());

    println!("result: {result:?}");
    assert_eq!(result.line_count, 1);
    assert_eq!(result.field_count, 1);
    assert_eq!(result.index_count, 1);
    assert!(result.errors.is_empty());

    // this write adds a field
    let result = WriteValidator::initialize(&namespace, &mut catalog, 0)
        .unwrap()
        .parse_lines_and_update_schema(
            &mut catalog,
            "cpu,tag1=foo val1=\"bar\",val2=false 1236",
            false,
            0,
            Precision::Auto,
        )
        .unwrap()
        .convert_lines_to_buffer(Gen1Duration::new_5m());

    println!("result: {result:?}");
    assert_eq!(result.line_count, 1);
    assert_eq!(result.field_count, 2);
    assert_eq!(result.index_count, 1);
    assert!(result.errors.is_empty());
}

#[test]
fn create_table_publishes_definition() {
    let mut catalog = new_catalog();
    let result = write(&mut catalog, "cpu,tag1=foo val1=\"bar\" 1234", false, 0, Precision::Auto).unwrap();
    assert_eq!(result.line_count, 1);
    assert_eq!(result.field_count, 1);
    assert_eq!(result.index_count, 1);
    assert!(result.errors.is_empty());
    let updates = result.catalog_updates.as_ref().unwrap();
    assert_eq!(updates.sequence_number, 1);
    assert_eq!(updates.batch.ops.len(), 1);
    match &updates.batch.ops[0] {
        CatalogOp::CreateTable { table_name, field_definitions, key, table_id, .. } => {
            assert_eq!(table_name.as_str(), "cpu");
            assert_eq!(*table_id, 0);
            assert_eq!(field_definitions.len(), 3);
            assert_eq!(field_definitions[0].name.as_str(), "tag1");
            assert_eq!(field_definitions[0].data_type, ColumnType::Tag);
            assert_eq!(field_definitions[1].name.as_str(), "val1");
            assert_eq!(field_definitions[1].data_type, ColumnType::Field(FieldType::Str));
            assert_eq!(field_definitions[2].name.as_str(), "time");
            assert_eq!(field_definitions[2].data_type, ColumnType::Timestamp);
            assert_eq!(key.clone(), vec![field_definitions[0].id]);
        }
        other => panic!("unexpected op {other:?}"),
    }
    // a four-digit timestamp is read as seconds
    assert_eq!(only_row_time(&result), 1234 * 1_000_000_000);
    let table = result.valid_data.table(0).unwrap();
    assert_eq!(table.chunks[0].chunk_time, 1_200_000_000_000);
    assert_eq!(result.valid_bytes_count, "cpu,tag1=foo val1=\"bar\" 1234".len() as u64);
}

#[test]
fn repeated_shape_mints_nothing() {
    let mut catalog = new_catalog();
    write(&mut catalog, "cpu,tag1=foo val1=\"bar\" 1234", false, 0, Precision::Auto).unwrap();
    let ids = catalog.id_counters();
    let seq = catalog.sequence_number();
    let result = write(&mut catalog, "cpu,tag1=foo val1=\"bar\" 1235", false, 0, Precision::Auto).unwrap();
    assert!(result.catalog_updates.is_none());
    assert_eq!(catalog.id_counters(), ids);
    assert_eq!(catalog.sequence_number(), seq);
    assert_eq!(result.line_count, 1);
    assert_eq!(result.field_count, 1);
    assert_eq!(result.index_count, 1);
    assert_eq!(only_row_time(&result), 1235 * 1_000_000_000);
}

#[test]
fn new_field_adds_only_that_field() {
    let mut catalog = new_catalog();
    write(&mut catalog, "cpu,tag1=foo val1=\"bar\" 1234", false, 0, Precision::Auto).unwrap();
    let result = write(
        &mut catalog,
        "cpu,tag1=foo val1=\"bar\",val2=false 1236",
        false,
        0,
        Precision::Auto,
    )
    .unwrap();
    assert_eq!(result.field_count, 2);
    assert_eq!(result.index_count, 1);
    let updates = result.catalog_updates.as_ref().unwrap();
    assert_eq!(updates.batch.ops.len(), 1);
    match &updates.batch.ops[0] {
        CatalogOp::AddFields { field_definitions, table_name, .. } => {
            assert_eq!(table_name.as_str(), "cpu");
            assert_eq!(field_definitions.len(), 1);
            assert_eq!(field_definitions[0].name.as_str(), "val2");
            assert_eq!(field_definitions[0].data_type, ColumnType::Field(FieldType::Boolean));
        }
        other => panic!("unexpected op {other:?}"),
    }
}

#[test]
fn type_conflict_strict_fails_and_leaves_catalog() {
    let mut catalog = new_catalog();
    write(&mut catalog, "cpu,tag1=foo val1=\"bar\" 1234", false, 0, Precision::Auto).unwrap();
    let ids = catalog.id_counters();
    let seq = catalog.sequence_number();
    let err = write(&mut catalog, "cpu,tag1=foo val1=5i 1237", false, 0, Precision::Auto).unwrap_err();
    match err {
        WriteError::ParseError(e) => {
            assert_eq!(e.line_number, 1);
            assert_eq!(e.original_line.as_str(), "cpu,tag1=foo val1=5i 1237");
            match &e.error {
                LineError::TypeMismatch { column, expected, got } => {
                    assert_eq!(column.as_str(), "val1");
                    assert_eq!(*expected, ColumnType::Field(FieldType::Str));
                    assert_eq!(*got, ColumnType::Field(FieldType::Integer));
                }
                other => panic!("unexpected error {other:?}"),
            }
            assert_eq!(
                e.error_message(),
                "invalid field value in line protocol for field 'val1' on line 1: expected type string, but got i64"
            );
        }
        other => panic!("unexpected error {other:?}"),
    }
    assert_eq!(catalog.id_counters(), ids);
    assert_eq!(catalog.sequence_number(), seq);
}

#[test]
fn strict_failure_after_new_table_publishes_nothing() {
    let mut catalog = new_catalog();
    write(&mut catalog, "cpu,tag1=foo val1=\"bar\" 1234", false, 0, Precision::Auto).unwrap();
    let seq = catalog.sequence_number();
    let err = write(
        &mut catalog,
        "mem,host=a free=1i 10\ncpu,tag1=foo val1=5i 1237",
        false,
        0,
        Precision::Auto,
    );
    assert!(matches!(err, Err(WriteError::ParseError(ref e)) if e.line_number == 2));
    assert_eq!(catalog.sequence_number(), seq);
    // the table that the first line proposed was never published
    let result = write(&mut catalog, "mem,host=a free=1i 10", false, 0, Precision::Auto).unwrap();
    assert!(result.catalog_updates.is_some());
}

#[test]
fn type_conflict_partial_keeps_valid_lines() {
    let mut catalog = new_catalog();
    write(&mut catalog, "cpu,tag1=foo val1=\"bar\" 1234", false, 0, Precision::Auto).unwrap();
    let first = "cpu,tag1=foo val1=5i 1237";
    let second = "cpu,tag1=foo val1=\"baz\" 1238";
    let lp = format!("{first}\n{second}");
    let result = write(&mut catalog, &lp, true, 0, Precision::Auto).unwrap();
    assert_eq!(result.line_count, 2);
    assert_eq!(result.errors.len(), 1);
    assert_eq!(result.errors[0].line_number, 1);
    assert_eq!(result.errors[0].original_line.as_str(), first);
    assert!(result.catalog_updates.is_none());
    assert_eq!(result.valid_bytes_count, second.len() as u64);
    assert_eq!(only_row_time(&result), 1238 * 1_000_000_000);
}

#[test]
fn missing_timestamp_uses_ingest_time() {
    for precision in [Precision::Auto, Precision::Second, Precision::Nanosecond] {
        let mut catalog = new_catalog();
        let result = write(
            &mut catalog,
            "cpu,tag1=foo val1=\"bar\"",
            false,
            42_000_000_000,
            precision,
        )
        .unwrap();
        assert_eq!(only_row_time(&result), 42_000_000_000);
    }
}

#[test]
fn explicit_precisions_scale_timestamps() {
    let cases = [
        (Precision::Second, 7, 7_000_000_000),
        (Precision::Millisecond, 7, 7_000_000),
        (Precision::Microsecond, 7, 7_000),
        (Precision::Nanosecond, 7, 7),
        (Precision::Second, -3, -3_000_000_000),
    ];
    for (p, ts, ns) in cases {
        assert_eq!(apply_precision_to_timestamp(p, ts), ns);
        let mut catalog = new_catalog();
        let lp = format!("m f=1i {ts}");
        let result = write(&mut catalog, &lp, false, 0, p).unwrap();
        assert_eq!(only_row_time(&result), ns);
    }
}

#[test]
fn auto_precision_guesses_from_magnitude() {
    assert_eq!(guess_precision(1234), Precision::Second);
    assert_eq!(guess_precision(1_708_976_567), Precision::Second);
    assert_eq!(guess_precision(1_708_976_567_000), Precision::Millisecond);
    assert_eq!(guess_precision(1_708_976_567_000_000), Precision::Microsecond);
    assert_eq!(guess_precision(1_708_976_567_000_000_000), Precision::Nanosecond);
    assert_eq!(guess_precision(-1_708_976_567_000), Precision::Millisecond);
    assert_eq!(guess_precision(i64::MIN), Precision::Nanosecond);
    assert_eq!(apply_precision_to_timestamp(Precision::Auto, 1_708_976_567_000), 1_708_976_567_000_000_000);
}

#[test]
fn overflowing_timestamp_is_a_line_error() {
    let mut catalog = new_catalog();
    let lp = format!("m f=1i {}", i64::MAX);
    let err = write(&mut catalog, &lp, false, 0, Precision::Second).unwrap_err();
    assert!(matches!(err, WriteError::ParseError(ref e) if matches!(e.error, LineError::TimestampOutOfRange)));
}

#[test]
fn chunk_windows_hold_their_rows() {
    let w = Gen1Duration::new_5m().nanos;
    assert_eq!(chunk_time_for(0, w), 0);
    assert_eq!(chunk_time_for(w - 1, w), 0);
    assert_eq!(chunk_time_for(w, w), w);
    assert_eq!(chunk_time_for(-1, w), -w);
    assert_eq!(chunk_time_for(-w, w), -w);
    assert_eq!(Gen1Duration::new_1m().chunk_time_for_timestamp(61_000_000_000), 60_000_000_000);
}

#[test]
fn rows_are_bucketed_by_table_and_window_in_order() {
    let mut catalog = new_catalog();
    let lp = "a v=1i 1\nb v=2i 2\na v=3i 400000000000\na v=4i 3";
    let result = write(&mut catalog, lp, false, 0, Precision::Nanosecond).unwrap();
    assert_eq!(result.line_count, 4);
    let tables = &result.valid_data.table_chunks;
    assert_eq!(tables.len(), 2);
    let (a_id, a_entry) = tables.get_index(0).unwrap();
    assert_eq!(a_entry.table_id, *a_id);
    let a = result.valid_data.table(*a_id).unwrap();
    assert_eq!(a.chunks.len(), 2);
    assert_eq!(a.chunks[0].chunk_time, 0);
    assert_eq!(a.chunks[1].chunk_time, 300_000_000_000);
    let times: Vec<i64> = a.chunks[0].rows.iter().map(|r| r.time).collect();
    assert_eq!(times, vec![1, 3]);
    assert_eq!(a.row_count(), 3);
    let b = result.valid_data.table(*tables.get_index(1).unwrap().0).unwrap();
    assert_eq!(b.row_count(), 1);
}

#[test]
fn partial_accounting_counts_bytes_of_accepted_lines() {
    let mut catalog = new_catalog();
    let lines = ["m f=1i 1", "this is not line protocol", "m f=2i 2", "m f=\"s\" 3"];
    let lp = lines.join("\n");
    let result = write(&mut catalog, &lp, true, 0, Precision::Nanosecond).unwrap();
    assert_eq!(result.line_count, 4);
    assert_eq!(result.errors.len(), 2);
    assert_eq!(result.errors[0].line_number, 2);
    assert_eq!(result.errors[1].line_number, 4);
    assert!(matches!(result.errors[0].error, LineError::Tokenize(_)));
    assert_eq!(result.valid_bytes_count, (lines[0].len() + lines[2].len()) as u64);
}

#[test]
fn blank_lines_are_skipped() {
    let mut catalog = new_catalog();
    let result = write(&mut catalog, "m f=1i 1\n\nm f=2i 2\n", false, 0, Precision::Nanosecond).unwrap();
    assert_eq!(result.line_count, 2);
    assert!(result.errors.is_empty());
    assert_eq!(result.valid_bytes_count, 16);
}

#[test]
fn row_values_follow_columns() {
    let mut catalog = new_catalog();
    let result = write(
        &mut catalog,
        "cpu,host=a,region=b usage=0.5,count=3u,ok=true,n=-2i 10",
        false,
        0,
        Precision::Nanosecond,
    )
    .unwrap();
    let row = &result.valid_data.table(0).unwrap().chunks[0].rows[0];
    assert_eq!(row.fields.len(), 7);
    assert!(matches!(row.fields[0].value, FieldData::Tag(ref s) if s == "a"));
    assert!(matches!(row.fields[1].value, FieldData::Tag(ref s) if s == "b"));
    assert!(matches!(row.fields[2].value, FieldData::Float(bits) if bits == 0.5f64.to_bits()));
    assert!(matches!(row.fields[3].value, FieldData::UInteger(3)));
    assert!(matches!(row.fields[4].value, FieldData::Boolean(true)));
    assert!(matches!(row.fields[5].value, FieldData::Integer(-2)));
    assert!(matches!(row.fields[6].value, FieldData::Timestamp(10)));
    let ids: Vec<u64> = row.fields.iter().map(|f| f.id).collect();
    assert_eq!(ids, vec![0, 1, 2, 3, 4, 5, 6]);
    assert_eq!(result.index_count, 2);
    assert_eq!(result.field_count, 4);
}

#[test]
fn same_new_column_in_one_batch_is_added_once() {
    let mut catalog = new_catalog();
    write(&mut catalog, "m f=1i 1", false, 0, Precision::Nanosecond).unwrap();
    let result = write(&mut catalog, "m f=1i,x=2i 2\nm x=3i 3", false, 0, Precision::Nanosecond).unwrap();
    let updates = result.catalog_updates.as_ref().unwrap();
    assert_eq!(updates.batch.ops.len(), 1);
    let rows = &result.valid_data.table(0).unwrap().chunks[0].rows;
    assert_eq!(rows[0].fields[1].id, rows[1].fields[0].id);
}

#[test]
fn tag_written_as_field_is_a_type_mismatch() {
    let mut catalog = new_catalog();
    write(&mut catalog, "m,t=a f=1i 1", false, 0, Precision::Nanosecond).unwrap();
    let err = write(&mut catalog, "m t=1i 2", false, 0, Precision::Nanosecond).unwrap_err();
    assert!(matches!(err, WriteError::ParseError(ref e) if matches!(e.error, LineError::TypeMismatch { .. })));
}

#[test]
fn column_named_twice_in_a_new_table_is_refused() {
    let mut catalog = new_catalog();
    let err = write(&mut catalog, "m,a=x a=1i 1", false, 0, Precision::Nanosecond).unwrap_err();
    assert!(matches!(err, WriteError::ParseError(ref e) if matches!(e.error, LineError::DuplicateColumn(_))));
}

#[test]
fn databases_get_their_own_schemas() {
    let mut catalog = new_catalog();
    let a = WriteValidator::initialize(&String::from("a"), &mut catalog, 0).unwrap();
    let b = WriteValidator::initialize(&String::from("b"), &mut catalog, 0).unwrap();
    let a2 = WriteValidator::initialize(&String::from("a"), &mut catalog, 0).unwrap();
    assert_ne!(a.state.db_schema.id, b.state.db_schema.id);
    assert_eq!(a.state.db_schema.id, a2.state.db_schema.id);
    assert_eq!(catalog.node_id().as_str(), "sample-host-id");
    assert_eq!(catalog.instance_id().as_str(), "sample-instance-id");
}

#[test]
fn mismatch_message_names_the_line() {
    let mut catalog = new_catalog();
    write(&mut catalog, "m f=1i 1", false, 0, Precision::Nanosecond).unwrap();
    let mut lines: Vec<String> = (0..11).map(|i| format!("m f={i}i {i}")).collect();
    lines.push(String::from("m f=true 99"));
    let result = write(&mut catalog, &lines.join("\n"), true, 0, Precision::Nanosecond).unwrap();
    assert_eq!(result.line_count, 12);
    assert_eq!(result.errors.len(), 1);
    assert_eq!(result.errors[0].line_number, 12);
    assert_eq!(
        result.errors[0].error_message(),
        "invalid field value in line protocol for field 'f' on line 12: expected type i64, but got bool"
    );
}

#[test]
fn to_rows_keeps_input_order() {
    let mut catalog = new_catalog();
    let db = String::from("test");
    let parsed = WriteValidator::initialize(&db, &mut catalog, 0)
        .unwrap()
        .parse_lines_and_update_schema(&mut catalog, "a v=1i 5\nb v=2i 3\na v=3i 4", false, 0, Precision::Nanosecond)
        .unwrap();
    let rows = parsed.into_inner().to_rows();
    let times: Vec<i64> = rows.iter().map(|r| r.time).collect();
    assert_eq!(times, vec![5, 3, 4]);
}

#[test]
fn validated_lines_convert_into_their_batch() {
    let mut catalog = new_catalog();
    let result = write(&mut catalog, "a v=1i 1\nb v=1i 1", false, 0, Precision::Nanosecond).unwrap();
    let batch: WriteBatch = result.into();
    assert_eq!(batch.table_chunks.len(), 2);
    assert_eq!(batch.database_name.as_str(), "test");
}

#[test]
fn messages_for_other_line_errors() {
    let mut catalog = new_catalog();
    let err = write(&mut catalog, "m,a=x a=1i 1", false, 0, Precision::Nanosecond).unwrap_err();
    match err {
        WriteError::ParseError(e) => {
            assert_eq!(e.error_message(), "column added twice by one line: a");
        }
        other => panic!("unexpected error {other:?}"),
    }
    let lp = format!("m f=1i {}", i64::MIN);
    let err = write(&mut catalog, &lp, false, 0, Precision::Millisecond).unwrap_err();
    match err {
        WriteError::ParseError(e) => {
            assert_eq!(e.error_message(), "timestamp out of range once converted to nanoseconds");
        }
        other => panic!("unexpected error {other:?}"),
    }
}

#[test]
fn write_of_existing_columns_changes_no_catalog_state() {
    let mut catalog = new_catalog();
    write(&mut catalog, "cpu,host=a usage=1i,name=\"x\" 5", false, 0, Precision::Nanosecond).unwrap();
    let ids = catalog.id_counters();
    let seq = catalog.sequence_number();
    let result = write(
        &mut catalog,
        "cpu,host=b usage=2i 6\ncpu name=\"y\",usage=3i 7\n",
        false,
        0,
        Precision::Nanosecond,
    )
    .unwrap();
    assert!(result.catalog_updates.is_none());
    assert_eq!(catalog.id_counters(), ids);
    assert_eq!(catalog.sequence_number(), seq);
    assert_eq!(result.line_count, 2);
    assert_eq!(result.valid_data.table(0).unwrap().row_count(), 2);
}

#[test]
fn added_columns_take_consecutive_fresh_ids() {
    let mut catalog = new_catalog();
    write(&mut catalog, "m,t=a f=1i 1", false, 0, Precision::Nanosecond).unwrap();
    let before = catalog.id_counters();
    let result = write(&mut catalog, "m,t=a,u=b f=1i,g=2u 2", false, 0, Precision::Nanosecond).unwrap();
    let updates = result.catalog_updates.as_ref().unwrap();
    match &updates.batch.ops[0] {
        CatalogOp::AddFields { field_definitions, .. } => {
            let names: Vec<&str> = field_definitions.iter().map(|c| c.name.as_str()).collect();
            assert_eq!(names, vec!["u", "g"]);
            assert_eq!(field_definitions[0].id, before.next_column_id);
            assert_eq!(field_definitions[1].id, before.next_column_id + 1);
            assert_eq!(field_definitions[0].data_type, ColumnType::Tag);
            assert_eq!(field_definitions[1].data_type, ColumnType::Field(FieldType::UInteger));
        }
        other => panic!("unexpected op {other:?}"),
    }
    assert_eq!(catalog.id_counters().next_column_id, before.next_column_id + 2);
    assert_eq!(updates.batch.database_id, 0);
    assert_eq!(updates.batch.database_name.as_str(), "test");
}
