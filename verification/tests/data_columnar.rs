use arrow_array::{Array, ArrayRef, Int64Array, RecordBatch};
use arrow_schema::{DataType, Field, Schema};
use bytes::Bytes;
use openquanter::data::columnar::{
    append_ticks, instrument_in, pick, read_parquet, write_parquet, Column, Error,
    Field as SchemaField, INSTRUMENT_KEY, NOT_IN_ORDER, VERSION, VERSION_KEY,
};
use openquanter::data::declared::{is_message_sound, message_of};
use openquanter::data::ticks::TickStream;
use openquanter::engine::tick::Tick;
use openquanter::types::{Nanos, PriceTicks, QtyLots, Stamp};
use parquet::arrow::arrow_reader::ParquetRecordBatchReaderBuilder;
use parquet::arrow::ArrowWriter;
use parquet::file::metadata::KeyValue;
use parquet::basic::{Compression, Encoding, ZstdLevel};
use parquet::file::properties::{EnabledStatistics, WriterProperties, WriterVersion};
use std::sync::Arc;

const COLUMNS: [&str; 8] = [
    "exch_ts", "local_ts", "last", "high", "low", "bid", "ask", "volume",
];

fn schema() -> Schema {
    let fields: Vec<Field> = COLUMNS
        .iter()
        .map(|name| Field::new(*name, DataType::Int64, false))
        .collect();
    Schema::new(fields)
}

fn sample(n: usize) -> TickStream {
    let ticks: Vec<Tick> = (0..n)
        .map(|i| {
            let i = i as i64;
            Tick {
                stamp: Stamp {
                    exch: Nanos(1_700_000_000_000_000_000 + i * 1_000_000),
                    // Deliberately not equal to exch: the whole point
                    // of two columns is that they can differ.
                    local: Nanos(1_700_000_000_000_000_000 + i * 1_000_000 + 250_000 + i),
                },
                last: PriceTicks(6_000_000 + i),
                high: PriceTicks(6_000_010 + i),
                low: PriceTicks(5_999_990 + i),
                bid: PriceTicks(6_000_000 + i - 1),
                ask: PriceTicks(6_000_000 + i + 1),
                volume: QtyLots(i * 7),
            }
        })
        .collect();
    TickStream::new(42, ticks).expect("valid stream")
}

/// The only claim this module makes, made as a test: what goes in
/// comes back, bit for bit. Anything weaker is an opinion about the
/// file format.
#[test]
fn a_stream_survives_the_round_trip_exactly() {
    let original = sample(5_000);
    let file = write_parquet(&original).expect("write");
    let back = read_parquet(&file).expect("read");

    assert_eq!(back.instrument(), original.instrument());
    assert_eq!(back.len(), original.len());
    assert_eq!(back.ticks(), original.ticks(), "round trip is not exact");
}

/// Feed latency is `local - exch`, so an exporter that kept one
/// timestamp would destroy it silently. This asserts the difference
/// survives, not merely that both columns exist.
#[test]
fn both_timestamps_survive_and_so_does_the_latency_between_them() {
    let original = sample(1_000);
    let file = write_parquet(&original).expect("write");
    let back = read_parquet(&file).expect("read");

    let before: Vec<i64> = original
        .ticks()
        .iter()
        .map(|t| t.stamp.local.0 - t.stamp.exch.0)
        .collect();
    let after: Vec<i64> = back
        .ticks()
        .iter()
        .map(|t| t.stamp.local.0 - t.stamp.exch.0)
        .collect();
    assert_eq!(before, after);
    assert!(
        before.iter().any(|&d| d != before[0]),
        "the fixture must have varying latency or this test proves nothing"
    );
}

/// A file with no instrument is a pile of numbers, and reading it as
/// though it were instrument 0 would be worse than refusing.
#[test]
fn a_file_without_its_metadata_is_refused_rather_than_guessed_at() {
    // Write the columns with no key-value metadata at all, the way
    // any other tool producing this schema would.
    let schema = Arc::new(schema());
    let batch = RecordBatch::try_new(
        Arc::clone(&schema),
        (0..8)
            .map(|_| Arc::new(Int64Array::from(vec![1i64, 2, 3])) as ArrayRef)
            .collect(),
    )
    .expect("batch");
    let mut w = ArrowWriter::try_new(Vec::new(), schema, None).expect("writer");
    w.write(&batch).expect("write");
    let file = w.into_inner().expect("close");

    assert!(
        matches!(read_parquet(&file), Err(Error::Version(None))),
        "a file with no schema version must be refused"
    );
}

/// The error names the column, because the usual cause is a file
/// from another tool and the fix depends on which one is wrong.
#[test]
fn a_missing_column_is_named() {
    let schema = Arc::new(Schema::new(vec![
        Field::new("exch_ts", DataType::Int64, false),
        Field::new("last", DataType::Int64, false),
    ]));
    let batch = RecordBatch::try_new(
        Arc::clone(&schema),
        vec![
            Arc::new(Int64Array::from(vec![1i64])) as ArrayRef,
            Arc::new(Int64Array::from(vec![2i64])) as ArrayRef,
        ],
    )
    .expect("batch");
    let props = WriterProperties::builder()
        .set_key_value_metadata(Some(vec![
            KeyValue::new(INSTRUMENT_KEY.to_owned(), "7".to_owned()),
            KeyValue::new(VERSION_KEY.to_owned(), VERSION.to_owned()),
        ]))
        .build();
    let mut w = ArrowWriter::try_new(Vec::new(), schema, Some(props)).expect("writer");
    w.write(&batch).expect("write");
    let file = w.into_inner().expect("close");

    match read_parquet(&file) {
        Err(Error::Column { name, found }) => {
            assert_eq!(name, "local_ts", "the first missing column is named");
            assert_eq!(found, None);
        }
        other => panic!("expected a named missing column, got {other:?}"),
    }
}

/// An empty stream is a legitimate thing to export — a quiet hour is
/// data — and must not become an unreadable file.
#[test]
fn an_empty_stream_round_trips_as_an_empty_stream() {
    let original = TickStream::new(9, Vec::new()).expect("empty is valid");
    let file = write_parquet(&original).expect("write");
    let back = read_parquet(&file).expect("read");
    assert_eq!(back.instrument(), 9);
    assert!(back.is_empty());
}

/// Prices are integers in the file. If they were ever written as
/// floats this would fail, which is the only way to hold that rule.
#[test]
fn prices_are_stored_as_integers() {
    let file = write_parquet(&sample(10)).expect("write");
    let b = ParquetRecordBatchReaderBuilder::try_new(Bytes::from(file)).expect("builder");
    for field in b.schema().fields() {
        assert_eq!(
            field.data_type(),
            &DataType::Int64,
            "column `{}` is not Int64",
            field.name()
        );
    }
}

fn columns(n: usize) -> Vec<Column> {
    COLUMNS
        .iter()
        .enumerate()
        .map(|(j, name)| Column {
            name: name.to_string(),
            values: Ok((0..n).map(|i| (10 * j + i) as i64).collect()),
        })
        .collect()
}

fn entry(key: &str, value: &str) -> (String, Option<String>) {
    (key.to_string(), Some(value.to_string()))
}

#[test]
fn a_run_of_columns_becomes_its_ticks() {
    let mut ticks = Vec::new();
    append_ticks(&mut ticks, &columns(2)).expect("whole");
    assert_eq!(ticks.len(), 2);
    assert_eq!(ticks[1].stamp, Stamp::new(1, 11));
    assert_eq!(ticks[1].last, PriceTicks(21));
    assert_eq!(ticks[1].high, PriceTicks(31));
    assert_eq!(ticks[1].low, PriceTicks(41));
    assert_eq!(ticks[1].bid, PriceTicks(51));
    assert_eq!(ticks[1].ask, PriceTicks(61));
    assert_eq!(ticks[1].volume, QtyLots(71));
}

#[test]
fn columns_may_stand_in_any_order() {
    let mut turned = columns(3);
    turned.reverse();
    let (mut a, mut b) = (Vec::new(), Vec::new());
    append_ticks(&mut a, &columns(3)).expect("whole");
    append_ticks(&mut b, &turned).expect("whole");
    assert_eq!(a, b);
}

#[test]
fn a_column_of_another_type_is_named_with_its_type() {
    let mut run = columns(1);
    run[4].values = Err("Float64".to_string());
    let mut ticks = Vec::new();
    let err = append_ticks(&mut ticks, &run).expect_err("refused");
    assert!(ticks.is_empty());
    assert_eq!(err.to_text(), "column `low` is Float64, expected Int64");
    run.remove(4);
    let err = append_ticks(&mut ticks, &run).expect_err("refused");
    assert_eq!(err.to_text(), "column `low` is missing");
}

#[test]
fn a_float_column_in_a_file_is_told_by_its_type() {
    let schema = Arc::new(Schema::new(vec![Field::new(
        "exch_ts",
        DataType::Float64,
        false,
    )]));
    let prices: ArrayRef = Arc::new(arrow_array::Float64Array::from(vec![1.5f64]));
    let batch = RecordBatch::try_new(Arc::clone(&schema), vec![prices]).expect("batch");
    let props = WriterProperties::builder()
        .set_key_value_metadata(Some(vec![
            KeyValue::new(INSTRUMENT_KEY.to_owned(), "7".to_owned()),
            KeyValue::new(VERSION_KEY.to_owned(), VERSION.to_owned()),
        ]))
        .build();
    let mut w = ArrowWriter::try_new(Vec::new(), schema, Some(props)).expect("writer");
    w.write(&batch).expect("write");
    let file = w.into_inner().expect("close");
    match read_parquet(&file) {
        Err(Error::Column { name, found }) => {
            assert_eq!(name, "exch_ts");
            assert_eq!(found, Some("Float64".to_string()));
        }
        other => panic!("expected a column of the wrong type, got {other:?}"),
    }
}

#[test]
fn the_metadata_names_the_version_before_the_instrument() {
    let whole = Some(vec![
        entry("other", "x"),
        entry(INSTRUMENT_KEY, "42"),
        entry(VERSION_KEY, VERSION),
    ]);
    assert_eq!(instrument_in(&whole).expect("named"), 42);
    let cases = [
        (None, "the file does not say what schema it uses"),
        (
            Some(vec![entry(VERSION_KEY, "2")]),
            "schema version \"2\", this build reads 1",
        ),
        (
            Some(vec![entry(VERSION_KEY, "1")]),
            "the file does not say which instrument it holds",
        ),
        (
            Some(vec![entry(VERSION_KEY, "1"), entry(INSTRUMENT_KEY, "x7")]),
            "instrument id \"x7\" is not a number",
        ),
    ];
    for (kv, words) in cases {
        assert_eq!(instrument_in(&kv).expect_err("refused").to_text(), words);
    }
}

#[test]
fn bytes_that_are_no_parquet_file_are_refused() {
    match read_parquet(b"not a parquet file") {
        Err(e) => assert!(e.to_text().starts_with("parquet: ")),
        Ok(_) => panic!("read something out of nothing"),
    }
}

#[test]
fn ticks_that_go_backwards_are_refused_by_the_stream() {
    let schema = Arc::new(schema());
    let column = |first: i64, second: i64| Arc::new(Int64Array::from(vec![first, second])) as ArrayRef;
    let mut arrays = vec![column(5, 4)];
    arrays.extend((1..8).map(|_| column(1, 1)));
    let batch = RecordBatch::try_new(Arc::clone(&schema), arrays).expect("batch");
    let props = WriterProperties::builder()
        .set_key_value_metadata(Some(vec![
            KeyValue::new(INSTRUMENT_KEY.to_owned(), "7".to_owned()),
            KeyValue::new(VERSION_KEY.to_owned(), VERSION.to_owned()),
        ]))
        .build();
    let mut w = ArrowWriter::try_new(Vec::new(), schema, Some(props)).expect("writer");
    w.write(&batch).expect("write");
    let file = w.into_inner().expect("close");
    match read_parquet(&file) {
        Err(Error::Stream(e)) => {
            assert_eq!(
                e,
                openquanter::data::error::Error::OutOfOrder { index: 1, previous: 5, found: 4 }
            );
        }
        other => panic!("expected a refused stream, got {other:?}"),
    }
}

fn named(kv: Vec<KeyValue>) -> Vec<KeyValue> {
    let mut all = vec![
        KeyValue::new(INSTRUMENT_KEY.to_owned(), "7".to_owned()),
        KeyValue::new(VERSION_KEY.to_owned(), VERSION.to_owned()),
    ];
    all.extend(kv);
    all
}

fn written(schema: Schema, arrays: Vec<ArrayRef>, props: WriterProperties) -> Vec<u8> {
    let schema = Arc::new(schema);
    let batch = RecordBatch::try_new(Arc::clone(&schema), arrays).expect("batch");
    let mut w = ArrowWriter::try_new(Vec::new(), schema, Some(props)).expect("writer");
    w.write(&batch).expect("write");
    w.into_inner().expect("close")
}

fn rows(n: i64) -> Vec<ArrayRef> {
    (0..8)
        .map(|j| Arc::new((0..n).map(|i| i + j).collect::<Int64Array>()) as ArrayRef)
        .collect()
}

#[test]
fn a_file_from_elsewhere_reads_with_its_columns_plain_or_in_a_dictionary() {
    for dictionary in [true, false] {
        let props = WriterProperties::builder()
            .set_key_value_metadata(Some(named(Vec::new())))
            .set_dictionary_enabled(dictionary)
            .set_max_row_group_row_count(Some(700))
            .build();
        let file = written(schema(), rows(3_000), props);
        let back = read_parquet(&file).expect("read");
        assert_eq!(back.instrument(), 7);
        assert_eq!(back.len(), 3_000);
        assert_eq!(back.ticks()[2_999].volume, QtyLots(3_006));
    }
}

#[test]
fn other_columns_are_left_alone() {
    let mut fields: Vec<Field> = schema().fields().iter().map(|f| f.as_ref().clone()).collect();
    fields.insert(3, Field::new("note", DataType::Utf8, true));
    let mut arrays = rows(4);
    arrays.insert(
        3,
        Arc::new(arrow_array::StringArray::from(vec![Some("a"), None, Some("b"), None])),
    );
    let props = WriterProperties::builder()
        .set_key_value_metadata(Some(named(Vec::new())))
        .build();
    let file = written(Schema::new(fields), arrays, props);
    let back = read_parquet(&file).expect("read");
    assert_eq!(back.len(), 4);
    assert_eq!(back.ticks()[3].high, PriceTicks(6));
}

/// What the outside reader makes of a file by itself: every column of every
/// batch, by name.
fn direct(file: &[u8]) -> Result<Vec<Tick>, String> {
    let builder = ParquetRecordBatchReaderBuilder::try_new(Bytes::copy_from_slice(file))
        .map_err(|e| e.to_string())?;
    let mut ticks = Vec::new();
    for batch in builder.build().map_err(|e| e.to_string())? {
        let batch = batch.map_err(|e| e.to_string())?;
        let mut columns: Vec<&Int64Array> = Vec::new();
        for name in COLUMNS {
            let array = batch
                .column_by_name(name)
                .ok_or(format!("column `{name}` is missing"))?;
            columns.push(array.as_any().downcast_ref::<Int64Array>().ok_or(format!(
                "column `{name}` is {:?}, expected Int64",
                array.data_type()
            ))?);
        }
        for i in 0..batch.num_rows() {
            ticks.push(Tick {
                stamp: Stamp {
                    exch: Nanos(columns[0].value(i)),
                    local: Nanos(columns[1].value(i)),
                },
                last: PriceTicks(columns[2].value(i)),
                high: PriceTicks(columns[3].value(i)),
                low: PriceTicks(columns[4].value(i)),
                bid: PriceTicks(columns[5].value(i)),
                ask: PriceTicks(columns[6].value(i)),
                volume: QtyLots(columns[7].value(i)),
            });
        }
    }
    Ok(ticks)
}

fn props() -> parquet::file::properties::WriterPropertiesBuilder {
    WriterProperties::builder().set_key_value_metadata(Some(named(Vec::new())))
}

fn with_column(at: usize, field: Field) -> Schema {
    let mut fields: Vec<Field> = schema().fields().iter().map(|f| f.as_ref().clone()).collect();
    fields[at] = field;
    Schema::new(fields)
}

/// Files in every form that a writer of integers has: pages of both versions,
/// each coding, packed or not, values missing or not.
fn forms(n: i64) -> Vec<Vec<u8>> {
    let mut files = Vec::new();
    for version in [WriterVersion::PARQUET_1_0, WriterVersion::PARQUET_2_0] {
        for coding in [
            None,
            Some(Encoding::PLAIN),
            Some(Encoding::DELTA_BINARY_PACKED),
            Some(Encoding::BYTE_STREAM_SPLIT),
        ] {
            for packing in [Compression::UNCOMPRESSED, Compression::ZSTD(ZstdLevel::default())] {
                for missing in [0, 1, 2, 3] {
                    let mut p = props()
                        .set_writer_version(version)
                        .set_compression(packing)
                        .set_statistics_enabled(EnabledStatistics::Page)
                        .set_write_page_header_statistics(missing != 1)
                        .set_data_page_row_count_limit(90)
                        .set_write_batch_size(30);
                    if let Some(c) = coding {
                        p = p.set_dictionary_enabled(false).set_encoding(c);
                    }
                    let mut arrays = rows(n);
                    let mut form = schema();
                    if missing > 0 {
                        form = with_column(2, Field::new("last", DataType::Int64, true));
                    }
                    if missing > 1 {
                        arrays[2] = Arc::new(
                            (0..n).map(|i| (missing < 3 && i % 3 != 1).then_some(i)).collect::<Int64Array>(),
                        );
                    }
                    files.push(written(form, arrays, p.build()));
                }
            }
        }
    }
    files
}

#[test]
fn every_form_of_integers_reads_as_the_outside_reader_reads_it() {
    for file in forms(400) {
        let back = read_parquet(&file).expect("read");
        assert_eq!(back.instrument(), 7);
        assert_eq!(back.ticks().to_vec(), direct(&file).expect("direct"));
        assert_eq!(back.len(), 400);
    }
}

#[test]
fn a_nullable_column_reads_whether_its_rows_are_filled_or_not() {
    let form = || with_column(5, Field::new("bid", DataType::Int64, true));
    let file = written(form(), rows(5), props().build());
    let back = read_parquet(&file).expect("read");
    assert_eq!(back.ticks()[4].bid, PriceTicks(9));
    let mut arrays = rows(3);
    arrays[5] = Arc::new(Int64Array::from(vec![Some(8), None, Some(9)]));
    let file = written(form(), arrays, props().build());
    let back = read_parquet(&file).expect("read");
    assert_eq!(back.ticks().to_vec(), direct(&file).expect("direct"));
    assert_eq!(back.ticks()[2].bid, PriceTicks(9));
}

#[test]
fn a_text_column_is_named() {
    let mut arrays = rows(2);
    arrays[1] = Arc::new(arrow_array::StringArray::from(vec!["a", "b"]));
    let file = written(
        with_column(1, Field::new("local_ts", DataType::Utf8, false)),
        arrays,
        props().build(),
    );
    assert_eq!(
        read_parquet(&file).expect_err("refused").to_text(),
        "column `local_ts` is Utf8, expected Int64"
    );
}

#[test]
fn a_column_that_its_writer_declares_as_another_type_is_named_with_it() {
    let mut arrays = rows(2);
    arrays[2] = Arc::new(arrow_array::DurationNanosecondArray::from(vec![1i64, 2]));
    let kind = DataType::Duration(arrow_schema::TimeUnit::Nanosecond);
    let file = written(
        with_column(2, Field::new("last", kind.clone(), false)),
        arrays,
        props().build(),
    );
    let text = read_parquet(&file).expect_err("refused").to_text();
    assert_eq!(text, format!("column `last` is {kind:?}, expected Int64"));
    assert_eq!(Err(text), direct(&file));

    let mut arrays = rows(2);
    let array: arrow_array::DictionaryArray<arrow_array::types::Int32Type> =
        arrow_array::DictionaryArray::new(
            arrow_array::Int32Array::from(vec![0, 1]),
            Arc::new(Int64Array::from(vec![5i64, 6])),
        );
    arrays[7] = Arc::new(array);
    let kind = DataType::Dictionary(Box::new(DataType::Int32), Box::new(DataType::Int64));
    let file = written(
        with_column(7, Field::new("volume", kind, false)),
        arrays,
        props().build(),
    );
    let text = read_parquet(&file).expect_err("refused").to_text();
    assert_eq!(Err(text), direct(&file));
}

#[test]
fn nested_and_annotated_columns_beside_those_of_ticks_are_no_matter() {
    let n = 6usize;
    let inner = Arc::new(Field::new("last", DataType::Int64, true));
    let list = arrow_array::ListArray::from_iter_primitive::<arrow_array::types::Int64Type, _, _>(
        (0..n as i64).map(|i| Some(vec![Some(i), None])),
    );
    let group = arrow_array::StructArray::from(vec![
        (
            Arc::clone(&inner),
            Arc::new((0..n as i64).collect::<Int64Array>()) as ArrayRef,
        ),
        (
            Arc::new(Field::new("items", list.data_type().clone(), true)),
            Arc::new(list) as ArrayRef,
        ),
    ]);
    let mut map = arrow_array::builder::MapBuilder::new(
        None,
        arrow_array::builder::StringBuilder::new(),
        arrow_array::builder::Int64Builder::new(),
    );
    for i in 0..n as i64 {
        map.keys().append_value("k");
        map.values().append_value(i);
        map.append(true).expect("entry");
    }
    let others: Vec<(String, ArrayRef)> = vec![
        ("group".to_string(), Arc::new(group)),
        ("map".to_string(), Arc::new(map.finish())),
        ("long ".repeat(60), Arc::new((0..n as i64).collect::<Int64Array>())),
        (
            "decimal".to_string(),
            Arc::new(
                arrow_array::Decimal128Array::from_iter_values((0..n).map(|i| i as i128))
                    .with_precision_and_scale(20, 4)
                    .expect("decimal"),
            ),
        ),
        (
            "date".to_string(),
            Arc::new(arrow_array::Date32Array::from_iter_values(0..n as i32)),
        ),
        (
            "time".to_string(),
            Arc::new(arrow_array::Time64NanosecondArray::from_iter_values(0..n as i64)),
        ),
        (
            "small".to_string(),
            Arc::new(arrow_array::UInt8Array::from_iter_values((0..n).map(|i| i as u8))),
        ),
        (
            "half".to_string(),
            Arc::new(arrow_array::Float16Array::new_null(n)),
        ),
        ("nothing".to_string(), Arc::new(arrow_array::NullArray::new(n))),
    ];
    let mut fields: Vec<Field> = Vec::new();
    let mut arrays: Vec<ArrayRef> = Vec::new();
    for (name, array) in others {
        fields.push(Field::new(name, array.data_type().clone(), true));
        arrays.push(array);
    }
    for i in 0..150 {
        fields.push(Field::new(format!("c{i}"), DataType::Float64, true));
        arrays.push(Arc::new(arrow_array::Float64Array::from(vec![i as f64; n])));
    }
    fields.extend(schema().fields().iter().map(|f| f.as_ref().clone()));
    arrays.extend(rows(n as i64));
    let file = written(Schema::new(fields), arrays, props().build());
    let back = read_parquet(&file).expect("read");
    assert_eq!(back.ticks().to_vec(), direct(&file).expect("direct"));
    assert_eq!(back.ticks()[5].volume, QtyLots(12));
}

#[test]
fn a_group_in_the_place_of_a_column_is_named_with_its_type() {
    let inner = Arc::new(Field::new("inner", DataType::Int64, false));
    let array = arrow_array::StructArray::from(vec![(
        inner,
        Arc::new(Int64Array::from(vec![1i64, 2])) as ArrayRef,
    )]);
    let mut arrays = rows(2);
    let form = with_column(0, Field::new("exch_ts", array.data_type().clone(), false));
    arrays[0] = Arc::new(array);
    let file = written(form, arrays, props().build());
    let text = read_parquet(&file).expect_err("refused").to_text();
    assert_eq!(Err(text), direct(&file));
}

/// A file without rows that has a schema.
fn bare(schema: &str) -> Vec<u8> {
    let schema = Arc::new(parquet::schema::parser::parse_message_type(schema).expect("schema"));
    let writer = parquet::file::writer::SerializedFileWriter::new(
        Vec::new(),
        schema,
        Arc::new(props().build()),
    )
    .expect("writer");
    writer.into_inner().expect("close")
}

#[test]
fn a_schema_that_the_reader_stops_on_is_refused() {
    let refused = format!("parquet: {NOT_IN_ORDER}");
    let map = bare("message m { optional group a (MAP) { repeated int64 key; } }");
    assert_eq!(read_parquet(&map).expect_err("refused").to_text(), refused);
    let mut deep = "required int64 a;".to_string();
    for _ in 0..70 {
        deep = format!("required group a {{ {deep} }}");
    }
    let deep = bare(&format!("message m {{ {deep} }}"));
    assert_eq!(read_parquet(&deep).expect_err("refused").to_text(), refused);
    let whole = bare("message m { optional group a (LIST) { repeated int64 key; } }");
    assert_eq!(
        read_parquet(&whole).expect_err("refused").to_text(),
        "column `exch_ts` is missing"
    );
}

#[test]
fn no_damaged_byte_stops_the_program() {
    let file = write_parquet(&sample(40)).expect("write");
    for at in 0..file.len() {
        for flip in [0x01u8, 0x80, 0xFF] {
            let mut damaged = file.clone();
            damaged[at] ^= flip;
            let _ = read_parquet(&damaged);
        }
    }
    for end in 0..file.len() {
        assert!(read_parquet(&file[..end]).is_err());
    }
}

/// A damaged byte of a page either stops neither reader or is refused before the
/// outside one is run; where it is run, what it says is kept.
fn damage_pages(files: &[Vec<u8>]) {
    for (k, file) in files.iter().enumerate() {
        let n = file.len();
        let footer = u32::from_le_bytes([file[n - 8], file[n - 7], file[n - 6], file[n - 5]]);
        for at in (4 + k % 8..n - 8 - footer as usize).step_by(8) {
            let mut damaged = file.clone();
            damaged[at] ^= [0x01u8, 0x80, 0xFF][(at / 8) % 3];
            match read_parquet(&damaged) {
                Ok(back) => assert_eq!(back.ticks().to_vec(), direct(&damaged).expect("direct")),
                Err(Error::Parquet(said)) if said != NOT_IN_ORDER => {
                    assert_eq!(Err(said), direct(&damaged));
                }
                Err(_) => {}
            }
        }
    }
}

#[test]
fn no_damaged_page_of_the_first_version_stops_the_program() {
    damage_pages(&forms(5)[..32]);
}

#[test]
fn no_damaged_page_of_the_second_version_stops_the_program() {
    damage_pages(&forms(5)[32..]);
}

#[test]
fn what_the_outside_reader_says_of_bytes_that_are_no_file_is_kept() {
    for bytes in [&b""[..], &b"PAR1"[..], &b"not a parquet file"[..], &b"....PAR1PAR1"[..]] {
        let text = direct(bytes).expect_err("refused");
        match read_parquet(bytes) {
            Err(Error::Parquet(said)) => assert_eq!(said, text),
            other => panic!("expected a refusal, got {other:?}"),
        }
    }
}

#[test]
fn a_message_is_searched_for_a_union_of_too_many_kinds() {
    let text: Vec<char> = "TWFuIQ==".chars().collect();
    assert_eq!(message_of(&text), b"Man!\0\0".to_vec());
    let union = |kind: u8, count: u32| {
        let mut m = vec![0u8; 36 + 4 * count as usize];
        // The slots, sixteen bytes of them; the table right behind.
        m[0] = 16;
        m[8] = 8;
        m[14] = 12;
        m[16] = 16;
        m[24] = kind;
        m[28] = 4;
        m[32..36].copy_from_slice(&count.to_le_bytes());
        m
    };
    assert!(!is_message_sound(&union(14, 129)));
    assert!(is_message_sound(&union(14, 128)));
    assert!(is_message_sound(&union(13, 129)));
    let mut cut = union(14, 129);
    cut.pop();
    assert!(is_message_sound(&cut));
}

#[test]
fn the_columns_of_ticks_are_picked_wherever_they_stand() {
    let field = |name: &str, kind: Result<bool, String>| SchemaField {
        name: name.to_string(),
        kind,
    };
    let mut fields: Vec<SchemaField> = COLUMNS.iter().map(|n| field(n, Ok(false))).collect();
    fields.reverse();
    fields.push(field("ask", Err("Utf8".to_string())));
    fields[7].kind = Ok(true);
    let mut roots: Vec<String> = vec!["group".to_string(), "group".to_string()];
    roots.extend(fields.iter().map(|f| f.name.clone()));
    assert_eq!(
        pick(&fields, &roots).expect("whole"),
        vec![
            (9, true),
            (8, false),
            (7, false),
            (6, false),
            (5, false),
            (4, false),
            (3, false),
            (2, false)
        ]
    );
    fields[6].kind = Err("Utf8".to_string());
    assert_eq!(
        pick(&fields, &roots).expect_err("refused").to_text(),
        "column `local_ts` is Utf8, expected Int64"
    );
    fields.remove(7);
    assert_eq!(
        pick(&fields, &roots).expect_err("refused").to_text(),
        "column `exch_ts` is missing"
    );
}
