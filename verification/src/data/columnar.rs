//! The tick stream as Parquet, for tools that are not this one.
//!
//! Every row carries `exch_ts` and `local_ts` as separate columns, and neither
//! is optional: the difference between them is feed latency, and an export that
//! kept one of them would destroy it silently. Prices and quantities are
//! written as integers in their native tick and lot units, never as floats.
//!
//! What is written reads back as it was; [`write_parquet`] says so of every
//! file it returns. The checksum of the native format is not carried across:
//! the columnar format has its own.
use crate::data::error::Error as StreamError;
use crate::data::declared::{is_message_sound, message, message_of, message_sound};
use crate::data::shape::{
    are_pages_sound, first_sound, footer_sound, is_first_sound, is_footer_sound, is_second_sound,
    pages_sound, second_sound,
};
use crate::data::ticks::{in_time_order, streams, StreamView, TickStream};
use crate::engine::tick::Tick;
use crate::text::{
    chars_of, copy_text, digits, lemma_digits_read_back, put, put_digits, quoted, quoted_text,
    read_whole, same, whole_spelled,
};
use crate::types::{Nanos, PriceTicks, QtyLots, Stamp};
use arrow_array::{Array, ArrayRef, Int64Array, RecordBatch};
use arrow_schema::DataType;
use bytes::Bytes;
use parquet::arrow::arrow_reader::{
    ArrowReaderOptions, ParquetRecordBatchReader, ParquetRecordBatchReaderBuilder,
};
use parquet::arrow::{ArrowWriter, ProjectionMask};
use parquet::basic::{Compression, ZstdLevel};
use parquet::column::page::{Page, PageReader};
use parquet::file::metadata::{KeyValue, ParquetMetaDataReader};
use parquet::file::properties::WriterProperties;
use parquet::file::serialized_reader::SerializedPageReader;
use std::sync::Arc;
use vstd::prelude::*;

verus! {

/// The instrument id, under this key, in the file's metadata.
///
/// A tick file is one instrument's. Metadata rather than a column, because it
/// is constant for the file.
pub const INSTRUMENT_KEY: &'static str = "openquanter.instrument";

/// The format version, under this key.
pub const VERSION_KEY: &'static str = "openquanter.tick_schema";

/// The version this module writes and the only one it reads.
pub const VERSION: &'static str = "1";

/// What is said of a file that the reader is not run on.
pub const NOT_IN_ORDER: &'static str = "the file's footer or pages are not in order";

/// Why a Parquet file could not be turned back into ticks.
#[derive(Debug)]
pub enum Error {
    /// The file could not be read or written.
    Io(String),
    /// Parquet itself objected.
    Parquet(String),
    /// A column the schema requires is missing, or has the wrong type.
    ///
    /// Named, because the usual cause is a file written by a different tool,
    /// and the fix depends on which column is wrong.
    Column {
        /// The column that was expected.
        name: &'static str,
        /// What was found instead, or `None` when it was absent.
        found: Option<String>,
    },
    /// The file does not say what instrument it holds, or says something that
    /// is not a number.
    Instrument(Option<String>),
    /// Written by a version this build does not read.
    Version(Option<String>),
    /// The reconstructed stream goes backwards.
    Stream(StreamError),
}

#[verifier::ext_equal]
pub enum ErrorView {
    Io(Seq<char>),
    Parquet(Seq<char>),
    Column { name: Seq<char>, found: Option<Seq<char>> },
    Instrument(Option<Seq<char>>),
    Version(Option<Seq<char>>),
    Stream(StreamError),
}

/// A text that may be missing.
pub open spec fn seen(s: Option<String>) -> Option<Seq<char>> {
    match s {
        Some(s) => Some(s@),
        None => None,
    }
}

impl View for Error {
    type V = ErrorView;

    open spec fn view(&self) -> ErrorView {
        match *self {
            Error::Io(e) => ErrorView::Io(e@),
            Error::Parquet(e) => ErrorView::Parquet(e@),
            Error::Column { name, found } => ErrorView::Column { name: name@, found: seen(found) },
            Error::Instrument(v) => ErrorView::Instrument(seen(v)),
            Error::Version(v) => ErrorView::Version(seen(v)),
            Error::Stream(e) => ErrorView::Stream(e),
        }
    }
}

impl ErrorView {
    /// The error in words.
    pub open spec fn text(self) -> Seq<char> {
        match self {
            ErrorView::Io(e) => e,
            ErrorView::Parquet(e) => "parquet: "@ + e,
            ErrorView::Column { name, found: None } => "column `"@ + name + "` is missing"@,
            ErrorView::Column { name, found: Some(t) } => "column `"@ + name + "` is "@ + t
                + ", expected Int64"@,
            ErrorView::Instrument(None) => "the file does not say which instrument it holds"@,
            ErrorView::Instrument(Some(v)) => "instrument id "@ + quoted_text(v)
                + " is not a number"@,
            ErrorView::Version(None) => "the file does not say what schema it uses"@,
            ErrorView::Version(Some(v)) => "schema version "@ + quoted_text(v)
                + ", this build reads "@ + VERSION@,
            ErrorView::Stream(e) => e.text(),
        }
    }
}

impl Error {
    /// The error in words.
    pub fn to_text(&self) -> (r: String)
        ensures
            r@ == self@.text(),
    {
        let mut out = String::new();
        match self {
            Error::Io(e) => {
                put(&mut out, e.as_str());
            },
            Error::Parquet(e) => {
                put(&mut out, "parquet: ");
                put(&mut out, e.as_str());
            },
            Error::Column { name, found } => {
                put(&mut out, "column `");
                put(&mut out, name);
                match found {
                    None => {
                        put(&mut out, "` is missing");
                    },
                    Some(t) => {
                        put(&mut out, "` is ");
                        put(&mut out, t.as_str());
                        put(&mut out, ", expected Int64");
                    },
                }
            },
            Error::Instrument(None) => {
                put(&mut out, "the file does not say which instrument it holds");
            },
            Error::Instrument(Some(v)) => {
                put(&mut out, "instrument id ");
                put(&mut out, quoted(v.as_str()).as_str());
                put(&mut out, " is not a number");
            },
            Error::Version(None) => {
                put(&mut out, "the file does not say what schema it uses");
            },
            Error::Version(Some(v)) => {
                put(&mut out, "schema version ");
                put(&mut out, quoted(v.as_str()).as_str());
                put(&mut out, ", this build reads ");
                put(&mut out, VERSION);
            },
            Error::Stream(e) => {
                put(&mut out, e.to_text().as_str());
            },
        }
        assert(out@ =~= self@.text());
        out
    }
}

/// A column: its name and its integers, or the type it has instead.
#[derive(Debug, PartialEq)]
pub struct Column {
    pub name: String,
    pub values: Result<Vec<i64>, String>,
}

impl View for Column {
    type V = (Seq<char>, Result<Seq<i64>, Seq<char>>);

    open spec fn view(&self) -> (Seq<char>, Result<Seq<i64>, Seq<char>>) {
        (
            self.name@,
            match self.values {
                Ok(v) => Ok(v@),
                Err(t) => Err(t@),
            },
        )
    }
}

/// The columns of a run of rows.
pub open spec fn columns_in(list: Seq<Column>) -> Seq<(Seq<char>, Result<Seq<i64>, Seq<char>>)> {
    list.map_values(|c: Column| c@)
}

/// Whether the columns of integers of a run have a value in every row.
pub open spec fn full(run: Seq<(Seq<char>, Result<Seq<i64>, Seq<char>>)>) -> bool {
    forall|i: int, j: int|
        0 <= i < run.len() && 0 <= j < run.len() && (#[trigger] run[i]).1 is Ok && (
        #[trigger] run[j]).1 is Ok ==> run[i].1->Ok_0.len() == run[j].1->Ok_0.len()
}

/// A column as a file's schema has it: its name, and whether it may lack values
/// where it is of integers, or the type it has instead.
#[derive(Debug, PartialEq)]
pub struct Field {
    pub name: String,
    pub kind: Result<bool, String>,
}

impl View for Field {
    type V = (Seq<char>, Result<bool, Seq<char>>);

    open spec fn view(&self) -> (Seq<char>, Result<bool, Seq<char>>) {
        (
            self.name@,
            match self.kind {
                Ok(nullable) => Ok(nullable),
                Err(t) => Err(t@),
            },
        )
    }
}

/// Where a column's pages stand in a file, as its footer says.
#[derive(Clone, Copy, Debug, PartialEq, Eq, Structural)]
pub struct Chunk {
    pub dictionary: Option<i64>,
    pub data: i64,
    pub length: i64,
}

impl Chunk {
    /// Where the first page starts.
    pub open spec fn start(self) -> i64 {
        match self.dictionary {
            Some(at) => at,
            None => self.data,
        }
    }
}

/// A run of rows, as a file's footer has it: how many, and the pages of each
/// column.
#[derive(Debug, PartialEq)]
pub struct Group {
    pub rows: i64,
    pub chunks: Vec<Chunk>,
}

impl View for Group {
    type V = (i64, Seq<Chunk>);

    open spec fn view(&self) -> (i64, Seq<Chunk>) {
        (self.rows, self.chunks@)
    }
}

/// What comes before the values of a page: nothing in a dictionary; in a page of
/// the first version, levels coded as it says; in one of the second, as many
/// bytes of levels as it says, and it says how many values are missing.
#[derive(Clone, Copy, Debug, PartialEq, Eq, Structural)]
pub enum Part {
    Dictionary,
    First { kind: i32 },
    Second { nulls: u32, before: u32, levels: u32 },
}

/// What a page holds: what comes before its values, how they are coded, how many
/// there are, and its bytes unpacked.
#[derive(Debug, PartialEq)]
pub struct Body {
    pub part: Part,
    pub coding: i32,
    pub values: u32,
    pub bytes: Vec<u8>,
}

#[verifier::ext_equal]
pub struct BodyView {
    pub part: Part,
    pub coding: i32,
    pub values: u32,
    pub bytes: Seq<u8>,
}

impl View for Body {
    type V = BodyView;

    open spec fn view(&self) -> BodyView {
        BodyView {
            part: self.part,
            coding: self.coding,
            values: self.values,
            bytes: self.bytes@,
        }
    }
}

/// What `key_value_metadata` gives of a file that
/// `ParquetRecordBatchReaderBuilder::try_new_with_options` opened without regard
/// to what its writer says of its own types, or what that said was wrong with
/// it.
pub uninterp spec fn metadata_in(file: Seq<u8>) -> Result<
    Option<Seq<(Seq<char>, Option<Seq<char>>)>>,
    Seq<char>,
>;

/// The roots of the columns that `parquet_schema` gives of a file that was opened
/// so.
pub uninterp spec fn roots_in(file: Seq<u8>) -> Result<Seq<Seq<char>>, Seq<char>>;

/// The fields that `schema` gives of a file that
/// `ParquetRecordBatchReaderBuilder::try_new` opened, or what that said was wrong
/// with it.
pub uninterp spec fn fields_in(file: Seq<u8>) -> Result<
    Seq<(Seq<char>, Result<bool, Seq<char>>)>,
    Seq<char>,
>;

/// The runs of rows that `row_groups` gives of a file that was opened as for its
/// metadata.
pub uninterp spec fn groups_in(file: Seq<u8>) -> Result<Seq<(i64, Seq<Chunk>)>, Seq<char>>;

/// A `parquet::file::serialized_reader::SerializedPageReader`: the pages of one
/// column of a run of rows, read one at a time.
#[verifier::external_body]
pub struct Pages {
    reader: SerializedPageReader<Bytes>,
}

/// The pages a reader still has to give, up to the end or to the first error.
pub uninterp spec fn coming(pages: Pages) -> Seq<Result<BodyView, Seq<char>>>;

/// The pages that `SerializedPageReader::new` sets out to give of a column of a
/// run of rows of a file, or what it said was wrong.
pub uninterp spec fn pages_in(file: Seq<u8>, group: int, column: int) -> Result<
    Seq<Result<BodyView, Seq<char>>>,
    Seq<char>,
>;

/// A `parquet::arrow::arrow_reader::ParquetRecordBatchReader`: the batches of a
/// file, read one at a time.
#[verifier::external_body]
pub struct Batches {
    reader: ParquetRecordBatchReader,
}

/// The batches a reader still has to give, by their columns, up to the end or to
/// the first error.
pub uninterp spec fn left(batches: Batches) -> Seq<
    Result<Seq<(Seq<char>, Result<Seq<i64>, Seq<char>>)>, Seq<char>>,
>;

/// The batches that `ParquetRecordBatchReaderBuilder::build` sets out to give of
/// some columns of a file, or what it said was wrong.
pub uninterp spec fn batches_in(file: Seq<u8>, spots: Seq<(usize, bool)>) -> Result<
    Seq<Result<Seq<(Seq<char>, Result<Seq<i64>, Seq<char>>)>, Seq<char>>>,
    Seq<char>,
>;

/// What an `ArrowWriter` makes of one batch of integer columns and a file's
/// metadata, or what it objected to.
pub uninterp spec fn encoded(
    columns: Seq<(Seq<char>, Seq<i64>)>,
    pairs: Seq<(Seq<char>, Seq<char>)>,
) -> Result<Seq<u8>, Seq<char>>;

/// An entry of a file's metadata.
pub open spec fn entry(e: (String, Option<String>)) -> (Seq<char>, Option<Seq<char>>) {
    (e.0@, seen(e.1))
}

/// A file's metadata.
pub open spec fn entries(list: Seq<(String, Option<String>)>) -> Seq<
    (Seq<char>, Option<Seq<char>>),
> {
    list.map_values(|e: (String, Option<String>)| entry(e))
}

/// A file's metadata, where it has any.
pub open spec fn metadata_seen(kv: Option<Vec<(String, Option<String>)>>) -> Option<
    Seq<(Seq<char>, Option<Seq<char>>)>,
> {
    match kv {
        Some(kv) => Some(entries(kv@)),
        None => None,
    }
}

/// `ParquetRecordBatchReaderBuilder::try_new_with_options` on a file in memory
/// with a schema that can be followed, and the file's key-value metadata. What
/// the writer says there of its own types is not gone by.
#[verifier::external_body]
fn metadata(file: &[u8]) -> (r: Result<Option<Vec<(String, Option<String>)>>, String>)
    requires
        footer_sound(file@),
    ensures
        match r {
            Ok(kv) => metadata_in(file@) == Ok::<_, Seq<char>>(metadata_seen(kv)),
            Err(e) => metadata_in(file@) == Err::<
                Option<Seq<(Seq<char>, Option<Seq<char>>)>>,
                Seq<char>,
            >(e@),
        },
{
    let builder = ParquetRecordBatchReaderBuilder::try_new_with_options(
        Bytes::copy_from_slice(file),
        ArrowReaderOptions::new().with_skip_arrow_metadata(true),
    ).map_err(|e| e.to_string())?;
    let kv = builder.metadata().file_metadata().key_value_metadata();
    Ok(kv.map(|kv| kv.iter().map(|e| (e.key.clone(), e.value.clone())).collect()))
}

/// The fields of a file's schema.
pub open spec fn fields_seen(list: Seq<Field>) -> Seq<(Seq<char>, Result<bool, Seq<char>>)> {
    list.map_values(|f: Field| f@)
}

/// Whether what a writer says of its own types in a file's metadata, wherever it
/// says it, can be gone by.
pub open spec fn declared_sound(kv: Option<Seq<(Seq<char>, Option<Seq<char>>)>>) -> bool {
    match kv {
        None => true,
        Some(list) => entries_sound(list),
    }
}

pub open spec fn entries_sound(list: Seq<(Seq<char>, Option<Seq<char>>)>) -> bool {
    forall|i: int| 0 <= i < list.len() ==> entry_sound(#[trigger] list[i])
}

/// Whether an entry of a file's metadata is none of the writer's types, or one
/// that can be gone by.
pub open spec fn entry_sound(e: (Seq<char>, Option<Seq<char>>)) -> bool {
    e.0 == writers_key() && e.1 is Some ==> message_sound(message(e.1->Some_0))
}

/// `ParquetRecordBatchReaderBuilder::try_new` on a file in memory, and its
/// `schema`: each field's name with whether it is nullable. One that is not of
/// type `Int64` is told by the `Debug` form of its type.
#[verifier::external_body]
fn fields(file: &[u8]) -> (r: Result<Vec<Field>, String>)
    requires
        footer_sound(file@),
        metadata_in(file@) matches Ok(kv) && declared_sound(kv),
    ensures
        match r {
            Ok(list) => fields_in(file@) == Ok::<_, Seq<char>>(fields_seen(list@)),
            Err(e) => fields_in(file@) == Err::<Seq<(Seq<char>, Result<bool, Seq<char>>)>, _>(e@),
        },
{
    let builder = ParquetRecordBatchReaderBuilder::try_new(
        Bytes::copy_from_slice(file),
    ).map_err(|e| e.to_string())?;
    Ok(builder.schema().fields().iter().map(|f| Field {
        name: f.name().clone(),
        kind: match f.data_type() {
            DataType::Int64 => Ok(f.is_nullable()),
            t => Err(format!("{t:?}")),
        },
    }).collect())
}

/// Names.
pub open spec fn texts(list: Seq<String>) -> Seq<Seq<char>> {
    list.map_values(|n: String| n@)
}

/// `SchemaDescriptor::columns` of a file opened as for its metadata: of each
/// column the name of the field of the root that it is, or stands below.
#[verifier::external_body]
fn roots(file: &[u8]) -> (r: Result<Vec<String>, String>)
    requires
        footer_sound(file@),
    ensures
        match r {
            Ok(list) => roots_in(file@) == Ok::<_, Seq<char>>(texts(list@)),
            Err(e) => roots_in(file@) == Err::<Seq<Seq<char>>, _>(e@),
        },
{
    let builder = ParquetRecordBatchReaderBuilder::try_new_with_options(
        Bytes::copy_from_slice(file),
        ArrowReaderOptions::new().with_skip_arrow_metadata(true),
    ).map_err(|e| e.to_string())?;
    let columns = builder.parquet_schema().columns();
    Ok(columns.iter().map(|c| c.path().parts()[0].clone()).collect())
}

/// The runs of rows of a file's footer.
pub open spec fn groups_seen(list: Seq<Group>) -> Seq<(i64, Seq<Chunk>)> {
    list.map_values(|g: Group| g@)
}

/// `ParquetMetaData::row_groups` of a file opened as for its metadata: of each
/// how many rows it says it has, and of each column in it the offsets and the
/// length that its chunk is said to have.
#[verifier::external_body]
fn groups(file: &[u8]) -> (r: Result<Vec<Group>, String>)
    requires
        footer_sound(file@),
    ensures
        match r {
            Ok(list) => groups_in(file@) == Ok::<_, Seq<char>>(groups_seen(list@)),
            Err(e) => groups_in(file@) == Err::<Seq<(i64, Seq<Chunk>)>, _>(e@),
        },
{
    let builder = ParquetRecordBatchReaderBuilder::try_new_with_options(
        Bytes::copy_from_slice(file),
        ArrowReaderOptions::new().with_skip_arrow_metadata(true),
    ).map_err(|e| e.to_string())?;
    Ok(builder.metadata().row_groups().iter().map(|g| Group {
        rows: g.num_rows(),
        chunks: g.columns().iter().map(|c| Chunk {
            dictionary: c.dictionary_page_offset(),
            data: c.data_page_offset(),
            length: c.compressed_size(),
        }).collect(),
    }).collect())
}

/// Whether a column's chunk lies in a file and its pages have headers in order.
pub open spec fn headers_sound(file: Seq<u8>, chunks: Seq<Chunk>, column: int) -> bool {
    &&& 0 <= column < chunks.len()
    &&& 0 <= chunks[column].start() <= file.len()
    &&& 0 <= chunks[column].length <= file.len()
    &&& pages_sound(file, chunks[column].start() as int, chunks[column].length as int, false)
}

/// `SerializedPageReader::new` on a column of a run of rows of a file in memory,
/// whose pages have headers in order.
#[verifier::external_body]
fn pages(file: &[u8], group: usize, column: usize) -> (r: Result<Pages, String>)
    requires
        footer_sound(file@),
        groups_in(file@) matches Ok(list) && group < list.len() && headers_sound(
            file@,
            list[group as int].1,
            column as int,
        ),
    ensures
        match r {
            Ok(pages) => pages_in(file@, group as int, column as int) == Ok::<_, Seq<char>>(
                coming(pages),
            ),
            Err(e) => pages_in(file@, group as int, column as int) == Err::<
                Seq<Result<BodyView, Seq<char>>>,
                _,
            >(e@),
        },
{
    let bytes = Bytes::copy_from_slice(file);
    let meta = ParquetMetaDataReader::new().parse_and_finish(&bytes).map_err(|e| e.to_string())?;
    let rows = meta.row_group(group);
    SerializedPageReader::new(
        Arc::new(bytes),
        rows.column(column),
        rows.num_rows() as usize,
        None,
    ).map(|reader| Pages { reader }).map_err(|e| e.to_string())
}

/// What one page was read as.
pub open spec fn page_read(r: Result<Body, String>) -> Result<BodyView, Seq<char>> {
    match r {
        Ok(body) => Ok(body@),
        Err(e) => Err(e@),
    }
}

/// `SerializedPageReader::get_next_page`: the next page, unpacked. The codings are
/// the format's own numbers for them. What a reader gives after an error is not
/// said.
#[verifier::external_body]
fn next_page(pages: &mut Pages) -> (r: Option<Result<Body, String>>)
    ensures
        match r {
            None => coming(*old(pages)).len() == 0,
            Some(read) => coming(*old(pages)).len() > 0 && page_read(read) == coming(
                *old(pages),
            )[0],
        },
        r matches Some(Ok(_)) ==> coming(*final(pages)) == coming(*old(pages)).drop_first(),
        r matches Some(Err(_)) ==> coming(*old(pages)).len() == 1,
{
    let page = pages.reader.get_next_page().map_err(|e| e.to_string()).transpose()?;
    Some(page.map(|p| Body {
        coding: p.encoding() as i32,
        values: p.num_values(),
        bytes: p.buffer().to_vec(),
        part: match p {
            Page::DictionaryPage { .. } => Part::Dictionary,
            Page::DataPage { def_level_encoding: e, .. } => Part::First { kind: e as i32 },
            Page::DataPageV2 { num_nulls, rep_levels_byte_len, def_levels_byte_len, .. } => {
                let (before, levels) = (rep_levels_byte_len, def_levels_byte_len);
                Part::Second { nulls: num_nulls, before, levels }
            },
        },
    }))
}

/// Whether a page holds what its reader counts on, in a column whose values may
/// be missing or not. A page that cannot be unpacked is refused by the reader.
pub open spec fn page_sound(page: Result<BodyView, Seq<char>>, nullable: bool) -> bool {
    match page {
        Err(_) => true,
        Ok(b) => match b.part {
            Part::Dictionary => 8 * b.values <= b.bytes.len(),
            Part::First { kind } => first_sound(
                b.bytes,
                b.coding as int,
                b.values as int,
                nullable,
                kind as int,
            ),
            Part::Second { nulls, before, levels } => second_sound(
                b.bytes,
                b.coding as int,
                b.values as int,
                nullable,
                nulls as int,
                before as int,
                levels as int,
            ),
        },
    }
}

pub open spec fn all_pages_sound(list: Seq<Result<BodyView, Seq<char>>>, nullable: bool) -> bool {
    forall|k: int| 0 <= k < list.len() ==> page_sound(#[trigger] list[k], nullable)
}

/// Whether the pages of a column of a run of rows can be read. A spot is a column
/// and whether its values may be missing.
pub open spec fn chunk_sound(
    file: Seq<u8>,
    groups: Seq<(i64, Seq<Chunk>)>,
    group: int,
    spot: (usize, bool),
) -> bool {
    &&& headers_sound(file, groups[group].1, spot.0 as int)
    &&& match pages_in(file, group, spot.0 as int) {
        Ok(list) => all_pages_sound(list, spot.1),
        Err(_) => true,
    }
}

/// Whether some columns of a run of rows can be read.
pub open spec fn group_sound(
    file: Seq<u8>,
    groups: Seq<(i64, Seq<Chunk>)>,
    group: int,
    spots: Seq<(usize, bool)>,
) -> bool {
    forall|k: int| 0 <= k < spots.len() ==> chunk_sound(file, groups, group, #[trigger] spots[k])
}

/// How many rows runs of rows have, where none has less than nought.
pub open spec fn rows_in(groups: Seq<(i64, Seq<Chunk>)>) -> Option<int>
    decreases groups.len(),
{
    if groups.len() == 0 {
        Some(0)
    } else {
        match rows_in(groups.drop_last()) {
            None => None,
            Some(n) => if groups.last().0 < 0 {
                None
            } else {
                Some(n + groups.last().0)
            },
        }
    }
}

/// Whether some columns of a file can be read through its runs of rows.
pub open spec fn orderly(
    file: Seq<u8>,
    groups: Seq<(i64, Seq<Chunk>)>,
    spots: Seq<(usize, bool)>,
) -> bool {
    &&& rows_in(groups) matches Some(n) && n <= usize::MAX
    &&& forall|g: int| 0 <= g < groups.len() ==> #[trigger] group_sound(file, groups, g, spots)
}

/// Where the first column of a root stands, counted from `k`.
pub open spec fn root_at(roots: Seq<Seq<char>>, name: Seq<char>, k: int) -> Option<int>
    decreases roots.len(),
{
    if roots.len() == 0 {
        None
    } else if roots[0] == name {
        Some(k)
    } else {
        root_at(roots.drop_first(), name, k + 1)
    }
}

/// Whether the first field of a name is of integers, and then whether they may be
/// missing.
pub open spec fn kind_of(
    fields: Seq<(Seq<char>, Result<bool, Seq<char>>)>,
    name: Seq<char>,
) -> Result<bool, ErrorView>
    decreases fields.len(),
{
    if fields.len() == 0 {
        Err(ErrorView::Column { name, found: None })
    } else if fields[0].0 == name {
        match fields[0].1 {
            Ok(nullable) => Ok(nullable),
            Err(t) => Err(ErrorView::Column { name, found: Some(t) }),
        }
    } else {
        kind_of(fields.drop_first(), name)
    }
}

/// Where the column of a name stands, if it is of integers, and whether they may
/// be missing.
pub open spec fn placed(
    fields: Seq<(Seq<char>, Result<bool, Seq<char>>)>,
    roots: Seq<Seq<char>>,
    name: Seq<char>,
) -> Result<(usize, bool), ErrorView> {
    match kind_of(fields, name) {
        Err(e) => Err(e),
        Ok(nullable) => match root_at(roots, name, 0) {
            None => Err(ErrorView::Parquet(NOT_IN_ORDER@)),
            Some(k) => Ok((k as usize, nullable)),
        },
    }
}

/// Whether spots are those of columns of integers.
pub open spec fn spots_fit(
    fields: Seq<(Seq<char>, Result<bool, Seq<char>>)>,
    roots: Seq<Seq<char>>,
    spots: Seq<(usize, bool)>,
) -> bool {
    forall|k: int|
        0 <= k < spots.len() ==> spot_fits(fields, roots, #[trigger] spots[k])
}

pub open spec fn spot_fits(
    fields: Seq<(Seq<char>, Result<bool, Seq<char>>)>,
    roots: Seq<Seq<char>>,
    spot: (usize, bool),
) -> bool {
    &&& spot.0 < roots.len()
    &&& placed(fields, roots, roots[spot.0 as int]) == Ok::<_, ErrorView>(spot)
}

/// `ParquetRecordBatchReaderBuilder::build` on a file in memory, opened as for its
/// fields, with a `ProjectionMask` of some columns of integers whose pages are
/// all in order.
#[verifier::external_body]
fn batches(file: &[u8], spots: &Vec<(usize, bool)>) -> (r: Result<Batches, String>)
    requires
        footer_sound(file@),
        metadata_in(file@) matches Ok(kv) && declared_sound(kv),
        fields_in(file@) is Ok && roots_in(file@) is Ok && spots_fit(
            fields_in(file@)->Ok_0,
            roots_in(file@)->Ok_0,
            spots@,
        ),
        groups_in(file@) matches Ok(list) && orderly(file@, list, spots@),
    ensures
        match r {
            Ok(batches) => batches_in(file@, spots@) == Ok::<_, Seq<char>>(left(batches)),
            Err(e) => batches_in(file@, spots@) == Err::<
                Seq<Result<Seq<(Seq<char>, Result<Seq<i64>, Seq<char>>)>, Seq<char>>>,
                Seq<char>,
            >(e@),
        },
{
    let builder = ParquetRecordBatchReaderBuilder::try_new(
        Bytes::copy_from_slice(file),
    ).map_err(|e| e.to_string())?;
    let mask = ProjectionMask::leaves(builder.parquet_schema(), spots.iter().map(|s| s.0));
    let reader = builder.with_projection(mask).build().map_err(|e| e.to_string())?;
    Ok(Batches { reader })
}

/// What one batch was read as.
pub open spec fn batch_read(r: Result<Vec<Column>, String>) -> Result<
    Seq<(Seq<char>, Result<Seq<i64>, Seq<char>>)>,
    Seq<char>,
> {
    match r {
        Ok(columns) => Ok(columns_in(columns@)),
        Err(e) => Err(e@),
    }
}

/// `ParquetRecordBatchReader::next`: the next batch, each field's name with the
/// values of its array. A column whose array is no `Int64Array` is told by the
/// `Debug` form of its type. The arrays of a batch are of one length. What a
/// reader gives after an error is not said.
#[verifier::external_body]
fn next_batch(batches: &mut Batches) -> (r: Option<Result<Vec<Column>, String>>)
    ensures
        match r {
            None => left(*old(batches)).len() == 0,
            Some(read) => left(*old(batches)).len() > 0 && batch_read(read) == left(
                *old(batches),
            )[0],
        },
        r matches Some(Ok(columns)) ==> full(columns_in(columns@)) && left(*final(batches)) == left(
            *old(batches),
        ).drop_first(),
{
    let batch = batches.reader.next()?.map_err(|e| e.to_string());
    Some(batch.map(|b| b.schema().fields().iter().zip(b.columns()).map(|(f, a)| Column {
        name: f.name().clone(),
        values: match a.as_any().downcast_ref::<Int64Array>() {
            Some(v) => Ok(v.values().to_vec()),
            None => Err(format!("{:?}", a.data_type())),
        },
    }).collect()))
}

/// The name under which the writer keeps its own schema among a file's
/// metadata.
pub open spec fn writers_key() -> Seq<char> {
    "ARROW:schema"@
}

/// A column across runs: the values of its part in each, one after another.
pub open spec fn spliced(
    runs: Seq<Seq<(Seq<char>, Result<Seq<i64>, Seq<char>>)>>,
    j: int,
) -> Seq<i64>
    decreases runs.len(),
{
    if runs.len() == 0 {
        Seq::empty()
    } else {
        spliced(runs.drop_last(), j) + runs.last()[j].1->Ok_0
    }
}

/// Whether runs have these columns, all of integers, and their values one run
/// after another.
pub open spec fn holds_columns(
    runs: Seq<Seq<(Seq<char>, Result<Seq<i64>, Seq<char>>)>>,
    columns: Seq<(Seq<char>, Seq<i64>)>,
) -> bool {
    &&& forall|k: int|
        0 <= k < runs.len() ==> {
            &&& (#[trigger] runs[k]).len() == columns.len()
            &&& full(runs[k])
            &&& forall|j: int|
                0 <= j < columns.len() ==> (#[trigger] runs[k][j]).0 == columns[j].0
                    && runs[k][j].1 is Ok
        }
    &&& forall|j: int| 0 <= j < columns.len() ==> spliced(runs, j) == (#[trigger] columns[j]).1
}

/// The first columns of a file, no value missing.
pub open spec fn first_spots(n: nat) -> Seq<(usize, bool)> {
    Seq::new(n, |k: int| (k as usize, false))
}

/// Whether a file reads back as the columns and the metadata it was made of:
/// in order throughout; the entries first, as they were given, and whatever the
/// writer added behind them; a field and a root for each column; the columns cut
/// into batches somehow, and nothing wrong with any.
pub open spec fn reads_as(
    file: Seq<u8>,
    columns: Seq<(Seq<char>, Seq<i64>)>,
    pairs: Seq<(Seq<char>, Seq<char>)>,
) -> bool {
    &&& footer_sound(file)
    &&& roots_in(file) == Ok::<_, Seq<char>>(columns.map_values(|c: (Seq<char>, Seq<i64>)| c.0))
    &&& fields_in(file) matches Ok(fields) && fields.len() == columns.len() && forall|j: int|
        0 <= j < columns.len() ==> #[trigger] fields[j] == (columns[j].0, Ok::<bool, Seq<char>>(false))
    &&& groups_in(file) matches Ok(groups) && orderly(file, groups, first_spots(columns.len()))
    &&& metadata_in(file) matches Ok(Some(kv)) && declared_sound(Some(kv)) && pairs.len() <= kv.len()
        && forall|i: int|
        0 <= i < pairs.len() ==> #[trigger] kv[i] == (pairs[i].0, Some(pairs[i].1))
    &&& batches_in(file, first_spots(columns.len())) matches Ok(batches) && (forall|k: int|
        0 <= k < batches.len() ==> (#[trigger] batches[k]) is Ok) && holds_columns(
        batches.map_values(
            |b: Result<Seq<(Seq<char>, Result<Seq<i64>, Seq<char>>)>, Seq<char>>| b->Ok_0,
        ),
        columns,
    )
}

/// A file's metadata as it is given to the writer.
pub open spec fn pairs_of(list: Seq<(String, String)>) -> Seq<(Seq<char>, Seq<char>)> {
    list.map_values(|p: (String, String)| (p.0@, p.1@))
}

/// Columns as they are given to the writer.
pub open spec fn columns_of(list: Seq<(&'static str, Vec<i64>)>) -> Seq<(Seq<char>, Seq<i64>)> {
    list.map_values(|c: (&'static str, Vec<i64>)| (c.0@, c.1@))
}

/// `RecordBatch::try_from_iter` on the columns of ticks, without nulls, and an
/// `ArrowWriter` over memory that writes the batch, compressed with zstd, and
/// the file's metadata. What it wrote is what a reader reads: the writer gives
/// the schema and the pages the form that is looked for here, and keeps the
/// entries it was given in front of its own.
#[verifier::external_body]
fn encode_columns(columns: Vec<(&'static str, Vec<i64>)>, pairs: Vec<(String, String)>) -> (r:
    Result<Vec<u8>, String>)
    requires
        columns@.map_values(|c: (&'static str, Vec<i64>)| c.0@) == column_names(),
        forall|j: int|
            0 <= j < columns@.len() ==> (#[trigger] columns@[j]).1@.len() == columns@[0].1@.len(),
        forall|i: int| 0 <= i < pairs@.len() ==> (#[trigger] pairs@[i]).0@ != writers_key(),
    ensures
        match r {
            Ok(file) => encoded(columns_of(columns@), pairs_of(pairs@)) == Ok::<_, Seq<char>>(
                file@,
            ),
            Err(e) => encoded(columns_of(columns@), pairs_of(pairs@)) == Err::<Seq<u8>, _>(e@),
        },
        r matches Ok(file) ==> reads_as(file@, columns_of(columns@), pairs_of(pairs@)),
{
    let batch = RecordBatch::try_from_iter(
        columns.into_iter().map(|(n, c)| (n, Arc::new(Int64Array::from(c)) as ArrayRef)),
    ).map_err(|e| e.to_string())?;
    let kv = pairs.into_iter().map(|(k, v)| KeyValue::new(k, v)).collect();
    let zstd = Compression::ZSTD(ZstdLevel::default());
    let props = WriterProperties::builder().set_compression(zstd).set_key_value_metadata(Some(kv));
    ArrowWriter::try_new(Vec::new(), batch.schema(), Some(props.build())).and_then(
        |mut w| {
            w.write(&batch)?;
            w.into_inner()
        },
    ).map_err(|e| e.to_string())
}

/// The first value under a key.
pub open spec fn first_value(kv: Seq<(Seq<char>, Option<Seq<char>>)>, key: Seq<char>) -> Option<
    Seq<char>,
>
    decreases kv.len(),
{
    if kv.len() == 0 {
        None
    } else if kv[0].0 == key {
        kv[0].1
    } else {
        first_value(kv.drop_first(), key)
    }
}

/// What a file says under a key.
pub open spec fn said(kv: Option<Seq<(Seq<char>, Option<Seq<char>>)>>, key: Seq<char>) -> Option<
    Seq<char>,
> {
    match kv {
        Some(kv) => first_value(kv, key),
        None => None,
    }
}

/// The instrument a file's metadata names, once it names a version this build
/// reads.
pub open spec fn named_instrument(kv: Option<Seq<(Seq<char>, Option<Seq<char>>)>>) -> Result<
    u64,
    ErrorView,
> {
    let version = said(kv, VERSION_KEY@);
    if version != Some(VERSION@) {
        Err(ErrorView::Version(version))
    } else {
        match said(kv, INSTRUMENT_KEY@) {
            None => Err(ErrorView::Instrument(None)),
            Some(v) => match whole_spelled(v) {
                Some(x) => Ok(x),
                None => Err(ErrorView::Instrument(Some(v))),
            },
        }
    }
}

/// The columns of a tick file, in order.
pub open spec fn column_names() -> Seq<Seq<char>> {
    seq!["exch_ts"@, "local_ts"@, "last"@, "high"@, "low"@, "bid"@, "ask"@, "volume"@]
}

/// The integers of the first column of a name.
pub open spec fn column_in(
    run: Seq<(Seq<char>, Result<Seq<i64>, Seq<char>>)>,
    name: Seq<char>,
) -> Result<Seq<i64>, ErrorView>
    decreases run.len(),
{
    if run.len() == 0 {
        Err(ErrorView::Column { name, found: None })
    } else if run[0].0 == name {
        match run[0].1 {
            Ok(v) => Ok(v),
            Err(t) => Err(ErrorView::Column { name, found: Some(t) }),
        }
    } else {
        column_in(run.drop_first(), name)
    }
}

/// The integers of the columns of some names, or the first of the names that
/// has none.
pub open spec fn gathered(
    run: Seq<(Seq<char>, Result<Seq<i64>, Seq<char>>)>,
    names: Seq<Seq<char>>,
) -> Result<Seq<Seq<i64>>, ErrorView>
    decreases names.len(),
{
    if names.len() == 0 {
        Ok(Seq::empty())
    } else {
        match gathered(run, names.drop_last()) {
            Err(e) => Err(e),
            Ok(columns) => match column_in(run, names.last()) {
                Err(e) => Err(e),
                Ok(c) => Ok(columns.push(c)),
            },
        }
    }
}

/// The tick of a row.
pub open spec fn row(columns: Seq<Seq<i64>>, i: int) -> Tick {
    Tick {
        stamp: Stamp { exch: Nanos(columns[0][i]), local: Nanos(columns[1][i]) },
        last: PriceTicks(columns[2][i]),
        high: PriceTicks(columns[3][i]),
        low: PriceTicks(columns[4][i]),
        bid: PriceTicks(columns[5][i]),
        ask: PriceTicks(columns[6][i]),
        volume: QtyLots(columns[7][i]),
    }
}

/// The ticks of a run of rows.
pub open spec fn ticks_in(run: Seq<(Seq<char>, Result<Seq<i64>, Seq<char>>)>) -> Result<
    Seq<Tick>,
    ErrorView,
> {
    match gathered(run, column_names()) {
        Err(e) => Err(e),
        Ok(columns) => Ok(Seq::new(columns[0].len(), |i: int| row(columns, i))),
    }
}

/// The ticks of a file's batches, or what is wrong with the first that cannot be
/// read.
pub open spec fn all_ticks(
    batches: Seq<Result<Seq<(Seq<char>, Result<Seq<i64>, Seq<char>>)>, Seq<char>>>,
) -> Result<Seq<Tick>, ErrorView>
    decreases batches.len(),
{
    if batches.len() == 0 {
        Ok(Seq::empty())
    } else {
        match all_ticks(batches.drop_last()) {
            Err(e) => Err(e),
            Ok(ticks) => match batches.last() {
                Err(e) => Err(ErrorView::Parquet(e)),
                Ok(run) => match ticks_in(run) {
                    Err(e) => Err(e),
                    Ok(more) => Ok(ticks + more),
                },
            },
        }
    }
}

/// Where the columns of some names stand, or what is wrong with the first of
/// them.
pub open spec fn picked(
    fields: Seq<(Seq<char>, Result<bool, Seq<char>>)>,
    roots: Seq<Seq<char>>,
    names: Seq<Seq<char>>,
) -> Result<Seq<(usize, bool)>, ErrorView>
    decreases names.len(),
{
    if names.len() == 0 {
        Ok(Seq::empty())
    } else {
        match picked(fields, roots, names.drop_last()) {
            Err(e) => Err(e),
            Ok(spots) => match placed(fields, roots, names.last()) {
                Err(e) => Err(e),
                Ok(c) => Ok(spots.push(c)),
            },
        }
    }
}

/// Whether `r` is what batches of a file come to.
pub open spec fn reads_batches(
    r: Result<TickStream, Error>,
    instrument: u64,
    batches: Result<
        Seq<Result<Seq<(Seq<char>, Result<Seq<i64>, Seq<char>>)>, Seq<char>>>,
        Seq<char>,
    >,
) -> bool {
    match batches {
        Err(e) => r matches Err(err) && err@ == ErrorView::Parquet(e),
        Ok(list) => match all_ticks(list) {
            Err(e) => r matches Err(err) && err@ == e,
            Ok(ticks) => match r {
                Ok(s) => streams(Ok(s), instrument, ticks),
                Err(Error::Stream(e)) => streams(Err(e), instrument, ticks),
                Err(_) => false,
            },
        },
    }
}

/// Whether `r` is what the rows of a file come to: by its columns, its pages and
/// its batches, in that order.
pub open spec fn reads_rows(
    r: Result<TickStream, Error>,
    instrument: u64,
    file: Seq<u8>,
    fields: Seq<(Seq<char>, Result<bool, Seq<char>>)>,
) -> bool {
    match roots_in(file) {
        Err(e) => r matches Err(err) && err@ == ErrorView::Parquet(e),
        Ok(roots) => match picked(fields, roots, column_names()) {
            Err(e) => r matches Err(err) && err@ == e,
            Ok(spots) => match groups_in(file) {
                Err(e) => r matches Err(err) && err@ == ErrorView::Parquet(e),
                Ok(groups) => if !orderly(file, groups, spots) {
                    r matches Err(err) && err@ == ErrorView::Parquet(NOT_IN_ORDER@)
                } else {
                    reads_batches(r, instrument, batches_in(file, spots))
                },
            },
        },
    }
}

/// Whether `r` is what a file comes to: by its footer, its schema, its metadata
/// and its rows, in that order.
pub open spec fn reads(r: Result<TickStream, Error>, file: Seq<u8>) -> bool {
    if !footer_sound(file) {
        r matches Err(err) && err@ == ErrorView::Parquet(NOT_IN_ORDER@)
    } else {
        match metadata_in(file) {
            Err(e) => r matches Err(err) && err@ == ErrorView::Parquet(e),
            Ok(kv) => if !declared_sound(kv) {
                r matches Err(err) && err@ == ErrorView::Parquet(NOT_IN_ORDER@)
            } else {
                match fields_in(file) {
                    Err(e) => r matches Err(err) && err@ == ErrorView::Parquet(e),
                    Ok(fields) => match named_instrument(kv) {
                        Err(e) => r matches Err(err) && err@ == e,
                        Ok(instrument) => reads_rows(r, instrument, file, fields),
                    },
                }
            },
        }
    }
}

fn find(kv: &Option<Vec<(String, Option<String>)>>, key: &str) -> (r: Option<String>)
    ensures
        seen(r) == said(metadata_seen(*kv), key@),
{
    match kv {
        None => None,
        Some(list) => {
            let ghost all = entries(list@);
            let n: usize = list.len();
            let mut i: usize = 0;
            assert(all.subrange(0, n as int) =~= all);
            while i < n
                invariant
                    i <= n,
                    n == list@.len(),
                    all == entries(list@),
                    metadata_seen(*kv) == Some(all),
                    first_value(all, key@) == first_value(
                        all.subrange(i as int, n as int),
                        key@,
                    ),
                decreases n - i,
            {
                let ghost rest = all.subrange(i as int, n as int);
                assert(rest[0] == entry(list@[i as int]));
                if same(list[i].0.as_str(), key) {
                    let found: Option<String> = match &list[i].1 {
                        Some(v) => Some(copy_text(v)),
                        None => None,
                    };
                    assert(seen(found) == rest[0].1);
                    return found;
                }
                assert(rest.drop_first() =~= all.subrange(i + 1, n as int));
                i += 1;
            }
            None
        },
    }
}

/// Which instrument a file's metadata names.
pub fn instrument_in(kv: &Option<Vec<(String, Option<String>)>>) -> (r: Result<u64, Error>)
    ensures
        match r {
            Ok(x) => named_instrument(metadata_seen(*kv)) == Ok::<u64, ErrorView>(x),
            Err(e) => named_instrument(metadata_seen(*kv)) == Err::<u64, ErrorView>(e@),
        },
{
    match find(kv, VERSION_KEY) {
        None => {
            return Err(Error::Version(None));
        },
        Some(v) => if !same(v.as_str(), VERSION) {
            return Err(Error::Version(Some(v)));
        },
    }
    match find(kv, INSTRUMENT_KEY) {
        None => Err(Error::Instrument(None)),
        Some(v) => match read_whole(&chars_of(v.as_str())) {
            Some(x) => Ok(x),
            None => Err(Error::Instrument(Some(v))),
        },
    }
}

fn column<'a>(run: &'a Vec<Column>, name: &'static str) -> (r: Result<&'a Vec<i64>, Error>)
    ensures
        match r {
            Ok(v) => column_in(columns_in(run@), name@) == Ok::<Seq<i64>, ErrorView>(v@),
            Err(e) => column_in(columns_in(run@), name@) == Err::<Seq<i64>, ErrorView>(e@),
        },
        r matches Ok(v) ==> exists|k: int|
            0 <= k < run@.len() && (#[trigger] columns_in(run@)[k]).1 == Ok::<
                Seq<i64>,
                Seq<char>,
            >(v@),
{
    let ghost all = columns_in(run@);
    let n: usize = run.len();
    let mut i: usize = 0;
    assert(all.subrange(0, n as int) =~= all);
    while i < n
        invariant
            i <= n,
            n == run@.len(),
            all == columns_in(run@),
            column_in(all, name@) == column_in(all.subrange(i as int, n as int), name@),
        decreases n - i,
    {
        let ghost rest = all.subrange(i as int, n as int);
        assert(rest[0] == run@[i as int]@);
        if same(run[i].name.as_str(), name) {
            return match &run[i].values {
                Ok(v) => {
                    assert(all[i as int].1 == Ok::<Seq<i64>, Seq<char>>(v@));
                    Ok(v)
                },
                Err(t) => Err(Error::Column { name, found: Some(copy_text(t)) }),
            };
        }
        assert(rest.drop_first() =~= all.subrange(i + 1, n as int));
        i += 1;
    }
    Err(Error::Column { name, found: None })
}

fn names() -> (r: Vec<&'static str>)
    ensures
        r@.map_values(|n: &'static str| n@) == column_names(),
        r@.len() == 8,
{
    let mut out: Vec<&'static str> = Vec::new();
    out.push("exch_ts");
    out.push("local_ts");
    out.push("last");
    out.push("high");
    out.push("low");
    out.push("bid");
    out.push("ask");
    out.push("volume");
    assert(out@.map_values(|n: &'static str| n@) =~= column_names());
    out
}

/// A name that has no column stops the gathering, whatever follows it.
proof fn lemma_gathering_stops(
    run: Seq<(Seq<char>, Result<Seq<i64>, Seq<char>>)>,
    names: Seq<Seq<char>>,
    k: int,
)
    requires
        0 <= k <= names.len(),
        gathered(run, names.subrange(0, k)) is Err,
    ensures
        gathered(run, names) == gathered(run, names.subrange(0, k)),
    decreases names.len(),
{
    if k == names.len() {
        assert(names.subrange(0, k) =~= names);
    } else {
        assert(names.drop_last().subrange(0, k) =~= names.subrange(0, k));
        lemma_gathering_stops(run, names.drop_last(), k);
    }
}

/// The ticks of a run of rows, added to those before it.
pub fn append_ticks(ticks: &mut Vec<Tick>, run: &Vec<Column>) -> (r: Result<(), Error>)
    requires
        full(columns_in(run@)),
    ensures
        match r {
            Ok(_) => ticks_in(columns_in(run@)) matches Ok(more) && final(ticks)@ == old(ticks)@
                + more,
            Err(e) => {
                &&& ticks_in(columns_in(run@)) == Err::<Seq<Tick>, ErrorView>(e@)
                &&& final(ticks)@ == old(ticks)@
            },
        },
{
    let names = names();
    let ghost all = column_names();
    let ghost view = columns_in(run@);
    let mut columns: Vec<&Vec<i64>> = Vec::new();
    let ghost mut parts = Seq::<Seq<i64>>::empty();
    let mut j: usize = 0;
    assert(all.subrange(0, 0) =~= Seq::<Seq<char>>::empty());
    while j < names.len()
        invariant
            j <= names@.len(),
            names@.len() == 8,
            names@.map_values(|n: &'static str| n@) == all,
            all == column_names(),
            view == columns_in(run@),
            full(view),
            ticks@ == old(ticks)@,
            parts.len() == j,
            columns@.len() == j,
            forall|k: int| 0 <= k < j ==> (#[trigger] columns@[k])@ == parts[k],
            forall|k: int| 0 <= k < j ==> (#[trigger] parts[k]).len() == parts[0].len(),
            j > 0 ==> exists|i: int|
                0 <= i < view.len() && (#[trigger] view[i]).1 == Ok::<Seq<i64>, Seq<char>>(
                    parts[0],
                ),
            gathered(view, all.subrange(0, j as int)) == Ok::<Seq<Seq<i64>>, ErrorView>(parts),
        decreases names@.len() - j,
    {
        let ghost now = all.subrange(0, j + 1);
        proof {
            assert(now.drop_last() =~= all.subrange(0, j as int));
            assert(now.last() == names@.map_values(|n: &'static str| n@)[j as int]);
        }
        match column(run, names[j]) {
            Ok(c) => {
                columns.push(c);
                proof {
                    parts = parts.push(c@);
                }
            },
            Err(e) => {
                proof {
                    lemma_gathering_stops(view, all, j + 1);
                }
                return Err(e);
            },
        }
        j += 1;
    }
    assert(all.subrange(0, j as int) =~= all);
    let rows: usize = columns[0].len();
    let ghost more = Seq::new(parts[0].len(), |i: int| row(parts, i));
    let ghost start = ticks@;
    let mut i: usize = 0;
    assert(start + more.subrange(0, 0) =~= start);
    while i < rows
        invariant
            i <= rows,
            rows == parts[0].len(),
            parts.len() == 8,
            columns@.len() == 8,
            forall|k: int| 0 <= k < 8 ==> (#[trigger] columns@[k])@ == parts[k],
            forall|k: int| 0 <= k < 8 ==> (#[trigger] parts[k]).len() == parts[0].len(),
            more == Seq::new(parts[0].len(), |i: int| row(parts, i)),
            ticks@ == start + more.subrange(0, i as int),
        decreases rows - i,
    {
        proof {
            assert(columns@[0]@ == parts[0] && columns@[1]@ == parts[1] && columns@[2]@ == parts[2]
                && columns@[3]@ == parts[3] && columns@[4]@ == parts[4] && columns@[5]@ == parts[5]
                && columns@[6]@ == parts[6] && columns@[7]@ == parts[7]);
        }
        ticks.push(
            Tick {
                stamp: Stamp { exch: Nanos(columns[0][i]), local: Nanos(columns[1][i]) },
                last: PriceTicks(columns[2][i]),
                high: PriceTicks(columns[3][i]),
                low: PriceTicks(columns[4][i]),
                bid: PriceTicks(columns[5][i]),
                ask: PriceTicks(columns[6][i]),
                volume: QtyLots(columns[7][i]),
            },
        );
        i += 1;
        assert(start + more.subrange(0, i as int) =~= (start + more.subrange(0, i - 1)).push(
            more[i - 1],
        ));
    }
    assert(more.subrange(0, i as int) =~= more);
    Ok(())
}

/// A batch that cannot be read stops the reading, whatever follows it.
proof fn lemma_batch_stops(
    batches: Seq<Result<Seq<(Seq<char>, Result<Seq<i64>, Seq<char>>)>, Seq<char>>>,
    k: int,
)
    requires
        0 <= k <= batches.len(),
        all_ticks(batches.subrange(0, k)) is Err,
    ensures
        all_ticks(batches) == all_ticks(batches.subrange(0, k)),
    decreases batches.len(),
{
    if k == batches.len() {
        assert(batches.subrange(0, k) =~= batches);
    } else {
        assert(batches.drop_last().subrange(0, k) =~= batches.subrange(0, k));
        lemma_batch_stops(batches.drop_last(), k);
    }
}

/// A name that has no column stops the picking, whatever follows it.
proof fn lemma_picking_stops(
    fields: Seq<(Seq<char>, Result<bool, Seq<char>>)>,
    roots: Seq<Seq<char>>,
    names: Seq<Seq<char>>,
    k: int,
)
    requires
        0 <= k <= names.len(),
        picked(fields, roots, names.subrange(0, k)) is Err,
    ensures
        picked(fields, roots, names) == picked(fields, roots, names.subrange(0, k)),
    decreases names.len(),
{
    if k == names.len() {
        assert(names.subrange(0, k) =~= names);
    } else {
        assert(names.drop_last().subrange(0, k) =~= names.subrange(0, k));
        lemma_picking_stops(fields, roots, names.drop_last(), k);
    }
}

fn kind_under(list: &Vec<Field>, name: &'static str) -> (r: Result<bool, Error>)
    ensures
        match r {
            Ok(nullable) => kind_of(fields_seen(list@), name@) == Ok::<bool, ErrorView>(nullable),
            Err(e) => kind_of(fields_seen(list@), name@) == Err::<bool, ErrorView>(e@),
        },
{
    let ghost all = fields_seen(list@);
    let n: usize = list.len();
    let mut i: usize = 0;
    assert(all.subrange(0, n as int) =~= all);
    while i < n
        invariant
            i <= n,
            n == list@.len(),
            all == fields_seen(list@),
            kind_of(all, name@) == kind_of(all.subrange(i as int, n as int), name@),
        decreases n - i,
    {
        let ghost rest = all.subrange(i as int, n as int);
        assert(rest[0] == list@[i as int]@);
        if same(list[i].name.as_str(), name) {
            return match &list[i].kind {
                Ok(nullable) => Ok(*nullable),
                Err(t) => Err(Error::Column { name, found: Some(copy_text(t)) }),
            };
        }
        assert(rest.drop_first() =~= all.subrange(i + 1, n as int));
        i += 1;
    }
    Err(Error::Column { name, found: None })
}

fn root_under(list: &Vec<String>, name: &str) -> (r: Option<usize>)
    ensures
        match r {
            Some(k) => {
                &&& root_at(texts(list@), name@, 0) == Some(k as int)
                &&& k < list@.len()
                &&& texts(list@)[k as int] == name@
            },
            None => root_at(texts(list@), name@, 0) is None,
        },
{
    let ghost all = texts(list@);
    let n: usize = list.len();
    let mut i: usize = 0;
    assert(all.subrange(0, n as int) =~= all);
    while i < n
        invariant
            i <= n,
            n == list@.len(),
            all == texts(list@),
            root_at(all, name@, 0) == root_at(all.subrange(i as int, n as int), name@, i as int),
        decreases n - i,
    {
        let ghost rest = all.subrange(i as int, n as int);
        assert(rest[0] == list@[i as int]@);
        if same(list[i].as_str(), name) {
            return Some(i);
        }
        assert(rest.drop_first() =~= all.subrange(i + 1, n as int));
        i += 1;
    }
    None
}

/// Which columns of a file are those of ticks, by its schema and the roots of its
/// columns.
pub fn pick(list: &Vec<Field>, tops: &Vec<String>) -> (r: Result<Vec<(usize, bool)>, Error>)
    ensures
        match r {
            Ok(spots) => {
                &&& picked(fields_seen(list@), texts(tops@), column_names()) == Ok::<
                    Seq<(usize, bool)>,
                    ErrorView,
                >(spots@)
                &&& spots_fit(fields_seen(list@), texts(tops@), spots@)
            },
            Err(e) => picked(fields_seen(list@), texts(tops@), column_names()) == Err::<
                Seq<(usize, bool)>,
                ErrorView,
            >(e@),
        },
{
    let names = names();
    let ghost all = column_names();
    let ghost seen = fields_seen(list@);
    let ghost roots = texts(tops@);
    let mut spots: Vec<(usize, bool)> = Vec::new();
    let mut j: usize = 0;
    assert(all.subrange(0, 0) =~= Seq::<Seq<char>>::empty());
    while j < names.len()
        invariant
            j <= names@.len(),
            names@.len() == 8,
            names@.map_values(|n: &'static str| n@) == all,
            all == column_names(),
            seen == fields_seen(list@),
            roots == texts(tops@),
            spots_fit(seen, roots, spots@),
            picked(seen, roots, all.subrange(0, j as int)) == Ok::<
                Seq<(usize, bool)>,
                ErrorView,
            >(spots@),
        decreases names@.len() - j,
    {
        let ghost name = names@[j as int]@;
        proof {
            let now = all.subrange(0, j + 1);
            assert(now.drop_last() =~= all.subrange(0, j as int));
            assert(now.last() == names@.map_values(|n: &'static str| n@)[j as int]);
        }
        let nullable: bool = match kind_under(list, names[j]) {
            Ok(nullable) => nullable,
            Err(e) => {
                proof {
                    lemma_picking_stops(seen, roots, all, j + 1);
                }
                return Err(e);
            },
        };
        match root_under(tops, names[j]) {
            Some(c) => {
                assert(placed(seen, roots, name) == Ok::<_, ErrorView>((c, nullable)));
                assert(spot_fits(seen, roots, (c, nullable)));
                spots.push((c, nullable));
            },
            None => {
                proof {
                    lemma_picking_stops(seen, roots, all, j + 1);
                }
                return Err(Error::Parquet(NOT_IN_ORDER.to_owned()));
            },
        }
        j += 1;
    }
    assert(all.subrange(0, j as int) =~= all);
    Ok(spots)
}

fn is_entry_sound(e: &(String, Option<String>)) -> (r: bool)
    ensures
        r == entry_sound(entry(*e)),
{
    if !same(e.0.as_str(), "ARROW:schema") {
        return true;
    }
    match &e.1 {
        None => true,
        Some(v) => is_message_sound(&message_of(&chars_of(v.as_str()))),
    }
}

/// Whether what a writer says of its own types can be gone by.
fn is_declared_sound(kv: &Option<Vec<(String, Option<String>)>>) -> (r: bool)
    ensures
        r == declared_sound(metadata_seen(*kv)),
{
    let list = match kv {
        None => {
            return true;
        },
        Some(list) => list,
    };
    let ghost all = entries(list@);
    let mut i: usize = 0;
    while i < list.len()
        invariant
            i <= list@.len(),
            all == entries(list@),
            metadata_seen(*kv) == Some(all),
            forall|k: int| 0 <= k < i ==> entry_sound(#[trigger] all[k]),
        decreases list@.len() - i,
    {
        assert(all[i as int] == entry(list@[i as int]));
        if !is_entry_sound(&list[i]) {
            assert(!entry_sound(all[i as int]));
            assert(!entries_sound(all));
            return false;
        }
        i += 1;
    }
    true
}

fn is_page_sound(body: &Body, nullable: bool) -> (r: bool)
    ensures
        r == page_sound(Ok(body@), nullable),
{
    match body.part {
        Part::Dictionary => 8 * body.values as u64 <= body.bytes.len() as u64,
        Part::First { kind } => is_first_sound(
            body.bytes.as_slice(),
            body.coding,
            body.values,
            nullable,
            kind,
        ),
        Part::Second { nulls, before, levels } => is_second_sound(
            body.bytes.as_slice(),
            body.coding,
            body.values,
            nullable,
            nulls,
            before,
            levels,
        ),
    }
}

/// Whether the pages of one column of a run of rows are in order.
fn is_chunk_sound(file: &[u8], list: &Vec<Group>, group: usize, spot: (usize, bool)) -> (r: bool)
    requires
        footer_sound(file@),
        groups_in(file@) == Ok::<_, Seq<char>>(groups_seen(list@)),
        group < list@.len(),
    ensures
        r == chunk_sound(file@, groups_seen(list@), group as int, spot),
{
    let ghost seen = groups_seen(list@);
    let (column, nullable): (usize, bool) = spot;
    let chunks = &list[group].chunks;
    assert(seen[group as int].1 == chunks@);
    if column >= chunks.len() {
        return false;
    }
    let chunk = chunks[column];
    let start: i64 = match chunk.dictionary {
        Some(at) => at,
        None => chunk.data,
    };
    let total: u64 = file.len() as u64;
    if start < 0 || chunk.length < 0 || start as u64 > total || chunk.length as u64 > total {
        return false;
    }
    if !are_pages_sound(file, start as usize, chunk.length as usize) {
        return false;
    }
    let mut rest = match pages(file, group, column) {
        Ok(p) => p,
        Err(_) => {
            return true;
        },
    };
    let ghost all = coming(rest);
    let ghost mut done: int = 0;
    let mut more: bool = true;
    assert(all.subrange(0, all.len() as int) =~= all);
    while more
        invariant
            0 <= done <= all.len(),
            seen == groups_seen(list@),
            spot == (column, nullable),
            headers_sound(file@, seen[group as int].1, column as int),
            pages_in(file@, group as int, column as int) == Ok::<_, Seq<char>>(all),
            more ==> coming(rest) == all.subrange(done, all.len() as int),
            forall|k: int| 0 <= k < done ==> page_sound(#[trigger] all[k], nullable),
            !more ==> done == all.len(),
        decreases all.len() - done, (if more {
            1int
        } else {
            0int
        }),
    {
        let ghost before = coming(rest);
        match next_page(&mut rest) {
            None => {
                more = false;
            },
            Some(read) => {
                assert(done < all.len());
                assert(before[0] == all[done]);
                match read {
                    Err(_) => {
                        more = false;
                        proof {
                            assert(page_sound(all[done], nullable));
                            done = done + 1;
                        }
                    },
                    Ok(body) => {
                        if !is_page_sound(&body, nullable) {
                            assert(!page_sound(all[done], nullable));
                            assert(!all_pages_sound(all, nullable));
                            return false;
                        }
                        proof {
                            assert(page_sound(all[done], nullable));
                            assert(before.drop_first() =~= all.subrange(
                                done + 1,
                                all.len() as int,
                            ));
                            done = done + 1;
                        }
                    },
                }
            },
        }
    }
    true
}

/// Whether some columns of a file can be read through its runs of rows.
fn is_orderly(file: &[u8], list: &Vec<Group>, spots: &Vec<(usize, bool)>) -> (r: bool)
    requires
        footer_sound(file@),
        groups_in(file@) == Ok::<_, Seq<char>>(groups_seen(list@)),
    ensures
        r == orderly(file@, groups_seen(list@), spots@),
{
    let ghost seen = groups_seen(list@);
    let mut total: usize = 0;
    let mut g: usize = 0;
    assert(seen.subrange(0, 0) =~= Seq::<(i64, Seq<Chunk>)>::empty());
    while g < list.len()
        invariant
            g <= list@.len(),
            footer_sound(file@),
            seen == groups_seen(list@),
            groups_in(file@) == Ok::<_, Seq<char>>(seen),
            rows_in(seen.subrange(0, g as int)) == Some(total as int),
            forall|k: int| 0 <= k < g ==> #[trigger] group_sound(file@, seen, k, spots@),
        decreases list@.len() - g,
    {
        let rows: i64 = list[g].rows;
        proof {
            let now = seen.subrange(0, g + 1);
            assert(now.drop_last() =~= seen.subrange(0, g as int));
            assert(now.last().0 == rows);
        }
        if rows < 0 || rows as u64 > (usize::MAX - total) as u64 {
            proof {
                lemma_too_many_rows(seen, g + 1);
            }
            return false;
        }
        let mut k: usize = 0;
        while k < spots.len()
            invariant
                k <= spots@.len(),
                g < list@.len(),
                footer_sound(file@),
                seen == groups_seen(list@),
                groups_in(file@) == Ok::<_, Seq<char>>(seen),
                forall|c: int|
                    0 <= c < k ==> chunk_sound(file@, seen, g as int, #[trigger] spots@[c]),
            decreases spots@.len() - k,
        {
            if !is_chunk_sound(file, list, g, spots[k]) {
                assert(!chunk_sound(file@, seen, g as int, spots@[k as int]));
                assert(!group_sound(file@, seen, g as int, spots@));
                return false;
            }
            k += 1;
        }
        assert(group_sound(file@, seen, g as int, spots@));
        total = total + rows as usize;
        g += 1;
    }
    assert(seen.subrange(0, g as int) =~= seen);
    true
}

/// Rows that are too many, or fewer than none, stay so whatever follows.
proof fn lemma_too_many_rows(groups: Seq<(i64, Seq<Chunk>)>, k: int)
    requires
        0 <= k <= groups.len(),
        !(rows_in(groups.subrange(0, k)) matches Some(n) && n <= usize::MAX),
    ensures
        !(rows_in(groups) matches Some(n) && n <= usize::MAX),
    decreases groups.len(),
{
    if k == groups.len() {
        assert(groups.subrange(0, k) =~= groups);
    } else {
        assert(groups.drop_last().subrange(0, k) =~= groups.subrange(0, k));
        lemma_too_many_rows(groups.drop_last(), k);
    }
}

/// Read a Parquet file written by [`write_parquet`] back into ticks.
///
/// [`Error::Version`] or [`Error::Instrument`] when the metadata is missing or
/// unreadable, [`Error::Column`] when a required column is absent or not of
/// integers, [`Error::Parquet`] when the file is not in order,
/// [`Error::Stream`] when the ticks go backwards.
pub fn read_parquet(file: &[u8]) -> (r: Result<TickStream, Error>)
    ensures
        reads(r, file@),
{
    if !is_footer_sound(file) {
        return Err(Error::Parquet(NOT_IN_ORDER.to_owned()));
    }
    let kv = match metadata(file) {
        Ok(kv) => kv,
        Err(e) => {
            return Err(Error::Parquet(e));
        },
    };
    if !is_declared_sound(&kv) {
        return Err(Error::Parquet(NOT_IN_ORDER.to_owned()));
    }
    let schema = match fields(file) {
        Ok(list) => list,
        Err(e) => {
            return Err(Error::Parquet(e));
        },
    };
    let instrument: u64 = match instrument_in(&kv) {
        Ok(x) => x,
        Err(e) => {
            return Err(e);
        },
    };
    read_rows(file, &kv, &schema, instrument)
}

/// The ticks of a file, once its schema and its metadata are read.
fn read_rows(
    file: &[u8],
    kv: &Option<Vec<(String, Option<String>)>>,
    schema: &Vec<Field>,
    instrument: u64,
) -> (r: Result<TickStream, Error>)
    requires
        footer_sound(file@),
        metadata_in(file@) == Ok::<_, Seq<char>>(metadata_seen(*kv)),
        declared_sound(metadata_seen(*kv)),
        fields_in(file@) == Ok::<_, Seq<char>>(fields_seen(schema@)),
    ensures
        reads_rows(r, instrument, file@, fields_seen(schema@)),
{
    let tops = match roots(file) {
        Ok(list) => list,
        Err(e) => {
            return Err(Error::Parquet(e));
        },
    };
    let spots = match pick(schema, &tops) {
        Ok(c) => c,
        Err(e) => {
            return Err(e);
        },
    };
    let rows = match groups(file) {
        Ok(list) => list,
        Err(e) => {
            return Err(Error::Parquet(e));
        },
    };
    if !is_orderly(file, &rows, &spots) {
        return Err(Error::Parquet(NOT_IN_ORDER.to_owned()));
    }
    let mut rest = match batches(file, &spots) {
        Ok(b) => b,
        Err(e) => {
            return Err(Error::Parquet(e));
        },
    };
    let ghost all = left(rest);
    let mut ticks: Vec<Tick> = Vec::new();
    let ghost mut done: int = 0;
    let mut more: bool = true;
    assert(all.subrange(0, 0) =~= Seq::empty());
    assert(all.subrange(0, all.len() as int) =~= all);
    while more
        invariant
            0 <= done <= all.len(),
            roots_in(file@) == Ok::<_, Seq<char>>(texts(tops@)),
            picked(fields_seen(schema@), texts(tops@), column_names()) == Ok::<
                Seq<(usize, bool)>,
                ErrorView,
            >(spots@),
            groups_in(file@) == Ok::<_, Seq<char>>(groups_seen(rows@)),
            orderly(file@, groups_seen(rows@), spots@),
            batches_in(file@, spots@) == Ok::<_, Seq<char>>(all),
            more ==> left(rest) == all.subrange(done, all.len() as int),
            all_ticks(all.subrange(0, done)) == Ok::<Seq<Tick>, ErrorView>(ticks@),
            !more ==> done == all.len(),
        decreases all.len() - done, (if more {
            1int
        } else {
            0int
        }),
    {
        let ghost before = left(rest);
        let ghost now = all.subrange(0, done + 1);
        match next_batch(&mut rest) {
            None => {
                more = false;
            },
            Some(read) => {
                proof {
                    assert(before[0] == all[done]);
                    assert(now.drop_last() =~= all.subrange(0, done));
                    assert(now.last() == all[done]);
                }
                match read {
                    Err(e) => {
                        proof {
                            lemma_batch_stops(all, done + 1);
                        }
                        return Err(Error::Parquet(e));
                    },
                    Ok(run) => {
                        match append_ticks(&mut ticks, &run) {
                            Ok(_) => {},
                            Err(e) => {
                                proof {
                                    lemma_batch_stops(all, done + 1);
                                }
                                return Err(e);
                            },
                        }
                        proof {
                            assert(before.drop_first() =~= all.subrange(
                                done + 1,
                                all.len() as int,
                            ));
                            done = done + 1;
                        }
                    },
                }
            },
        }
    }
    assert(all.subrange(0, done) =~= all);
    match TickStream::new(instrument, ticks) {
        Ok(s) => Ok(s),
        Err(e) => Err(Error::Stream(e)),
    }
}

/// A number of a tick, by the place of its column.
pub open spec fn number(t: Tick, j: int) -> i64 {
    if j == 0 {
        t.stamp.exch.0
    } else if j == 1 {
        t.stamp.local.0
    } else if j == 2 {
        t.last.0
    } else if j == 3 {
        t.high.0
    } else if j == 4 {
        t.low.0
    } else if j == 5 {
        t.bid.0
    } else if j == 6 {
        t.ask.0
    } else {
        t.volume.0
    }
}

/// The numbers of ticks under a column.
pub open spec fn numbers(ticks: Seq<Tick>, j: int) -> Seq<i64> {
    ticks.map_values(|t: Tick| number(t, j))
}

/// Ticks, by column.
pub open spec fn tick_columns(ticks: Seq<Tick>) -> Seq<(Seq<char>, Seq<i64>)> {
    Seq::new(8, |j: int| (column_names()[j], numbers(ticks, j)))
}

/// The metadata of a tick file.
pub open spec fn tick_metadata(instrument: u64) -> Seq<(Seq<char>, Seq<char>)> {
    seq![(INSTRUMENT_KEY@, digits(instrument as nat)), (VERSION_KEY@, VERSION@)]
}

fn gather(ticks: &Vec<Tick>, j: usize) -> (r: Vec<i64>)
    ensures
        r@ == numbers(ticks@, j as int),
{
    let mut out: Vec<i64> = Vec::new();
    let mut i: usize = 0;
    while i < ticks.len()
        invariant
            i <= ticks@.len(),
            out@ == numbers(ticks@, j as int).subrange(0, i as int),
        decreases ticks@.len() - i,
    {
        let t = &ticks[i];
        let x: i64 = match j {
            0 => t.stamp.exch.0,
            1 => t.stamp.local.0,
            2 => t.last.0,
            3 => t.high.0,
            4 => t.low.0,
            5 => t.bid.0,
            6 => t.ask.0,
            _ => t.volume.0,
        };
        out.push(x);
        i += 1;
        assert(out@ =~= numbers(ticks@, j as int).subrange(0, i as int));
    }
    assert(out@ =~= numbers(ticks@, j as int));
    out
}

/// The columns have different names.
proof fn lemma_names()
    ensures
        forall|i: int, j: int|
            0 <= i < j < 8 ==> #[trigger] column_names()[i] != #[trigger] column_names()[j],
        column_names().len() == 8,
{
    reveal_strlit("exch_ts");
    reveal_strlit("local_ts");
    reveal_strlit("last");
    reveal_strlit("high");
    reveal_strlit("low");
    reveal_strlit("bid");
    reveal_strlit("ask");
    reveal_strlit("volume");
    let n = column_names();
    assert(n[0].len() == 7 && n[1].len() == 8 && n[2].len() == 4 && n[3].len() == 4 && n[4].len()
        == 3 && n[5].len() == 3 && n[6].len() == 3 && n[7].len() == 6);
    assert(n[2][0] == 'l' && n[3][0] == 'h' && n[4][0] == 'l' && n[5][0] == 'b' && n[6][0] == 'a');
}

/// The keys have different names, and none is the writer's own.
proof fn lemma_keys()
    ensures
        INSTRUMENT_KEY@ != VERSION_KEY@,
        INSTRUMENT_KEY@ != writers_key(),
        VERSION_KEY@ != writers_key(),
{
    reveal_strlit("openquanter.instrument");
    reveal_strlit("openquanter.tick_schema");
    reveal_strlit("ARROW:schema");
    assert(INSTRUMENT_KEY@.len() == 22);
    assert(VERSION_KEY@.len() == 23);
    assert(writers_key().len() == 12);
}

/// A file's own entries name its instrument.
proof fn lemma_named(kv: Seq<(Seq<char>, Option<Seq<char>>)>, instrument: u64)
    requires
        kv.len() >= 2,
        forall|i: int|
            0 <= i < 2 ==> #[trigger] kv[i] == (
                tick_metadata(instrument)[i].0,
                Some(tick_metadata(instrument)[i].1),
            ),
    ensures
        named_instrument(Some(kv)) == Ok::<u64, ErrorView>(instrument),
{
    lemma_keys();
    reveal_with_fuel(first_value, 3);
    assert(kv[0] == (INSTRUMENT_KEY@, Some(digits(instrument as nat))));
    assert(kv[1] == (VERSION_KEY@, Some(VERSION@)));
    assert(kv.drop_first()[0] == kv[1]);
    let d = digits(instrument as nat);
    lemma_digits_read_back(instrument as nat);
    assert(crate::text::is_digit(d[0]));
    assert(whole_spelled(d) == Some(instrument));
}

/// A column is found under its name where no column before it has that name.
proof fn lemma_found(
    run: Seq<(Seq<char>, Result<Seq<i64>, Seq<char>>)>,
    name: Seq<char>,
    j: int,
)
    requires
        0 <= j < run.len(),
        run[j].0 == name,
        run[j].1 is Ok,
        forall|i: int| 0 <= i < j ==> (#[trigger] run[i]).0 != name,
    ensures
        column_in(run, name) == Ok::<Seq<i64>, ErrorView>(run[j].1->Ok_0),
    decreases j,
{
    if j > 0 {
        let rest = run.drop_first();
        assert(run[0].0 != name);
        assert forall|i: int| 0 <= i < j - 1 implies (#[trigger] rest[i]).0 != name by {
            assert(rest[i] == run[i + 1]);
        }
        lemma_found(rest, name, j - 1);
    }
}

/// Whether a run has the columns of a tick file, all of integers.
spec fn is_tick_run(run: Seq<(Seq<char>, Result<Seq<i64>, Seq<char>>)>) -> bool {
    &&& run.len() == 8
    &&& full(run)
    &&& forall|j: int|
        0 <= j < 8 ==> (#[trigger] run[j]).0 == column_names()[j] && run[j].1 is Ok
}

/// The integers of a run of a tick file, by column.
spec fn parts(run: Seq<(Seq<char>, Result<Seq<i64>, Seq<char>>)>, k: nat) -> Seq<Seq<i64>> {
    Seq::new(k, |j: int| run[j].1->Ok_0)
}

proof fn lemma_gathered(run: Seq<(Seq<char>, Result<Seq<i64>, Seq<char>>)>, k: nat)
    requires
        is_tick_run(run),
        k <= 8,
    ensures
        gathered(run, column_names().subrange(0, k as int)) == Ok::<Seq<Seq<i64>>, ErrorView>(
            parts(run, k),
        ),
    decreases k,
{
    let names = column_names().subrange(0, k as int);
    if k == 0 {
        assert(parts(run, 0) =~= Seq::<Seq<i64>>::empty());
    } else {
        let j = (k - 1) as nat;
        lemma_gathered(run, j);
        lemma_names();
        assert(names.drop_last() =~= column_names().subrange(0, j as int));
        assert(names.last() == column_names()[j as int]);
        lemma_found(run, names.last(), j as int);
        assert(parts(run, k) =~= parts(run, j).push(run[j as int].1->Ok_0));
    }
}

/// The ticks of whole columns are the ticks of the runs they were cut into.
proof fn lemma_spliced(
    batches: Seq<Result<Seq<(Seq<char>, Result<Seq<i64>, Seq<char>>)>, Seq<char>>>,
    runs: Seq<Seq<(Seq<char>, Result<Seq<i64>, Seq<char>>)>>,
)
    requires
        runs.len() == batches.len(),
        forall|k: int|
            0 <= k < batches.len() ==> #[trigger] batches[k] == Ok::<_, Seq<char>>(runs[k]),
        forall|k: int| 0 <= k < runs.len() ==> is_tick_run(#[trigger] runs[k]),
    ensures
        forall|j: int|
            0 <= j < 8 ==> (#[trigger] spliced(runs, j)).len() == spliced(runs, 0).len(),
        all_ticks(batches) == Ok::<Seq<Tick>, ErrorView>(
            Seq::new(
                spliced(runs, 0).len(),
                |i: int| row(Seq::new(8, |j: int| spliced(runs, j)), i),
            ),
        ),
    decreases batches.len(),
{
    let whole = Seq::new(8, |j: int| spliced(runs, j));
    let want = Seq::new(spliced(runs, 0).len(), |i: int| row(whole, i));
    if batches.len() == 0 {
        assert(want =~= Seq::<Tick>::empty());
    } else {
        let less = runs.drop_last();
        let run = runs.last();
        assert(is_tick_run(runs[runs.len() - 1]));
        lemma_spliced(batches.drop_last(), less);
        let before = Seq::new(8, |j: int| spliced(less, j));
        let had = Seq::new(spliced(less, 0).len(), |i: int| row(before, i));
        lemma_gathered(run, 8);
        assert(column_names().subrange(0, 8) =~= column_names());
        let cols = parts(run, 8);
        let more = Seq::new(cols[0].len(), |i: int| row(cols, i));
        assert(batches.last() == Ok::<_, Seq<char>>(run));
        assert forall|j: int| 0 <= j < 8 implies (#[trigger] spliced(runs, j)) == spliced(less, j)
            + cols[j] && cols[j].len() == cols[0].len() by {
            assert(run[j].1 is Ok && run[0].1 is Ok);
        }
        assert forall|i: int| 0 <= i < want.len() implies #[trigger] want[i] == (had + more)[i] by {
            let n = spliced(less, 0).len();
            assert(spliced(runs, 0) == spliced(less, 0) + cols[0]);
            assert(spliced(runs, 1) == spliced(less, 1) + cols[1]);
            assert(spliced(runs, 2) == spliced(less, 2) + cols[2]);
            assert(spliced(runs, 3) == spliced(less, 3) + cols[3]);
            assert(spliced(runs, 4) == spliced(less, 4) + cols[4]);
            assert(spliced(runs, 5) == spliced(less, 5) + cols[5]);
            assert(spliced(runs, 6) == spliced(less, 6) + cols[6]);
            assert(spliced(runs, 7) == spliced(less, 7) + cols[7]);
            assert(spliced(less, 1).len() == n && spliced(less, 2).len() == n && spliced(less, 3).len()
                == n && spliced(less, 4).len() == n && spliced(less, 5).len() == n && spliced(
                less,
                6,
            ).len() == n && spliced(less, 7).len() == n);
        }
        assert(want =~= had + more);
    }
}

/// Batches that hold the columns of ticks, however those were cut, hold those
/// ticks.
pub proof fn law_columns_of_ticks_are_those_ticks(
    batches: Seq<Result<Seq<(Seq<char>, Result<Seq<i64>, Seq<char>>)>, Seq<char>>>,
    ticks: Seq<Tick>,
)
    requires
        forall|k: int| 0 <= k < batches.len() ==> (#[trigger] batches[k]) is Ok,
        holds_columns(
            batches.map_values(
                |b: Result<Seq<(Seq<char>, Result<Seq<i64>, Seq<char>>)>, Seq<char>>| b->Ok_0,
            ),
            tick_columns(ticks),
        ),
    ensures
        all_ticks(batches) == Ok::<Seq<Tick>, ErrorView>(ticks),
{
    let runs = batches.map_values(
        |b: Result<Seq<(Seq<char>, Result<Seq<i64>, Seq<char>>)>, Seq<char>>| b->Ok_0,
    );
    let columns = tick_columns(ticks);
    assert forall|k: int| 0 <= k < runs.len() implies is_tick_run(#[trigger] runs[k]) by {
        assert(batches[k] is Ok);
        assert forall|j: int| 0 <= j < 8 implies (#[trigger] runs[k][j]).0 == column_names()[j]
            && runs[k][j].1 is Ok by {
            assert(columns[j].0 == column_names()[j]);
        }
    }
    lemma_spliced(batches, runs);
    let whole = Seq::new(8, |j: int| spliced(runs, j));
    assert forall|j: int| 0 <= j < 8 implies #[trigger] whole[j] == numbers(ticks, j) by {
        assert(spliced(runs, j) == columns[j].1);
    }
    let back = Seq::new(spliced(runs, 0).len(), |i: int| row(whole, i));
    assert(whole[0] == numbers(ticks, 0));
    assert forall|i: int| 0 <= i < ticks.len() implies #[trigger] back[i] == ticks[i] by {
        assert(whole[0][i] == number(ticks[i], 0));
        assert(whole[1][i] == number(ticks[i], 1));
        assert(whole[2][i] == number(ticks[i], 2));
        assert(whole[3][i] == number(ticks[i], 3));
        assert(whole[4][i] == number(ticks[i], 4));
        assert(whole[5][i] == number(ticks[i], 5));
        assert(whole[6][i] == number(ticks[i], 6));
        assert(whole[7][i] == number(ticks[i], 7));
    }
    assert(back =~= ticks);
}

/// A column is placed under its name where no column before it has that name.
proof fn lemma_placed(
    fields: Seq<(Seq<char>, Result<bool, Seq<char>>)>,
    roots: Seq<Seq<char>>,
    name: Seq<char>,
    j: int,
    k: int,
)
    requires
        fields.len() == roots.len(),
        0 <= j < fields.len(),
        fields[j] == (name, Ok::<bool, Seq<char>>(false)),
        forall|i: int| 0 <= i < fields.len() ==> (#[trigger] fields[i]).0 == roots[i],
        forall|i: int| 0 <= i < j ==> (#[trigger] fields[i]).0 != name,
    ensures
        kind_of(fields, name) == Ok::<bool, ErrorView>(false),
        root_at(roots, name, k) == Some(j + k),
    decreases j,
{
    assert(fields[0].0 == roots[0]);
    assert(fields[j].0 == roots[j]);
    if j > 0 {
        let rest = fields.drop_first();
        let tops = roots.drop_first();
        assert(fields[0].0 != name);
        assert forall|i: int| 0 <= i < j - 1 implies (#[trigger] rest[i]).0 != name by {
            assert(rest[i] == fields[i + 1]);
        }
        assert forall|i: int| 0 <= i < rest.len() implies (#[trigger] rest[i]).0 == tops[i] by {
            assert(rest[i] == fields[i + 1]);
            assert(tops[i] == roots[i + 1]);
        }
        lemma_placed(rest, tops, name, j - 1, k + 1);
    }
}

/// The columns of a tick file are picked in their order.
proof fn lemma_picked(
    fields: Seq<(Seq<char>, Result<bool, Seq<char>>)>,
    roots: Seq<Seq<char>>,
    k: nat,
)
    requires
        k <= 8,
        fields.len() == 8,
        roots == column_names(),
        forall|j: int|
            0 <= j < 8 ==> #[trigger] fields[j] == (
                column_names()[j],
                Ok::<bool, Seq<char>>(false),
            ),
    ensures
        picked(fields, roots, column_names().subrange(0, k as int)) == Ok::<
            Seq<(usize, bool)>,
            ErrorView,
        >(first_spots(k)),
    decreases k,
{
    let names = column_names().subrange(0, k as int);
    if k == 0 {
        assert(first_spots(0) =~= Seq::<(usize, bool)>::empty());
    } else {
        let j = (k - 1) as nat;
        lemma_picked(fields, roots, j);
        lemma_names();
        assert(names.drop_last() =~= column_names().subrange(0, j as int));
        assert(names.last() == column_names()[j as int]);
        assert forall|i: int| 0 <= i < j implies (#[trigger] fields[i]).0 != names.last() by {
            assert(fields[i].0 == column_names()[i]);
        }
        assert(fields[j as int].0 == names.last());
        lemma_placed(fields, roots, names.last(), j as int, 0);
        assert(first_spots(k) =~= first_spots(j).push((j as usize, false)));
    }
}

/// A stream reads back from any file that reads as its columns and its metadata.
proof fn lemma_round_trip(file: Seq<u8>, stream: StreamView, back: Result<TickStream, Error>)
    requires
        reads_as(file, tick_columns(stream.ticks), tick_metadata(stream.instrument)),
        in_time_order(stream.ticks),
        reads(back, file),
    ensures
        back matches Ok(s) && s@ == stream,
{
    let kv = metadata_in(file)->Ok_0->Some_0;
    lemma_named(kv, stream.instrument);
    let columns = tick_columns(stream.ticks);
    let fields = fields_in(file)->Ok_0;
    assert forall|j: int| 0 <= j < 8 implies #[trigger] fields[j] == (
        column_names()[j],
        Ok::<bool, Seq<char>>(false),
    ) by {
        assert(columns[j].0 == column_names()[j]);
    }
    assert(columns.map_values(|c: (Seq<char>, Seq<i64>)| c.0) =~= column_names());
    lemma_picked(fields, column_names(), 8);
    assert(column_names().subrange(0, 8) =~= column_names());
    let batches = batches_in(file, first_spots(8));
    law_columns_of_ticks_are_those_ticks(batches->Ok_0, stream.ticks);
    assert(reads_rows(back, stream.instrument, file, fields));
    assert(reads_batches(back, stream.instrument, batches));
}

/// Write a tick stream as Parquet: the bytes of the file.
///
/// A file that was written reads back as the stream it was made of.
pub fn write_parquet(stream: &TickStream) -> (r: Result<Vec<u8>, Error>)
    ensures
        match r {
            Ok(file) => encoded(
                tick_columns(stream@.ticks),
                tick_metadata(stream@.instrument),
            ) == Ok::<_, Seq<char>>(file@),
            Err(e) => e@ matches ErrorView::Parquet(text) && encoded(
                tick_columns(stream@.ticks),
                tick_metadata(stream@.instrument),
            ) == Err::<Seq<u8>, _>(text),
        },
        r matches Ok(file) ==> forall|back: Result<TickStream, Error>| #[trigger]
            reads(back, file@) ==> (back matches Ok(s) && s@
                == stream@),
{
    proof {
        use_type_invariant(stream);
        stream.lemma_in_order();
        lemma_names();
        lemma_keys();
    }
    let names = names();
    let ticks = stream.ticks();
    let ghost want = tick_columns(ticks@);
    let mut columns: Vec<(&'static str, Vec<i64>)> = Vec::new();
    let mut j: usize = 0;
    while j < names.len()
        invariant
            j <= names@.len(),
            names@.len() == 8,
            names@.map_values(|n: &'static str| n@) == column_names(),
            want == tick_columns(ticks@),
            columns@.len() == j,
            columns_of(columns@) == want.subrange(0, j as int),
        decreases names@.len() - j,
    {
        let c = gather(ticks, j);
        proof {
            assert(column_names()[j as int] == names@.map_values(|n: &'static str| n@)[j as int]);
        }
        columns.push((names[j], c));
        j += 1;
        assert(columns_of(columns@) =~= want.subrange(0, j as int));
    }
    assert(columns_of(columns@) =~= want);
    let mut id = String::new();
    put_digits(&mut id, stream.instrument());
    assert(id@ =~= digits(stream@.instrument as nat));
    let mut pairs: Vec<(String, String)> = Vec::new();
    pairs.push((INSTRUMENT_KEY.to_owned(), id));
    pairs.push((VERSION_KEY.to_owned(), VERSION.to_owned()));
    proof {
        assert(pairs_of(pairs@) =~= tick_metadata(stream@.instrument));
        assert forall|j: int| 0 <= j < 8 implies (#[trigger] columns@[j]).0@ == column_names()[j] by {
            assert(columns_of(columns@)[j].0 == column_names()[j]);
        }
        assert(columns@.map_values(|c: (&'static str, Vec<i64>)| c.0@) =~= column_names());
        assert forall|j: int| 0 <= j < columns@.len() implies (#[trigger] columns@[j]).1@.len()
            == columns@[0].1@.len() by {
            assert(columns_of(columns@)[j].1 == numbers(ticks@, j));
            assert(columns_of(columns@)[0].1 == numbers(ticks@, 0));
        }
    }
    match encode_columns(columns, pairs) {
        Ok(file) => {
            proof {
                assert forall|back: Result<TickStream, Error>| #[trigger]
                    reads(back, file@) implies (back matches Ok(s)
                    && s@ == stream@) by {
                    lemma_round_trip(file@, stream@, back);
                }
            }
            Ok(file)
        },
        Err(e) => Err(Error::Parquet(e)),
    }
}

/// A column holds what its name says of every tick.
pub proof fn law_a_column_holds_what_its_name_says(ticks: Seq<Tick>, i: int)
    requires
        0 <= i < ticks.len(),
    ensures
        ({
            let c = tick_columns(ticks);
            let t = ticks[i];
            &&& c.len() == 8
            &&& c[0].0 == "exch_ts"@ && c[0].1[i] == t.stamp.exch.0
            &&& c[1].0 == "local_ts"@ && c[1].1[i] == t.stamp.local.0
            &&& c[2].0 == "last"@ && c[2].1[i] == t.last.0
            &&& c[3].0 == "high"@ && c[3].1[i] == t.high.0
            &&& c[4].0 == "low"@ && c[4].1[i] == t.low.0
            &&& c[5].0 == "bid"@ && c[5].1[i] == t.bid.0
            &&& c[6].0 == "ask"@ && c[6].1[i] == t.ask.0
            &&& c[7].0 == "volume"@ && c[7].1[i] == t.volume.0
        }),
{
}

/// The first value under a key, and the first column of a name, are those of
/// the first that bears it: what stands behind it changes nothing.
pub proof fn law_the_first_of_a_name_is_taken(
    kv: Seq<(Seq<char>, Option<Seq<char>>)>,
    run: Seq<(Seq<char>, Result<Seq<i64>, Seq<char>>)>,
    name: Seq<char>,
    i: int,
    j: int,
)
    requires
        0 <= i < kv.len(),
        kv[i].0 == name,
        forall|k: int| 0 <= k < i ==> (#[trigger] kv[k]).0 != name,
        0 <= j < run.len(),
        run[j].0 == name,
        forall|k: int| 0 <= k < j ==> (#[trigger] run[k]).0 != name,
    ensures
        first_value(kv, name) == kv[i].1,
        run[j].1 matches Ok(v) ==> column_in(run, name) == Ok::<Seq<i64>, ErrorView>(v),
        run[j].1 matches Err(t) ==> column_in(run, name) == Err::<Seq<i64>, ErrorView>(
            ErrorView::Column { name, found: Some(t) },
        ),
    decreases i + j,
{
    if i > 0 {
        let rest = kv.drop_first();
        assert(kv[0].0 != name);
        assert forall|k: int| 0 <= k < i - 1 implies (#[trigger] rest[k]).0 != name by {
            assert(rest[k] == kv[k + 1]);
        }
        law_the_first_of_a_name_is_taken(rest, run, name, i - 1, j);
    } else if j > 0 {
        let rest = run.drop_first();
        assert(run[0].0 != name);
        assert forall|k: int| 0 <= k < j - 1 implies (#[trigger] rest[k]).0 != name by {
            assert(rest[k] == run[k + 1]);
        }
        law_the_first_of_a_name_is_taken(kv, rest, name, i, j - 1);
    }
}

/// A file names its instrument only under the version this build reads, and as
/// the number that is written there.
pub proof fn law_a_file_names_its_instrument(
    kv: Option<Seq<(Seq<char>, Option<Seq<char>>)>>,
    instrument: u64,
)
    requires
        named_instrument(kv) == Ok::<u64, ErrorView>(instrument),
    ensures
        kv is Some,
        first_value(kv->Some_0, VERSION_KEY@) == Some(VERSION@),
        first_value(kv->Some_0, INSTRUMENT_KEY@) matches Some(v) && whole_spelled(v) == Some(
            instrument,
        ),
{
}

} // verus!
