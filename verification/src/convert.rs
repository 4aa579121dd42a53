//! End-to-end conversion: BLF + DBC -> rows of a table.
//!
//! A [`Conversion`] is driven from outside, one step at a time: it asks for
//! the bytes of the log file as it needs them, and hands out rows to write and
//! progress to show.

use crate::blf::{epoch_nanos, BlfReader, ReaderModel};
use crate::dbc::{database, utf8_lossy, Dbc, DbcError, DbcModel};
use crate::decode::{
    bind, cells_ordered, string_texts, ColumnNaming, Decoder, DecoderModel, DecoderOptions,
    OptionsModel, RawValue,
};
use crate::export::OutputFormat;
use crate::frame::{BlfError, CanFrame, FrameModel};
use crate::shape::{Resampler, ResamplerModel, Row, RowRun};
use std::path::PathBuf;
use vstd::prelude::*;

pub use crate::paths::output_path;

verus! {

/// Shape of the output table.
#[derive(Debug, Clone, Copy, PartialEq, Eq, Structural)]
pub enum OutputLayout {
    /// Fixed-interval grid, forward-filled: every row carries the latest
    /// value of every signal (the "normal" analysis-ready table).
    Resampled,
    /// One row per CAN frame; only that frame's signals are filled.
    PerFrame,
}

impl Default for OutputLayout {
    fn default() -> (r: Self)
        ensures
            r == OutputLayout::Resampled,
    {
        OutputLayout::Resampled
    }
}

/// What the Timestamp column contains.
#[derive(Debug, Clone, Copy, PartialEq, Eq, Structural)]
pub enum TimestampMode {
    /// Seconds since measurement start (0.0, 0.1, ...).
    RelativeSeconds,
    /// Seconds since the Unix epoch (measurement start + offset).
    EpochSeconds,
}

impl Default for TimestampMode {
    fn default() -> (r: Self)
        ensures
            r == TimestampMode::RelativeSeconds,
    {
        TimestampMode::RelativeSeconds
    }
}

/// How a log is converted.
#[derive(Debug)]
pub struct ConvertOptions {
    pub format: OutputFormat,
    pub layout: OutputLayout,
    /// Grid spacing in nanoseconds when `layout == Resampled`.
    pub resample_ns: i64,
    pub timestamp: TimestampMode,
    /// Add a column with the CAN ID when `layout == PerFrame`.
    pub keep_can_id: bool,
    /// Skip frames whose CAN ID is not in the DBC instead of giving up.
    pub skip_unknown_ids: bool,
    /// Replace an output file that exists instead of giving up.
    pub overwrite: bool,
    /// Restrict the output to these columns.
    pub signal_filter: Option<Vec<String>>,
}

/// The mathematical content of [`ConvertOptions`].
pub struct ConvertModel {
    pub format: OutputFormat,
    pub layout: OutputLayout,
    pub resample_ns: i64,
    pub timestamp: TimestampMode,
    pub keep_can_id: bool,
    pub skip_unknown_ids: bool,
    pub overwrite: bool,
    pub signal_filter: Option<Seq<Seq<char>>>,
}

impl View for ConvertOptions {
    type V = ConvertModel;

    open spec fn view(&self) -> ConvertModel {
        ConvertModel {
            format: self.format,
            layout: self.layout,
            resample_ns: self.resample_ns,
            timestamp: self.timestamp,
            keep_can_id: self.keep_can_id,
            skip_unknown_ids: self.skip_unknown_ids,
            overwrite: self.overwrite,
            signal_filter: match self.signal_filter {
                Some(names) => Some(string_texts(names@)),
                None => None,
            },
        }
    }
}

impl Default for ConvertOptions {
    fn default() -> (r: Self)
        ensures
            r == (ConvertOptions {
                format: OutputFormat::Csv,
                layout: OutputLayout::Resampled,
                resample_ns: 100_000_000,
                timestamp: TimestampMode::RelativeSeconds,
                keep_can_id: false,
                skip_unknown_ids: true,
                overwrite: true,
                signal_filter: None,
            }),
    {
        ConvertOptions {
            format: OutputFormat::Csv,
            layout: OutputLayout::Resampled,
            resample_ns: 100_000_000,
            timestamp: TimestampMode::RelativeSeconds,
            keep_can_id: false,
            skip_unknown_ids: true,
            overwrite: true,
            signal_filter: None,
        }
    }
}

/// Why a conversion gives up.
#[derive(Debug, Clone, Copy, PartialEq, Eq, Structural)]
pub enum ConvertError {
    /// The grid spacing is not positive.
    Interval,
    /// The database is malformed.
    Dbc(DbcError),
    /// The database defines no message.
    NoMessages,
    /// The log is malformed.
    Blf(BlfError),
    /// The output file exists and must not be replaced.
    OutputExists,
    /// The log holds a frame with this CAN ID, which is not in the database.
    UnknownId(u32),
}

/// How far a conversion has come.
#[derive(Debug, Clone, Copy, PartialEq, Eq, Structural)]
pub struct Progress {
    /// Compressed bytes consumed from the BLF file.
    pub bytes_read: u64,
    pub total_bytes: u64,
    pub frames_read: u64,
    pub frames_decoded: u64,
}

impl Default for Progress {
    fn default() -> (r: Self)
        ensures
            r == (Progress { bytes_read: 0, total_bytes: 0, frames_read: 0, frames_decoded: 0 }),
    {
        Progress { bytes_read: 0, total_bytes: 0, frames_read: 0, frames_decoded: 0 }
    }
}

impl Progress {
    /// The part of the file that is done, as numerator and denominator: zero
    /// for an empty file, and never more than the whole.
    pub fn fraction(&self) -> (r: (u64, u64))
        ensures
            0 < r.1,
            r.0 <= r.1,
            self.total_bytes == 0 ==> r == (0u64, 1u64),
            0 < self.total_bytes ==> r.1 == self.total_bytes && r.0 == (if self.bytes_read
                <= self.total_bytes {
                self.bytes_read
            } else {
                self.total_bytes
            }),
    {
        if self.total_bytes == 0 {
            (0, 1)
        } else if self.bytes_read <= self.total_bytes {
            (self.bytes_read, self.total_bytes)
        } else {
            (self.total_bytes, self.total_bytes)
        }
    }
}

/// Progress to show.
#[derive(Debug)]
pub struct ProgressUpdate {
    pub progress: Progress,
    /// Name of the message in the latest frame, where it is known.
    pub current_message: Option<String>,
}

/// What a conversion brought.
#[derive(Debug)]
pub struct Summary {
    pub output_path: PathBuf,
    pub frames_read: u64,
    /// Frames whose CAN ID matched a DBC message.
    pub frames_decoded: u64,
    /// Rows written to the output file.
    pub rows_written: u64,
    pub signal_columns: usize,
}

/// Check the grid spacing.
pub fn check_interval(options: &ConvertOptions) -> (r: Result<(), ConvertError>)
    ensures
        match r {
            Ok(()) => options.layout == OutputLayout::Resampled ==> options.resample_ns > 0,
            Err(e) => e == ConvertError::Interval && options.layout == OutputLayout::Resampled
                && options.resample_ns <= 0,
        },
{
    if options.layout == OutputLayout::Resampled && options.resample_ns <= 0 {
        Err(ConvertError::Interval)
    } else {
        Ok(())
    }
}

/// Check that an output file may be written, given whether it exists.
pub fn check_output(present: bool, overwrite: bool) -> (r: Result<(), ConvertError>)
    ensures
        match r {
            Ok(()) => !present || overwrite,
            Err(e) => e == ConvertError::OutputExists && present && !overwrite,
        },
{
    if present && !overwrite {
        Err(ConvertError::OutputExists)
    } else {
        Ok(())
    }
}

impl ConvertOptions {
    /// How the frames are decoded: under the plain column names, as far as
    /// the filter chooses them, and by parameter group for a J1939 database.
    pub open spec fn decoding(&self, j1939_hint: bool) -> OptionsModel {
        OptionsModel {
            filter: match self.signal_filter {
                Some(names) => Some(string_texts(names@)),
                None => None,
            },
            naming: ColumnNaming::Signal,
            j1939_pgn_fallback: j1939_hint,
        }
    }
}

/// The decoder that a conversion needs for a database, or why there is none.
pub open spec fn decoder_for(dbc: DbcModel, options: &ConvertOptions) -> Result<
    DecoderModel,
    ConvertError,
> {
    if dbc.messages.len() == 0 {
        Err(ConvertError::NoMessages)
    } else {
        Ok(bind(dbc.messages, options.decoding(dbc.j1939_hint), dbc.messages.len() as int))
    }
}

/// A decoder or an error, by its content.
pub open spec fn decoder_view(r: Result<Decoder, ConvertError>) -> Result<
    DecoderModel,
    ConvertError,
> {
    match r {
        Ok(d) => Ok(d@),
        Err(e) => Err(e),
    }
}

/// Make the decoder for a database.
pub fn make_decoder(dbc: &Dbc, options: &ConvertOptions) -> (r: Result<Decoder, ConvertError>)
    requires
        dbc.wf(),
    ensures
        decoder_view(r) == decoder_for(dbc@, options),
        r matches Ok(d) ==> d.wf() && d@.wf(),
{
    if dbc.messages.len() == 0 {
        return Err(ConvertError::NoMessages);
    }
    let decoder_options = DecoderOptions {
        filter: options.signal_filter.as_ref(),
        naming: ColumnNaming::Signal,
        j1939_pgn_fallback: dbc.j1939_hint,
    };
    Ok(Decoder::with_options(dbc, decoder_options))
}

/// Read the bytes of a DBC file and make the decoder for them.
pub fn load_decoder(bytes: &[u8], options: &ConvertOptions) -> (r: Result<Decoder, ConvertError>)
    ensures
        decoder_view(r) == (match database(utf8_lossy(bytes@)) {
            Ok(dbc) => decoder_for(dbc, options),
            Err(e) => Err(ConvertError::Dbc(e)),
        }),
        r matches Ok(d) ==> d.wf() && d@.wf(),
{
    match Dbc::from_bytes(bytes) {
        Ok(dbc) => make_decoder(&dbc, options),
        Err(e) => Err(ConvertError::Dbc(e)),
    }
}

/// What a conversion needs or has done.
#[derive(Debug, Clone, Copy, PartialEq, Eq, Structural)]
pub enum Status {
    /// There is more to do.
    Running,
    /// The next bytes of the log file are wanted, or word that there are none.
    NeedInput,
    /// The log is converted.
    Done,
}

/// One step of a conversion.
#[derive(Debug)]
pub struct Step {
    /// Rows to write.
    pub rows: RowRun<RawValue>,
    /// Progress to show.
    pub report: Option<ProgressUpdate>,
    pub status: Status,
}

/// The mathematical content of a [`ProgressUpdate`].
pub struct UpdateModel {
    pub progress: Progress,
    pub current_message: Option<Seq<char>>,
}

impl View for ProgressUpdate {
    type V = UpdateModel;

    open spec fn view(&self) -> UpdateModel {
        UpdateModel {
            progress: self.progress,
            current_message: match self.current_message {
                Some(name) => Some(name@),
                None => None,
            },
        }
    }
}

/// The mathematical content of a [`Step`].
pub struct StepModel {
    pub rows: Seq<Row<RawValue>>,
    pub report: Option<UpdateModel>,
    pub status: Status,
}

impl View for Step {
    type V = StepModel;

    open spec fn view(&self) -> StepModel {
        StepModel {
            rows: self.rows.rows(),
            report: match self.report {
                Some(update) => Some(update@),
                None => None,
            },
            status: self.status,
        }
    }
}

/// A step or an error, by its content.
pub open spec fn step_view(r: Result<Step, ConvertError>) -> Result<StepModel, ConvertError> {
    match r {
        Ok(step) => Ok(step@),
        Err(e) => Err(e),
    }
}

/// The error of the log that ended a conversion.
pub open spec fn blf_error(e: Option<ConvertError>) -> Option<BlfError> {
    match e {
        Some(ConvertError::Blf(e)) => Some(e),
        _ => None,
    }
}

/// A count after `more`; it stops at the largest number there is.
pub open spec fn counted(n: u64, more: int) -> u64 {
    if n + more > u64::MAX {
        u64::MAX
    } else {
        (n + more) as u64
    }
}

/// Progress is reported after this number of frames, and so on.
pub const REPORT_EVERY: u64 = 4096;

/// The name of the CAN ID column.
pub open spec fn can_id_name() -> Seq<char> {
    "CanId"@
}

/// The cells of a frame behind a cell with its CAN ID.
pub open spec fn with_can_id(id: int, cells: Seq<(usize, RawValue)>) -> Seq<(usize, RawValue)> {
    seq![(0usize, RawValue::Unsigned(id as u64))] + cells.map_values(
        |c: (usize, RawValue)| ((c.0 + 1) as usize, c.1),
    )
}

/// What a conversion knows.
pub struct ConversionModel {
    pub reader: ReaderModel,
    pub decoder: DecoderModel,
    /// The resampler, where the rows are resampled.
    pub shaper: Option<ResamplerModel<RawValue>>,
    /// What is added to the timestamps of the log, in nanoseconds.
    pub base: int,
    /// Whether rows start with a CAN ID column.
    pub can_id: bool,
    /// Whether an unknown CAN ID ends the conversion.
    pub strict: bool,
    pub progress: Progress,
    pub rows_written: u64,
}

/// No measurement starts further than this from the epoch, in nanoseconds.
pub const BASE_LIMIT: i128 = 0x1_0000_0000_0000_0000_0000;

impl ConversionModel {
    /// The parts fit together, and the counts agree: no more frames are
    /// decoded than read, and a row per decoded frame is written where rows
    /// are not resampled.
    pub open spec fn wf(self) -> bool {
        &&& self.decoder.wf()
        &&& self.decoder.columns.len() < usize::MAX
        &&& -BASE_LIMIT <= self.base <= BASE_LIMIT
        &&& self.progress.frames_decoded <= self.progress.frames_read
        &&& match self.shaper {
            Some(shaper) => {
                &&& shaper.wf()
                &&& shaper.current.len() == self.decoder.columns.len()
                &&& !self.can_id
            },
            None => self.rows_written == self.progress.frames_decoded,
        }
    }

    /// The names of the columns behind the timestamp.
    pub open spec fn columns(self) -> Seq<Seq<char>> {
        if self.can_id {
            seq![can_id_name()] + self.decoder.columns
        } else {
            self.decoder.columns
        }
    }

    /// The time of a frame.
    pub open spec fn time_of(self, frame: FrameModel) -> int {
        self.base + frame.timestamp_ns
    }

    /// The rows that a decoded frame brings out.
    pub open spec fn frame_rows(self, frame: FrameModel, cells: Seq<(usize, RawValue)>) -> Seq<
        Row<RawValue>,
    > {
        match self.shaper {
            Some(shaper) => shaper.rows_before(self.time_of(frame)),
            None => seq![
                (
                    self.time_of(frame),
                    if self.can_id {
                        with_can_id(frame.id, cells)
                    } else {
                        cells
                    },
                ),
            ],
        }
    }

    /// The name of the message that a frame belongs to.
    pub open spec fn message_of(self, frame: FrameModel) -> Option<Seq<char>> {
        match self.decoder.lookup(frame) {
            Some(i) => Some(self.decoder.messages[i].name),
            None => None,
        }
    }

    /// The conversion after a decoded frame.
    pub open spec fn with_cells(self, frame: FrameModel, cells: Seq<(usize, RawValue)>) -> Self {
        ConversionModel {
            shaper: match self.shaper {
                Some(shaper) => Some(shaper.pushed(self.time_of(frame), cells)),
                None => None,
            },
            progress: Progress {
                frames_decoded: counted(self.progress.frames_decoded, 1),
                ..self.progress
            },
            rows_written: counted(
                self.rows_written,
                self.frame_rows(frame, cells).len() as int,
            ),
            ..self
        }
    }

    /// The conversion with the bytes that the reader has consumed counted.
    pub open spec fn with_bytes(self) -> Self {
        ConversionModel {
            progress: Progress { bytes_read: self.reader.consumed as u64, ..self.progress },
            ..self
        }
    }

    /// Take in one frame.
    pub open spec fn take_frame(self, frame: FrameModel) -> (Self, Result<
        StepModel,
        ConvertError,
    >) {
        let read = ConversionModel {
            progress: Progress {
                frames_read: counted(self.progress.frames_read, 1),
                ..self.progress
            },
            ..self
        };
        if self.strict && self.decoder.lookup(frame) is None {
            (read, Err(ConvertError::UnknownId(frame.id as u32)))
        } else {
            let (after, rows) = match self.decoder.decoded(frame) {
                Some(cells) => (read.with_cells(frame, cells), read.frame_rows(frame, cells)),
                None => (read, Seq::empty()),
            };
            if after.progress.frames_read % REPORT_EVERY == 0 {
                let shown = after.with_bytes();
                let update = UpdateModel {
                    progress: shown.progress,
                    current_message: self.message_of(frame),
                };
                (shown, Ok(StepModel { rows, report: Some(update), status: Status::Running }))
            } else {
                (after, Ok(StepModel { rows, report: None, status: Status::Running }))
            }
        }
    }

    /// Bring the conversion to its end: the trailing row, and a last report.
    pub open spec fn finish(self) -> (Self, Result<StepModel, ConvertError>) {
        let rows = match self.shaper {
            Some(shaper) => shaper.last_rows(),
            None => Seq::empty(),
        };
        let done = ConversionModel {
            shaper: match self.shaper {
                Some(shaper) => Some(ResamplerModel { dirty: false, ..shaper }),
                None => None,
            },
            rows_written: counted(self.rows_written, rows.len() as int),
            ..self
        }.with_bytes();
        let update = UpdateModel { progress: done.progress, current_message: None };
        (done, Ok(StepModel { rows, report: Some(update), status: Status::Done }))
    }

    /// The next step: take in a frame, ask for bytes, or come to the end.
    pub open spec fn advance(self) -> (Self, Result<StepModel, ConvertError>) {
        let (reader, answer) = self.reader.next();
        let read = ConversionModel { reader, ..self };
        match answer {
            Err(e) => (read, Err(ConvertError::Blf(e))),
            Ok(Some(frame)) => read.take_frame(frame),
            Ok(None) => if reader.eof {
                read.finish()
            } else {
                (
                    read,
                    Ok(
                        StepModel {
                            rows: Seq::empty(),
                            report: None,
                            status: Status::NeedInput,
                        },
                    ),
                )
            },
        }
    }
}

/// A running conversion.
pub struct Conversion {
    reader: BlfReader,
    decoder: Decoder,
    shaper: Option<Resampler<RawValue>>,
    base_ns: i128,
    can_id: bool,
    strict: bool,
    progress: Progress,
    rows_written: u64,
}

impl View for Conversion {
    type V = ConversionModel;

    closed spec fn view(&self) -> ConversionModel {
        ConversionModel {
            reader: self.reader@,
            decoder: self.decoder@,
            shaper: match self.shaper {
                Some(shaper) => Some(shaper@),
                None => None,
            },
            base: self.base_ns as int,
            can_id: self.can_id,
            strict: self.strict,
            progress: self.progress,
            rows_written: self.rows_written,
        }
    }
}

/// Put a cell with the CAN ID in front of the cells of a frame.
fn prepend_can_id(id: u32, cells: &Vec<(usize, RawValue)>) -> (r: Vec<(usize, RawValue)>)
    requires
        forall|k: int| 0 <= k < cells@.len() ==> (#[trigger] cells@[k]).0 < usize::MAX,
    ensures
        r@ == with_can_id(id as int, cells@),
{
    let mut row: Vec<(usize, RawValue)> = Vec::new();
    row.push((0, RawValue::Unsigned(id as u64)));
    let mut k: usize = 0;
    while k < cells.len()
        invariant
            k <= cells@.len(),
            forall|j: int| 0 <= j < cells@.len() ==> (#[trigger] cells@[j]).0 < usize::MAX,
            row@.len() == k + 1,
            row@[0] == (0usize, RawValue::Unsigned(id as u64)),
            forall|j: int|
                1 <= j < row@.len() ==> #[trigger] row@[j] == (
                    (cells@[j - 1].0 + 1) as usize,
                    cells@[j - 1].1,
                ),
        decreases cells@.len() - k,
    {
        let (col, value) = cells[k];
        assert(cells@[k as int].0 < usize::MAX);
        row.push((col + 1, value));
        k += 1;
    }
    assert(row@ =~= with_can_id(id as int, cells@));
    row
}

/// The columns of a row with a CAN ID are in order as well.
pub proof fn lemma_with_can_id(id: int, cells: Seq<(usize, RawValue)>, columns: int)
    requires
        cells_ordered(cells, columns),
        0 <= columns < usize::MAX,
    ensures
        cells_ordered(with_can_id(id, cells), columns + 1),
{
    let row = with_can_id(id, cells);
    assert forall|k: int| 1 <= k < row.len() implies #[trigger] row[k] == (
        (cells[k - 1].0 + 1) as usize,
        cells[k - 1].1,
    ) by {}
    assert forall|k: int| 0 <= k < row.len() implies (#[trigger] row[k]).0 < columns + 1 by {
        if k > 0 {
            assert(cells[k - 1].0 < columns);
        }
    }
    assert forall|k: int, l: int| 0 <= k < l < row.len() implies (#[trigger] row[k]).0 < (
    #[trigger] row[l]).0 by {
        assert(cells[l - 1].0 < columns);
        if k > 0 {
            assert(cells[k - 1].0 < cells[l - 1].0);
        }
    }
}

/// Add to a count, up to the largest number there is.
fn count_up(n: u64, more: u128) -> (r: u64)
    ensures
        r == counted(n, more as int),
{
    if more > (u64::MAX - n) as u128 {
        u64::MAX
    } else {
        n + more as u64
    }
}

impl Conversion {
    /// The parts are well formed and fit together.
    pub closed spec fn wf(&self) -> bool {
        &&& self.reader.wf()
        &&& self.decoder.wf()
        &&& self@.wf()
    }

    /// The number of bytes that can still be handed over.
    pub closed spec fn room(&self) -> int {
        self.reader.room()
    }

    /// Start a conversion. `total_bytes` is the size of the log file.
    pub fn new(
        decoder: Decoder,
        reader: BlfReader,
        options: &ConvertOptions,
        total_bytes: u64,
    ) -> (r: Self)
        requires
            decoder.wf(),
            decoder@.wf(),
            reader.wf(),
            options.layout == OutputLayout::Resampled ==> options.resample_ns > 0,
            decoder@.columns.len() < usize::MAX,
        ensures
            r.wf(),
            r@.wf(),
            r.room() == reader.room(),
            r@ == (ConversionModel {
                reader: reader@,
                decoder: decoder@,
                shaper: match options.layout {
                    OutputLayout::Resampled => Some(
                        ResamplerModel::fresh(
                            decoder@.columns.len(),
                            options.resample_ns as int,
                        ),
                    ),
                    OutputLayout::PerFrame => None,
                },
                base: match options.timestamp {
                    TimestampMode::RelativeSeconds => 0,
                    TimestampMode::EpochSeconds => epoch_nanos(reader@.start_time),
                },
                can_id: options.keep_can_id && options.layout == OutputLayout::PerFrame,
                strict: !options.skip_unknown_ids,
                progress: Progress {
                    bytes_read: 0,
                    total_bytes,
                    frames_read: 0,
                    frames_decoded: 0,
                },
                rows_written: 0,
            }),
    {
        let count: usize = decoder.columns().len();
        let base_ns: i128 = match options.timestamp {
            TimestampMode::RelativeSeconds => 0,
            TimestampMode::EpochSeconds => reader.start_time().to_epoch_nanos(),
        };
        let shaper = match options.layout {
            OutputLayout::Resampled => Some(Resampler::new(count, options.resample_ns)),
            OutputLayout::PerFrame => None,
        };
        Conversion {
            reader,
            decoder,
            shaper,
            base_ns,
            can_id: options.keep_can_id && options.layout == OutputLayout::PerFrame,
            strict: !options.skip_unknown_ids,
            progress: Progress { bytes_read: 0, total_bytes, frames_read: 0, frames_decoded: 0 },
            rows_written: 0,
        }
    }

    /// Output column names (excluding the leading Timestamp column).
    pub fn columns(&self) -> (r: Vec<String>)
        ensures
            string_texts(r@) == self@.columns(),
    {
        let names: &[String] = self.decoder.columns();
        let ghost all = self@.columns();
        let mut columns: Vec<String> = Vec::new();
        if self.can_id {
            columns.push("CanId".to_owned());
        }
        let ghost lead = columns@.len() as int;
        let mut i: usize = 0;
        assert(string_texts(columns@) =~= all.take(lead));
        while i < names.len()
            invariant
                i <= names@.len(),
                all == self@.columns(),
                string_texts(names@) == self@.decoder.columns,
                lead == if self@.can_id {
                    1int
                } else {
                    0int
                },
                columns@.len() == lead + i,
                string_texts(columns@) == all.take(lead + i),
            decreases names@.len() - i,
        {
            let ghost before = string_texts(columns@);
            let name: String = names[i].clone();
            let ghost text = name@;
            assert(string_texts(names@)[i as int] == text);
            assert(all[lead + i] == text);
            columns.push(name);
            assert(string_texts(columns@) =~= before.push(text));
            assert(all.take(lead + i + 1) =~= all.take(lead + i).push(text));
            i += 1;
        }
        assert(names@.len() == string_texts(names@).len());
        assert(all.take(lead + i) =~= all);
        columns
    }

    /// Factor and offset of a column, in decimal notation. A CAN ID is output
    /// as it is.
    pub fn scale(&self, column: usize) -> (r: (&str, &str))
        requires
            self.wf(),
            column < self@.columns().len(),
        ensures
            ({
                let lead = if self@.can_id {
                    1int
                } else {
                    0int
                };
                if column < lead {
                    r.0@ == "1"@ && r.1@ == "0"@
                } else {
                    &&& r.0@ == self@.decoder.scales[column - lead].factor
                    &&& r.1@ == self@.decoder.scales[column - lead].offset
                }
            }),
    {
        if self.can_id {
            if column == 0 {
                ("1", "0")
            } else {
                self.decoder.scale(column - 1)
            }
        } else {
            self.decoder.scale(column)
        }
    }

    /// What is added to the timestamps of the log, in nanoseconds.
    pub fn base_ns(&self) -> (r: i128)
        ensures
            r == self@.base,
    {
        self.base_ns
    }

    /// Hand over the next bytes of the log file.
    pub fn feed(&mut self, bytes: &[u8])
        requires
            old(self).wf(),
            !old(self)@.reader.closed,
            bytes@.len() <= old(self).room(),
        ensures
            final(self).wf(),
            final(self).room() == old(self).room() - bytes@.len(),
            final(self)@ == (ConversionModel {
                reader: ReaderModel {
                    input: old(self)@.reader.input + bytes@,
                    ..old(self)@.reader
                },
                ..old(self)@
            }),
    {
        self.reader.feed(bytes);
    }

    /// Say that the log file has no more bytes.
    pub fn close(&mut self)
        requires
            old(self).wf(),
        ensures
            final(self).wf(),
            final(self).room() == old(self).room(),
            final(self)@ == (ConversionModel {
                reader: ReaderModel { closed: true, ..old(self)@.reader },
                ..old(self)@
            }),
    {
        self.reader.close();
    }

    /// What the conversion brought, for the file at `output_path`.
    pub fn summary(&self, output_path: PathBuf) -> (r: Summary)
        ensures
            r.output_path == output_path,
            r.frames_read == self@.progress.frames_read,
            r.frames_decoded == self@.progress.frames_decoded,
            r.rows_written == self@.rows_written,
            r.signal_columns == self@.decoder.columns.len(),
    {
        let names: &[String] = self.decoder.columns();
        assert(names@.len() == string_texts(names@).len());
        Summary {
            output_path,
            frames_read: self.progress.frames_read,
            frames_decoded: self.progress.frames_decoded,
            rows_written: self.rows_written,
            signal_columns: names.len(),
        }
    }

    /// Take in one frame that the decoder knows.
    fn take_cells(&mut self, frame: &CanFrame, cells: Vec<(usize, RawValue)>) -> (r: RowRun<
        RawValue,
    >)
        requires
            old(self).wf(),
            old(self)@.progress.frames_decoded < old(self)@.progress.frames_read
                || old(self)@.progress.frames_read == u64::MAX,
            cells_ordered(cells@, old(self)@.decoder.columns.len() as int),
        ensures
            final(self).wf(),
            final(self).room() == old(self).room(),
            final(self)@ == old(self)@.with_cells(frame@, cells@),
            r.wf(),
            r.rows() == old(self)@.frame_rows(frame@, cells@),
            cells_ordered(r.cells@, old(self)@.columns().len() as int),
    {
        let ghost before = self@;
        let timestamp_ns: i128 = self.base_ns + frame.timestamp_ns as i128;
        self.progress.frames_decoded = count_up(self.progress.frames_decoded, 1);
        let rows: RowRun<RawValue>;
        if let Some(shaper) = &mut self.shaper {
            rows = shaper.push(timestamp_ns, cells.as_slice());
        } else if self.can_id {
            proof {
                lemma_with_can_id(frame@.id, cells@, before.decoder.columns.len() as int);
            }
            rows = RowRun::single(timestamp_ns, prepend_can_id(frame.id, &cells));
        } else {
            rows = RowRun::single(timestamp_ns, cells);
        }
        assert(rows.rows() == before.frame_rows(frame@, cells@));
        assert(rows.rows().len() == rows.count);
        self.rows_written = count_up(self.rows_written, rows.count);
        assert(self@ == before.with_cells(frame@, cells@));
        rows
    }

    /// Take in one frame.
    fn take_frame(&mut self, frame: &CanFrame) -> (r: Result<Step, ConvertError>)
        requires
            old(self).wf(),
            frame@.wf(),
        ensures
            final(self).wf(),
            final(self).room() == old(self).room(),
            final(self)@ == old(self)@.take_frame(frame@).0,
            step_view(r) == old(self)@.take_frame(frame@).1,
            r matches Ok(step) ==> step.rows.wf() && cells_ordered(
                step.rows.cells@,
                old(self)@.columns().len() as int,
            ),
    {
        let ghost before = self@;
        self.progress.frames_read = count_up(self.progress.frames_read, 1);
        if self.strict && !self.decoder.contains_id(frame) {
            return Err(ConvertError::UnknownId(frame.id));
        }
        let mut cells: Vec<(usize, RawValue)> = Vec::new();
        let rows: RowRun<RawValue> = if self.decoder.decode(frame, &mut cells) {
            self.take_cells(frame, cells)
        } else {
            RowRun::none()
        };
        let mut report: Option<ProgressUpdate> = None;
        if self.progress.frames_read % REPORT_EVERY == 0 {
            self.progress.bytes_read = self.reader.bytes_read();
            let current_message: Option<String> = match self.decoder.message_name(frame) {
                Some(name) => Some(name.to_owned()),
                None => None,
            };
            report = Some(ProgressUpdate { progress: self.progress, current_message });
        }
        Ok(Step { rows, report, status: Status::Running })
    }

    /// Bring the conversion to its end.
    fn finish(&mut self) -> (r: Step)
        requires
            old(self).wf(),
        ensures
            final(self).wf(),
            final(self).room() == old(self).room(),
            final(self)@ == old(self)@.finish().0,
            Ok::<StepModel, ConvertError>(r@) == old(self)@.finish().1,
            r.rows.wf(),
            cells_ordered(r.rows.cells@, old(self)@.columns().len() as int),
    {
        let ghost before = self@;
        let rows: RowRun<RawValue>;
        if let Some(shaper) = &mut self.shaper {
            rows = shaper.finish();
        } else {
            rows = RowRun::none();
        }
        assert(rows.rows().len() == rows.count);
        self.rows_written = count_up(self.rows_written, rows.count);
        self.progress.bytes_read = self.reader.bytes_read();
        let update = ProgressUpdate { progress: self.progress, current_message: None };
        assert(self@ == before.finish().0);
        Step { rows, report: Some(update), status: Status::Done }
    }

    /// The next step. Rows are to be written in the order they come. After an
    /// error of the log the reader is as [`BlfReader::next_frame`] leaves it.
    pub fn advance(&mut self) -> (r: Result<Step, ConvertError>)
        requires
            old(self).wf(),
        ensures
            final(self).wf(),
            step_view(r) == old(self)@.advance().1,
            final(self)@ == (ConversionModel {
                reader: final(self)@.reader,
                ..old(self)@.advance().0
            }),
            old(self)@.advance().0.reader.settles_as(
                blf_error(r.err()),
                old(self)@.reader.failing_payload(),
                final(self)@.reader,
            ),
            r matches Ok(step) ==> step.rows.wf() && cells_ordered(
                step.rows.cells@,
                old(self)@.columns().len() as int,
            ),
    {
        match self.reader.next_frame() {
            Err(e) => Err(ConvertError::Blf(e)),
            Ok(Some(frame)) => self.take_frame(&frame),
            Ok(None) => {
                if self.reader.at_end() {
                    Ok(self.finish())
                } else {
                    Ok(Step { rows: RowRun::none(), report: None, status: Status::NeedInput })
                }
            },
        }
    }
}

} // verus!
