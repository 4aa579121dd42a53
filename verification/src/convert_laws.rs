//! What holds of a conversion as a whole.

use crate::blf::ReaderModel;
use crate::blf_laws::{handed, law_every_byte_is_counted, law_feeding_is_transparent, settled};
use crate::convert::{
    counted, decoder_for, with_can_id, ConversionModel, ConvertError, ConvertOptions, Status,
    StepModel,
};
use crate::dbc::{DbcModel, MessageModel};
use crate::decode::{bind, string_texts, ColumnNaming, OptionsModel, RawValue};
use crate::frame::FrameModel;
use crate::shape::{ResamplerModel, Row};
use crate::shape_laws::{resampled, rows_after, state_after};
use vstd::prelude::*;

verus! {

/// The conversion after the first `n` of some frames.
pub open spec fn after_frames(c: ConversionModel, frames: Seq<FrameModel>, n: int) -> (
ConversionModel)
    decreases n,
{
    if n <= 0 {
        c
    } else {
        after_frames(c, frames, n - 1).take_frame(frames[n - 1]).0
    }
}

/// The rows that the first `n` of some frames bring out.
pub open spec fn rows_of_frames(c: ConversionModel, frames: Seq<FrameModel>, n: int) -> Seq<
    Row<RawValue>,
>
    decreases n,
{
    if n <= 0 {
        Seq::empty()
    } else {
        let step = after_frames(c, frames, n - 1).take_frame(frames[n - 1]).1;
        rows_of_frames(c, frames, n - 1) + (match step {
            Ok(step) => step.rows,
            Err(_) => Seq::empty(),
        })
    }
}

/// What the first `n` of some frames say: the time and the cells of each that
/// the decoder knows, behind its CAN ID where that is wanted.
pub open spec fn decoded_rows(c: ConversionModel, frames: Seq<FrameModel>, n: int) -> Seq<
    Row<RawValue>,
>
    decreases n,
{
    if n <= 0 {
        Seq::empty()
    } else {
        let before = decoded_rows(c, frames, n - 1);
        let frame = frames[n - 1];
        match c.decoder.decoded(frame) {
            Some(cells) => before.push(
                (
                    c.base + frame.timestamp_ns,
                    if c.can_id {
                        with_can_id(frame.id, cells)
                    } else {
                        cells
                    },
                ),
            ),
            None => before,
        }
    }
}

/// Whether none of the first `n` of some frames ends the conversion: unknown
/// identifiers are skipped, or there are none.
pub open spec fn all_taken(c: ConversionModel, frames: Seq<FrameModel>, n: int) -> bool {
    c.strict ==> forall|k: int|
        0 <= k < n ==> c.decoder.lookup(#[trigger] frames[k]) is Some
}

/// Whether the step for each of the first `n` of some frames succeeds.
pub open spec fn no_step_fails(c: ConversionModel, frames: Seq<FrameModel>, n: int) -> bool {
    forall|k: int|
        0 <= k < n ==> after_frames(c, frames, k).take_frame(#[trigger] frames[k]).1 is Ok
}

proof fn lemma_no_step_fails(c: ConversionModel, frames: Seq<FrameModel>, n: int)
    requires
        all_taken(c, frames, n),
    ensures
        no_step_fails(c, frames, n),
{
    assert forall|k: int| 0 <= k < n implies after_frames(c, frames, k).take_frame(
        #[trigger] frames[k],
    ).1 is Ok by {
        lemma_frames_keep_setup(c, frames, k);
    }
}

proof fn lemma_frames_keep_setup(c: ConversionModel, frames: Seq<FrameModel>, n: int)
    ensures
        ({
            let after = after_frames(c, frames, n);
            &&& after.decoder == c.decoder
            &&& after.base == c.base
            &&& after.can_id == c.can_id
            &&& after.strict == c.strict
            &&& after.shaper is Some == c.shaper is Some
        }),
    decreases n,
{
    if n > 0 {
        lemma_frames_keep_setup(c, frames, n - 1);
    }
}

/// What is added to the end of a list of frames does not change what came
/// before.
proof fn lemma_more_frames<V>(
    start: ResamplerModel<V>,
    frames: Seq<Row<V>>,
    more: Row<V>,
    n: int,
)
    requires
        0 <= n <= frames.len(),
    ensures
        state_after(start, frames.push(more), n) == state_after(start, frames, n),
        rows_after(start, frames.push(more), n) == rows_after(start, frames, n),
    decreases n,
{
    if n > 0 {
        lemma_more_frames(start, frames, more, n - 1);
    }
}

proof fn lemma_resampled_frames(c: ConversionModel, frames: Seq<FrameModel>, n: int)
    requires
        c.shaper is Some,
        all_taken(c, frames, n),
        !c.can_id,
        0 <= n <= frames.len(),
    ensures
        ({
            let start = c.shaper->0;
            let known = decoded_rows(c, frames, n);
            &&& after_frames(c, frames, n).shaper == Some(
                state_after(start, known, known.len() as int),
            )
            &&& rows_of_frames(c, frames, n) == rows_after(start, known, known.len() as int)
        }),
    decreases n,
{
    if n > 0 {
        let start = c.shaper->0;
        let frame = frames[n - 1];
        let before = decoded_rows(c, frames, n - 1);
        lemma_resampled_frames(c, frames, n - 1);
        lemma_frames_keep_setup(c, frames, n - 1);
        match c.decoder.decoded(frame) {
            Some(cells) => {
                let row = (c.base + frame.timestamp_ns, cells);
                lemma_more_frames(start, before, row, before.len() as int);
                assert(before.push(row)[before.len() as int] == row);
            },
            None => {
                assert(rows_of_frames(c, frames, n - 1) + Seq::<Row<RawValue>>::empty()
                    =~= rows_of_frames(c, frames, n - 1));
            },
        }
    }
}

/// A resampled conversion writes the resampled log: the rows that its frames
/// bring out, with the trailing row behind them, are those of the resampler
/// over the frames that the decoder knows, in the order of the log. No step
/// fails, if no frame has an unknown identifier or these are skipped.
pub proof fn law_resampled_conversion(c: ConversionModel, interval: int, frames: Seq<FrameModel>)
    requires
        c.shaper == Some(ResamplerModel::<RawValue>::fresh(c.decoder.columns.len(), interval)),
        all_taken(c, frames, frames.len() as int),
        !c.can_id,
    ensures
        ({
            let n = frames.len() as int;
            let end = after_frames(c, frames, n).finish().1;
            &&& no_step_fails(c, frames, n)
            &&& end is Ok
            &&& rows_of_frames(c, frames, n) + end->Ok_0.rows == resampled(
                c.decoder.columns.len(),
                interval,
                decoded_rows(c, frames, n),
            )
        }),
{
    lemma_no_step_fails(c, frames, frames.len() as int);
    lemma_resampled_frames(c, frames, frames.len() as int);
}

/// A conversion by frames writes a row per frame that the decoder knows, in
/// the order of the log, with the frame's time and values, and the CAN ID in
/// front where that is wanted; and nothing behind them. No step fails, if no
/// frame has an unknown identifier or these are skipped.
pub proof fn law_conversion_by_frames(c: ConversionModel, frames: Seq<FrameModel>, n: int)
    requires
        c.shaper is None,
        all_taken(c, frames, n),
        0 <= n <= frames.len(),
    ensures
        no_step_fails(c, frames, n),
        rows_of_frames(c, frames, n) == decoded_rows(c, frames, n),
        after_frames(c, frames, n).finish().1 is Ok,
        after_frames(c, frames, n).finish().1->Ok_0.rows.len() == 0,
    decreases n,
{
    lemma_no_step_fails(c, frames, n);
    lemma_frames_keep_setup(c, frames, n);
    if n > 0 {
        let frame = frames[n - 1];
        law_conversion_by_frames(c, frames, n - 1);
        lemma_frames_keep_setup(c, frames, n - 1);
        let before = rows_of_frames(c, frames, n - 1);
        match c.decoder.decoded(frame) {
            Some(cells) => {
                let row = (
                    c.base + frame.timestamp_ns,
                    if c.can_id {
                        with_can_id(frame.id, cells)
                    } else {
                        cells
                    },
                );
                assert(before + seq![row] =~= before.push(row));
            },
            None => {
                assert(before + Seq::<Row<RawValue>>::empty() =~= before);
            },
        }
    }
}

/// The CAN ID column is put in front of the values and changes nothing else.
pub proof fn law_can_id_goes_in_front(
    c: ConversionModel,
    frame: FrameModel,
    cells: Seq<(usize, RawValue)>,
)
    requires
        c.shaper is None,
        c.can_id,
        forall|k: int| 0 <= k < cells.len() ==> (#[trigger] cells[k]).0 < usize::MAX,
    ensures
        ({
            let plain = ConversionModel { can_id: false, ..c };
            let row = c.frame_rows(frame, cells)[0];
            let plain_row = plain.frame_rows(frame, cells)[0];
            &&& c.columns().drop_first() == plain.columns()
            &&& row.0 == plain_row.0
            &&& row.1.len() == plain_row.1.len() + 1
            &&& row.1[0] == (0usize, RawValue::Unsigned(frame.id as u64))
            &&& forall|k: int|
                0 <= k < plain_row.1.len() ==> (#[trigger] plain_row.1[k]).0 + 1 == row.1[k + 1].0
                    && plain_row.1[k].1 == row.1[k + 1].1
        }),
{
    let plain = ConversionModel { can_id: false, ..c };
    assert(c.columns().drop_first() =~= plain.columns());
    let row = with_can_id(frame.id, cells);
    assert forall|k: int| 0 <= k < cells.len() implies (#[trigger] cells[k]).0 + 1 == row[k + 1].0
        && cells[k].1 == row[k + 1].1 by {}
}

/// A frame with an unknown identifier ends a strict conversion, with that
/// identifier in the error; one that skips unknown identifiers takes in every
/// frame.
pub proof fn law_unknown_identifiers(c: ConversionModel, frame: FrameModel)
    ensures
        c.take_frame(frame).1 is Err <==> c.strict && c.decoder.lookup(frame) is None,
        c.take_frame(frame).1 matches Err(e) ==> e == ConvertError::UnknownId(frame.id as u32),
{
}

/// A strict conversion takes in the frames before the first one with an
/// unknown identifier, and gives up at that one.
pub proof fn law_strict_conversion_gives_up(c: ConversionModel, frames: Seq<FrameModel>, n: int)
    requires
        c.strict,
        0 <= n < frames.len(),
        forall|k: int| 0 <= k < n ==> c.decoder.lookup(#[trigger] frames[k]) is Some,
        c.decoder.lookup(frames[n]) is None,
    ensures
        no_step_fails(c, frames, n),
        after_frames(c, frames, n).take_frame(frames[n]).1 == Err::<StepModel, ConvertError>(
            ConvertError::UnknownId(frames[n].id as u32),
        ),
{
    lemma_no_step_fails(c, frames, n);
    lemma_frames_keep_setup(c, frames, n);
}

/// Every row that is handed out is counted, up to the largest number there
/// is, and every decoded frame was read.
pub proof fn law_counts_agree(c: ConversionModel)
    requires
        c.progress.frames_decoded <= c.progress.frames_read,
    ensures
        ({
            let (after, answer) = c.advance();
            &&& after.progress.frames_decoded <= after.progress.frames_read
            &&& answer matches Ok(step) ==> after.rows_written == counted(
                c.rows_written,
                step.rows.len() as int,
            )
        }),
{
}

/// At its end a conversion has read the whole file: the last report counts
/// every byte that was handed over.
pub proof fn law_progress_reaches_completion(c: ConversionModel)
    requires
        settled(c.reader),
        c.reader.consumed + c.reader.input.len() <= u64::MAX,
        0 <= c.reader.consumed,
    ensures
        settled(c.advance().0.reader),
        c.advance().0.reader.consumed + c.advance().0.reader.input.len() == c.reader.consumed
            + c.reader.input.len(),
        c.advance().1 matches Ok(step) ==> (step.status == Status::Done ==> {
            &&& step.report matches Some(update)
            &&& update.progress.bytes_read == c.reader.consumed + c.reader.input.len()
            &&& update.current_message is None
        }),
{
    law_every_byte_is_counted(c.reader);
}

/// A conversion that was handed `more` bytes on top, and told whether the
/// file ends there.
pub open spec fn fed(c: ConversionModel, more: Seq<u8>, closed: bool) -> ConversionModel {
    ConversionModel { reader: handed(c.reader, more, closed), ..c }
}

/// How the file is cut into pieces makes no difference: bytes that come later
/// change nothing about a step that could be made without them, and where a
/// conversion asked for bytes it goes on as if it had had them before.
pub proof fn law_pieces_make_no_difference(c: ConversionModel, more: Seq<u8>, closed: bool)
    requires
        !c.reader.closed,
        !c.reader.eof,
    ensures
        ({
            let (after, answer) = c.advance();
            let waits = answer matches Ok(step) && step.status == Status::NeedInput;
            if waits {
                fed(c, more, closed).advance() == fed(after, more, closed).advance()
            } else {
                fed(c, more, closed).advance() == (fed(after, more, closed), answer)
            }
        }),
{
    law_feeding_is_transparent(c.reader, more, closed);
    lemma_open_has_no_end(c.reader);
    let (reader, answer) = c.reader.next();
    let read = ConversionModel { reader, ..c };
    match answer {
        Ok(Some(frame)) => {
            assert(fed(read, more, closed).take_frame(frame).0 == fed(
                read.take_frame(frame).0,
                more,
                closed,
            ));
        },
        _ => {},
    }
}

/// Only a closed file comes to its end.
proof fn lemma_open_has_no_end(r: ReaderModel)
    requires
        !r.closed,
        !r.eof,
    ensures
        !r.next().0.eof,
    decreases r.input.len(),
{
    if r.frames.len() == 0 {
        crate::blf::lemma_signature_meaning(r.input);
        match crate::blf::top_object(r.input, false) {
            crate::blf::TopObject::Whole { start, size } => {
                let (read, error) = r.take_object(start, size);
                if error is None {
                    lemma_open_has_no_end(read);
                }
            },
            _ => {},
        }
    }
}

/// A frame counts as read; it counts as decoded exactly if it is no remote
/// frame and the decoder knows its identifier. Progress is reported after
/// every 4096 frames, with the bytes consumed and the name of the frame's
/// message, and after no other frame.
pub proof fn law_frames_are_counted_and_reported(c: ConversionModel, frame: FrameModel)
    requires
        c.progress.frames_read < u64::MAX,
        c.progress.frames_decoded < u64::MAX,
        0 <= c.reader.consumed <= u64::MAX,
    ensures
        ({
            let (after, answer) = c.take_frame(frame);
            let known = !frame.is_remote && c.decoder.lookup(frame) is Some;
            &&& after.progress.frames_read == c.progress.frames_read + 1
            &&& after.progress.total_bytes == c.progress.total_bytes
            &&& after.progress.frames_decoded == c.progress.frames_decoded + (if known {
                1int
            } else {
                0int
            })
            &&& !known ==> after.rows_written == c.rows_written
            &&& answer matches Ok(step) ==> {
                &&& step.status == Status::Running
                &&& !known ==> step.rows.len() == 0
                &&& step.report is Some <==> (c.progress.frames_read + 1) % 4096 == 0
                &&& step.report matches Some(update) ==> {
                    &&& update.progress == after.progress
                    &&& update.progress.bytes_read == c.reader.consumed
                    &&& match c.decoder.lookup(frame) {
                        Some(i) => update.current_message == Some(c.decoder.messages[i].name),
                        None => update.current_message is None,
                    }
                }
                &&& step.report is None ==> after.progress.bytes_read == c.progress.bytes_read
            }
        }),
{
}

/// Every row that a frame brings out is counted.
pub proof fn law_rows_are_counted(c: ConversionModel, frame: FrameModel)
    requires
        c.take_frame(frame).1 matches Ok(step) && c.rows_written + step.rows.len() <= u64::MAX,
    ensures
        c.take_frame(frame).1 matches Ok(step) && c.take_frame(frame).0.rows_written
            == c.rows_written + step.rows.len(),
{
}

/// Without resampling a decoded frame brings out one row, at its time, which
/// is that of the measurement start and the frame's own together.
pub proof fn law_row_has_the_time_of_its_frame(
    c: ConversionModel,
    frame: FrameModel,
    cells: Seq<(usize, RawValue)>,
)
    requires
        c.shaper is None,
        c.decoder.decoded(frame) == Some(cells),
        c.decoder.lookup(frame) is Some,
    ensures
        ({
            let step = c.take_frame(frame).1->Ok_0;
            &&& c.take_frame(frame).1 is Ok
            &&& step.rows.len() == 1
            &&& step.rows[0].0 == c.base + frame.timestamp_ns
            &&& !c.can_id ==> step.rows[0].1 == cells
        }),
{
}

/// With resampling the frame's values go to the resampler at its time, and
/// the rows are those that the resampler brings out.
pub proof fn law_frame_goes_to_the_resampler(
    c: ConversionModel,
    frame: FrameModel,
    cells: Seq<(usize, RawValue)>,
)
    requires
        c.shaper is Some,
        c.decoder.decoded(frame) == Some(cells),
        c.decoder.lookup(frame) is Some,
    ensures
        ({
            let (after, answer) = c.take_frame(frame);
            let time = c.base + frame.timestamp_ns;
            &&& answer is Ok
            &&& answer->Ok_0.rows == c.shaper->0.rows_before(time)
            &&& after.shaper == Some(c.shaper->0.pushed(time, cells))
        }),
{
}

/// A conversion ends when its reader is at the end: the trailing row of the
/// resampler comes out, if there is one. An error of the log ends it too.
pub proof fn law_how_a_conversion_ends(c: ConversionModel)
    ensures
        ({
            let (reader, found) = c.reader.next();
            let (after, answer) = c.advance();
            &&& after.reader == reader
            &&& after.decoder == c.decoder
            &&& after.base == c.base
            &&& found matches Err(e) ==> answer == Err::<StepModel, ConvertError>(
                ConvertError::Blf(e),
            )
            &&& found matches Ok(None) ==> {
                &&& answer matches Ok(step)
                &&& step.status == (if reader.eof {
                    Status::Done
                } else {
                    Status::NeedInput
                })
                &&& step.rows == (match c.shaper {
                    Some(shaper) => if reader.eof {
                        shaper.last_rows()
                    } else {
                        Seq::empty()
                    },
                    None => Seq::empty(),
                })
                &&& step.report is Some <==> reader.eof
            }
        }),
{
    let (reader, found) = c.reader.next();
    let read = ConversionModel { reader, ..c };
    if let Ok(Some(frame)) = found {
        assert(read.take_frame(frame).0.reader == reader);
    }
}

/// A conversion decodes under the plain names, restricted to the columns that
/// are asked for, and matches by parameter group exactly for a database that
/// mentions J1939; a database without messages is refused.
pub proof fn law_decoder_of_a_conversion(dbc: DbcModel, options: &ConvertOptions)
    ensures
        match decoder_for(dbc, options) {
            Ok(d) => {
                &&& dbc.messages.len() > 0
                &&& d.j1939_pgn_fallback == dbc.j1939_hint
                &&& d == bind(
                    dbc.messages,
                    OptionsModel {
                        filter: match options.signal_filter {
                            Some(names) => Some(string_texts(names@)),
                            None => None,
                        },
                        naming: ColumnNaming::Signal,
                        j1939_pgn_fallback: dbc.j1939_hint,
                    },
                    dbc.messages.len() as int,
                )
            },
            Err(e) => dbc.messages.len() == 0 && e == ConvertError::NoMessages,
        },
{
    if dbc.messages.len() > 0 {
        lemma_fallback(
            dbc.messages,
            options.decoding(dbc.j1939_hint),
            dbc.messages.len() as int,
        );
    }
}

proof fn lemma_fallback(messages: Seq<MessageModel>, options: OptionsModel, n: int)
    ensures
        bind(messages, options, n).j1939_pgn_fallback == options.j1939_pgn_fallback,
{
}

/// The CAN ID column is called `CanId` and comes first, where it is wanted;
/// behind it come the columns of the decoder, and nothing else.
pub proof fn law_names_of_the_columns(c: ConversionModel)
    ensures
        !c.can_id ==> c.columns() == c.decoder.columns,
        c.can_id ==> c.columns().len() == c.decoder.columns.len() + 1 && c.columns()[0]
            == seq!['C', 'a', 'n', 'I', 'd'] && c.columns().skip(1) == c.decoder.columns,
{
    reveal_strlit("CanId");
    assert("CanId"@ =~= seq!['C', 'a', 'n', 'I', 'd']);
    if c.can_id {
        assert(c.columns().skip(1) =~= c.decoder.columns);
    }
}

} // verus!
