//! What holds of BLF streams however they are cut into pieces.

use crate::blf::{
    epoch_nanos, epoch_time, file_header, first_signature, header_time, junk_length, is_first_signature, last_three, lemma_first_signature,
    lemma_signature_meaning, scan_objects, signature_at, top_object, BlfError, ReaderModel, Scan,
    SystemTimeFields,
    TopObject, COMPRESSION_NONE, COMPRESSION_ZLIB,
};
use crate::bytes::{le16, le32};
use crate::calendar::{days_before_month, days_before_year, law_epoch_days_count_days};
use crate::frame::{message_object, FrameModel};
use crate::inflate::inflated;
use vstd::prelude::*;

verus! {

/// Bytes in front of which no signature starts do not change where the first
/// one stands.
proof fn lemma_signature_behind(s: Seq<u8>, off: int)
    requires
        0 <= off <= s.len(),
        forall|j: int| 0 <= j < off ==> !#[trigger] signature_at(s, j),
    ensures
        match first_signature(s.skip(off)) {
            Some(at) => first_signature(s) == Some(at + off),
            None => first_signature(s) is None,
        },
{
    let t = s.skip(off);
    lemma_signature_meaning(s);
    lemma_signature_meaning(t);
    assert forall|j: int| 0 <= j implies signature_at(t, j) == #[trigger] signature_at(
        s,
        j + off,
    ) by {}
    match first_signature(t) {
        Some(at) => {
            assert(signature_at(s, at + off));
            assert forall|j: int| 0 <= j < at + off implies !#[trigger] signature_at(s, j) by {
                if j >= off {
                    assert(signature_at(t, j - off) == signature_at(s, j - off + off));
                }
            }
            lemma_first_signature(s, at + off);
        },
        None => {
            if let Some(at) = first_signature(s) {
                assert(signature_at(t, at - off) == signature_at(s, at - off + off));
            }
        },
    }
}

/// More bytes at the end leave the first signature where it is.
proof fn lemma_signature_extended(a: Seq<u8>, b: Seq<u8>, at: int)
    requires
        first_signature(a) == Some(at),
    ensures
        first_signature(a + b) == Some(at),
        is_first_signature(a, at),
{
    lemma_signature_meaning(a);
    assert forall|j: int| 0 <= j && j + 4 <= a.len() implies signature_at(a, j)
        == #[trigger] signature_at(a + b, j) by {}
    assert(signature_at(a + b, at));
    lemma_first_signature(a + b, at);
}

/// Dropping bytes in front of the first signature changes nothing that a scan
/// finds.
proof fn lemma_scan_behind(s: Seq<u8>, off: int)
    requires
        0 <= off <= s.len(),
        off == 0 || s.len() - off >= 3,
        forall|j: int| 0 <= j < off ==> !#[trigger] signature_at(s, j),
    ensures
        scan_objects(s).frames == scan_objects(s.skip(off)).frames,
        scan_objects(s).error == scan_objects(s.skip(off)).error,
        scan_objects(s).error is None ==> scan_objects(s).tail == scan_objects(s.skip(off)).tail,
{
    let t = s.skip(off);
    lemma_signature_behind(s, off);
    lemma_signature_meaning(t);
    match first_signature(t) {
        None => {
            assert(last_three(s) =~= last_three(t));
        },
        Some(at) => {
            let rest = t.skip(at);
            assert(s.skip(at + off) =~= rest);
            assert(s.skip(at + off + 4) =~= t.skip(at + 4));
            let size = le32(rest, 8);
            if rest.len() >= 16 && 16 <= size <= rest.len() {
                assert(s.skip(at + off + size) =~= t.skip(at + size));
            }
        },
    }
}

/// An object may span container boundaries: content that comes in two pieces,
/// the second behind what is kept of the first, gives the frames that it
/// gives in one piece.
pub proof fn law_split_across_containers(a: Seq<u8>, b: Seq<u8>)
    requires
        scan_objects(a).error is None,
    ensures
        scan_objects(a + b).frames == scan_objects(a).frames + scan_objects(
            scan_objects(a).tail + b,
        ).frames,
        scan_objects(a + b).error == scan_objects(scan_objects(a).tail + b).error,
        scan_objects(a + b).error is None ==> scan_objects(a + b).tail == scan_objects(
            scan_objects(a).tail + b,
        ).tail,
    decreases a.len(),
{
    let c = a + b;
    lemma_signature_meaning(a);
    match first_signature(a) {
        None => {
            let kept = last_three(a);
            let off = a.len() - kept.len();
            assert(c.skip(off) =~= kept + b);
            assert forall|j: int| 0 <= j < off implies !#[trigger] signature_at(c, j) by {
                assert(signature_at(a, j) == signature_at(c, j));
            }
            lemma_scan_behind(c, off);
            assert(Seq::<FrameModel>::empty() + scan_objects(kept + b).frames
                =~= scan_objects(kept + b).frames);
        },
        Some(at) => {
            lemma_signature_extended(a, b, at);
            let rest = a.skip(at);
            assert(c.skip(at) =~= rest + b);
            let size = le32(rest, 8);
            if rest.len() < 16 || size >= 16 && rest.len() < size {
                lemma_signature_meaning(c);
                lemma_scan_behind(c, at);
                assert(Seq::<FrameModel>::empty() + scan_objects(rest + b).frames
                    =~= scan_objects(rest + b).frames);
            } else if size < 16 {
                assert(c.skip(at + 4) =~= a.skip(at + 4) + b);
                law_split_across_containers(a.skip(at + 4), b);
            } else {
                assert((rest + b).take(size) =~= rest.take(size));
                assert(c.skip(at + size) =~= a.skip(at + size) + b);
                law_split_across_containers(a.skip(at + size), b);
                let more = scan_objects(a.skip(at + size));
                let later = scan_objects(more.tail + b).frames;
                if let Ok(Some(frame)) = message_object(rest.take(size)) {
                    assert(seq![frame] + (more.frames + later) =~= (seq![frame] + more.frames)
                        + later);
                }
            }
        },
    }
}

/// Whether `s` may be kept for the next container: it holds no complete
/// object. Either no signature starts in it, and it is as short as the start
/// of one, or it starts with an object whose header or body is not complete.
pub open spec fn incomplete(s: Seq<u8>) -> bool {
    if first_signature(s) is None {
        s.len() <= 3
    } else {
        &&& signature_at(s, 0)
        &&& s.len() < 16 || 16 <= le32(s, 8) && s.len() < le32(s, 8)
    }
}

/// Every complete object is found at once: what is kept for the next container
/// is the end of the content and holds no complete object, and scanning it
/// again finds nothing and keeps all of it.
pub proof fn law_scan_is_complete(content: Seq<u8>)
    requires
        scan_objects(content).error is None,
    ensures
        ({
            let tail = scan_objects(content).tail;
            &&& tail.len() <= content.len()
            &&& tail == content.skip(content.len() - tail.len())
            &&& incomplete(tail)
            &&& scan_objects(tail) == (Scan { frames: Seq::empty(), tail, error: None })
        }),
    decreases content.len(),
{
    lemma_signature_meaning(content);
    match first_signature(content) {
        None => {
            let tail = last_three(content);
            assert(content.skip(content.len() - tail.len()) =~= tail);
            lemma_signature_meaning(tail);
        },
        Some(at) => {
            let rest = content.skip(at);
            let size = le32(rest, 8);
            if rest.len() < 16 || size >= 16 && rest.len() < size {
                assert(signature_at(rest, 0));
                lemma_first_signature(rest, 0);
                assert(rest.skip(0) =~= rest);
            } else {
                let step = if size < 16 {
                    at + 4
                } else {
                    at + size
                };
                let later = content.skip(step);
                law_scan_is_complete(later);
                let tail = scan_objects(later).tail;
                assert(later.skip(later.len() - tail.len()) =~= content.skip(
                    content.len() - tail.len(),
                ));
            }
        },
    }
}

/// A malformed object is reported whatever follows it, and the frames before
/// it are the same.
pub proof fn law_error_is_final(a: Seq<u8>, b: Seq<u8>)
    requires
        scan_objects(a).error is Some,
    ensures
        scan_objects(a + b).error == scan_objects(a).error,
        scan_objects(a + b).frames == scan_objects(a).frames,
    decreases a.len(),
{
    let c = a + b;
    lemma_signature_meaning(a);
    if let Some(at) = first_signature(a) {
        lemma_signature_extended(a, b, at);
        let rest = a.skip(at);
        assert(c.skip(at) =~= rest + b);
        let size = le32(rest, 8);
        if rest.len() >= 16 && size < 16 {
            assert(c.skip(at + 4) =~= a.skip(at + 4) + b);
            law_error_is_final(a.skip(at + 4), b);
        } else if rest.len() >= 16 && size <= rest.len() {
            assert((rest + b).take(size) =~= rest.take(size));
            assert(c.skip(at + size) =~= a.skip(at + size) + b);
            if message_object(rest.take(size)) is Ok {
                law_error_is_final(a.skip(at + size), b);
            }
        }
    }
}

/// A reader that was handed `more` bytes on top, and told whether the file
/// ends there.
pub open spec fn handed(r: ReaderModel, more: Seq<u8>, closed: bool) -> ReaderModel {
    ReaderModel { input: r.input + more, closed, ..r }
}

/// Bytes that come later change nothing about an object that is complete.
proof fn lemma_object_complete(r: ReaderModel, more: Seq<u8>, closed: bool)
    requires
        !r.closed,
        top_object(r.input, false) is Whole,
    ensures
        ({
            let t = top_object(r.input, false);
            let (read, error) = r.take_object(t->start, t->size);
            &&& top_object(r.input + more, closed) == t
            &&& handed(r, more, closed).take_object(t->start, t->size) == (
                handed(read, more, closed),
                error,
            )
            &&& read.input.len() < r.input.len()
            &&& !read.closed
            &&& read.eof == r.eof
        }),
{
    let t = top_object(r.input, false);
    let start = t->start;
    let size = t->size;
    lemma_signature_extended(r.input, more, start);
    let both = r.input + more;
    assert(both.skip(start) =~= r.input.skip(start) + more);
    assert(both.subrange(start, start + size) =~= r.input.subrange(start, start + size));
    assert(both.skip(start + size) =~= r.input.skip(start + size) + more);
    assert(both.skip(start + size).skip(size % 4) =~= r.input.skip(start + size).skip(size % 4)
        + more);
}

/// Bytes in front of the next signature can be passed over beforehand.
proof fn lemma_passed_over(r: ReaderModel, off: int)
    requires
        r.frames.len() == 0,
        !r.eof,
        0 <= off <= r.input.len(),
        forall|j: int| 0 <= j < off ==> !#[trigger] signature_at(r.input, j),
        r.closed || off == 0 || r.input.len() - off >= 3 || first_signature(
            r.input.skip(off),
        ) is Some,
    ensures
        r.next() == r.consume(off).next(),
{
    let s = r.input;
    let t = s.skip(off);
    let later = r.consume(off);
    lemma_signature_behind(s, off);
    lemma_signature_meaning(t);
    match first_signature(t) {
        None => {
            let k = junk_length(t);
            assert(t.skip(k) =~= s.skip(off + k));
            assert(t.skip(t.len() as int) =~= s.skip(s.len() as int));
        },
        Some(at) => {
            assert(t.skip(at) =~= s.skip(off + at));
            if t.len() >= at + 16 {
                assert(t.skip(at + 16) =~= s.skip(off + at + 16));
            }
            assert(t.skip(t.len() as int) =~= s.skip(s.len() as int));
            if let TopObject::Whole { start, size } = top_object(t, r.closed) {
                assert(t.subrange(at, at + size) =~= s.subrange(off + at, off + at + size));
                assert(t.skip(at + size) =~= s.skip(off + at + size));
                assert(r.take_object(off + at, size) == later.take_object(at, size));
            }
        },
    }
}

/// What a waiting reader passes over it would have passed over with more bytes
/// at hand.
proof fn lemma_junk_extended(r: ReaderModel, more: Seq<u8>, closed: bool)
    requires
        !r.eof,
        r.frames.len() == 0,
    ensures
        handed(r, more, closed).next() == handed(
            r.consume(junk_length(r.input)),
            more,
            closed,
        ).next(),
{
    let s = r.input;
    let k = junk_length(s);
    let both = s + more;
    lemma_signature_meaning(s);
    assert(both.skip(k) =~= s.skip(k) + more);
    assert forall|j: int| 0 <= j < k implies !#[trigger] signature_at(both, j) by {
        assert(signature_at(s, j) == signature_at(both, j));
    }
    if let Some(at) = first_signature(s) {
        assert(signature_at(both.skip(k), 0));
        lemma_first_signature(both.skip(k), 0);
    }
    lemma_passed_over(handed(r, more, closed), k);
    assert(handed(r.consume(k), more, closed) == handed(r, more, closed).consume(k));
}

/// It makes no difference in which pieces a file is handed over: what a
/// reader answers before it has all of the file is what it would have
/// answered with the rest at hand, and where it answers nothing, handing over
/// the rest and asking again brings what asking once would have brought.
pub proof fn law_feeding_is_transparent(r: ReaderModel, more: Seq<u8>, closed: bool)
    requires
        !r.closed,
        !r.eof,
    ensures
        r.next().1 != Ok::<Option<FrameModel>, BlfError>(None) ==> handed(r, more, closed).next()
            == (handed(r.next().0, more, closed), r.next().1),
        r.next().1 == Ok::<Option<FrameModel>, BlfError>(None) ==> handed(r, more, closed).next()
            == handed(r.next().0, more, closed).next(),
    decreases r.input.len(),
{
    if r.frames.len() == 0 {
        match top_object(r.input, false) {
            TopObject::Broken(e) => {
                let at = first_signature(r.input)->0;
                lemma_signature_extended(r.input, more, at);
                let both = r.input + more;
                assert(both.skip(at) =~= r.input.skip(at) + more);
                assert(both.skip(at + 16) =~= r.input.skip(at + 16) + more);
            },
            TopObject::Whole { start, size } => {
                lemma_object_complete(r, more, closed);
                let (read, error) = r.take_object(start, size);
                if error is None {
                    law_feeding_is_transparent(read, more, closed);
                }
            },
            TopObject::Starved => {
                lemma_junk_extended(r, more, closed);
            },
            TopObject::End => {},
        }
    }
}

/// A reader that waits for bytes keeps no more than the start of one object:
/// without a signature at most three bytes, else an object whose header, body
/// or padding is not complete.
pub proof fn law_waiting_reader_keeps_little(r: ReaderModel)
    requires
        !r.closed,
        !r.eof,
        r.next().1 == Ok::<Option<FrameModel>, BlfError>(None),
    ensures
        ({
            let after = r.next().0;
            let size = le32(after.input, 8);
            &&& after.frames.len() == 0
            &&& if first_signature(after.input) is None {
                after.input.len() <= 3
            } else {
                &&& signature_at(after.input, 0)
                &&& after.input.len() < 16 || 16 <= size && after.input.len() < size + size % 4
            }
        }),
    decreases r.input.len(),
{
    lemma_signature_meaning(r.input);
    match top_object(r.input, false) {
        TopObject::Starved => {
            let kept = r.input.skip(junk_length(r.input));
            lemma_signature_meaning(kept);
            match first_signature(r.input) {
                Some(at) => {
                    assert(signature_at(kept, 0));
                },
                None => {
                    assert forall|j: int| !#[trigger] signature_at(kept, j) by {}
                },
            }
        },
        TopObject::Whole { start, size } => {
            let (read, error) = r.take_object(start, size);
            if error is None {
                law_waiting_reader_keeps_little(read);
            }
        },
        _ => {},
    }
}

/// A compressed container holds what a stored container with the inflated
/// payload holds.
pub proof fn law_compression_is_transparent(header_size: int, zlib: Seq<u8>, stored: Seq<u8>)
    requires
        header_size >= 16,
        zlib.len() >= header_size,
        stored.len() >= header_size,
        le16(zlib, header_size - 16) == COMPRESSION_ZLIB,
        le16(stored, header_size - 16) == COMPRESSION_NONE,
        inflated(zlib.skip(header_size)) == Some(stored.skip(header_size)),
    ensures
        crate::blf::container_content(header_size, zlib) == crate::blf::container_content(
            header_size,
            stored,
        ),
{
}

/// Bytes between objects that hold no signature are passed over: they change
/// the count of consumed bytes and nothing else.
pub proof fn law_junk_is_passed_over(r: ReaderModel, junk: Seq<u8>)
    requires
        r.closed,
        !r.eof,
        r.frames.len() == 0,
        forall|j: int| 0 <= j < junk.len() ==> !#[trigger] signature_at(junk + r.input, j),
    ensures
        ({
            let (after, answer) = r.next();
            (ReaderModel { input: junk + r.input, ..r }).next() == (
                ReaderModel { consumed: after.consumed + junk.len(), ..after },
                answer,
            )
        }),
{
    let longer = ReaderModel { input: junk + r.input, ..r };
    assert(longer.input.skip(junk.len() as int) =~= r.input);
    lemma_passed_over(longer, junk.len() as int);
    lemma_count_only(r, junk.len() as int);
}

/// The count of consumed bytes plays no part in what a reader answers.
proof fn lemma_count_only(r: ReaderModel, extra: int)
    ensures
        ({
            let (after, answer) = r.next();
            (ReaderModel { consumed: r.consumed + extra, ..r }).next() == (
                ReaderModel { consumed: after.consumed + extra, ..after },
                answer,
            )
        }),
    decreases r.input.len(),
{
    if r.frames.len() == 0 && !r.eof {
        if let TopObject::Whole { start, size } = top_object(r.input, r.closed) {
            lemma_signature_meaning(r.input);
            let (read, error) = r.take_object(start, size);
            let (read2, error2) = (ReaderModel { consumed: r.consumed + extra, ..r }).take_object(
                start,
                size,
            );
            assert(read2 == (ReaderModel { consumed: read.consumed + extra, ..read }));
            if error is None {
                lemma_count_only(read, extra);
            }
        }
    }
}

/// Objects are read in the order in which they stand: a complete object comes
/// first, then what is behind it.
pub proof fn law_objects_are_read_in_order(obj: Seq<u8>, rest: Seq<u8>)
    requires
        signature_at(obj, 0),
        obj.len() >= 16,
        le32(obj, 8) == obj.len(),
    ensures
        ({
            let scan = scan_objects(obj + rest);
            let more = scan_objects(rest);
            match message_object(obj) {
                Err(e) => scan.error == Some(e) && scan.frames.len() == 0,
                Ok(None) => scan == more,
                Ok(Some(frame)) => {
                    &&& scan.frames == seq![frame] + more.frames
                    &&& scan.tail == more.tail
                    &&& scan.error == more.error
                },
            }
        }),
{
    let content = obj + rest;
    assert(signature_at(content, 0));
    lemma_first_signature(content, 0);
    assert(content.skip(0) =~= content);
    assert(content.take(obj.len() as int) =~= obj);
    assert(content.skip(obj.len() as int) =~= rest);
}

/// A reader that has come to the end of its file has no bytes left.
pub open spec fn settled(r: ReaderModel) -> bool {
    r.eof ==> r.input.len() == 0
}

/// Every byte is counted: what a reader consumes it has had, nothing is lost
/// on the way, and at the end of the file all bytes are consumed.
pub proof fn law_every_byte_is_counted(r: ReaderModel)
    requires
        settled(r),
    ensures
        ({
            let after = r.next().0;
            &&& after.consumed + after.input.len() == r.consumed + r.input.len()
            &&& r.consumed <= after.consumed
            &&& settled(after)
            &&& after.eof ==> after.consumed == r.consumed + r.input.len()
            &&& after.closed == r.closed
            &&& after.start_time == r.start_time
        }),
    decreases r.input.len(),
{
    if r.frames.len() == 0 && !r.eof {
        lemma_signature_meaning(r.input);
        match top_object(r.input, r.closed) {
            TopObject::Whole { start, size } => {
                let (read, error) = r.take_object(start, size);
                if error is None {
                    law_every_byte_is_counted(read);
                }
            },
            _ => {},
        }
    }
}

/// What a reader answers until it is at its end, or until an error comes.
pub struct Reading {
    /// The frames, in order.
    pub frames: Seq<FrameModel>,
    /// The error that ended the reading.
    pub error: Option<BlfError>,
}

/// A frame that is not in store costs bytes.
pub proof fn lemma_frames_cost_bytes(r: ReaderModel)
    requires
        r.frames.len() == 0,
        r.next().1 matches Ok(Some(_)),
    ensures
        r.next().0.input.len() < r.input.len(),
    decreases r.input.len(),
{
    lemma_signature_meaning(r.input);
    if let TopObject::Whole { start, size } = top_object(r.input, r.closed) {
        let (read, error) = r.take_object(start, size);
        if error is None && read.frames.len() == 0 {
            lemma_frames_cost_bytes(read);
        }
    }
}

/// Ask a reader for frames until it has none or an error comes.
pub open spec fn read_to_end(r: ReaderModel) -> Reading
    decreases r.input.len(), r.frames.len(),
{
    let (after, answer) = r.next();
    proof {
        if r.frames.len() == 0 && (answer matches Ok(Some(_))) {
            lemma_frames_cost_bytes(r);
        }
    }
    match answer {
        Ok(Some(frame)) => {
            let more = read_to_end(after);
            Reading { frames: seq![frame] + more.frames, error: more.error }
        },
        Ok(None) => Reading { frames: Seq::empty(), error: None },
        Err(e) => Reading { frames: Seq::empty(), error: Some(e) },
    }
}

/// Frames in store come first.
proof fn lemma_store_comes_first(r: ReaderModel)
    ensures
        ({
            let empty = ReaderModel { frames: Seq::empty(), ..r };
            &&& read_to_end(r).frames == r.frames + read_to_end(empty).frames
            &&& read_to_end(r).error == read_to_end(empty).error
        }),
    decreases r.frames.len(),
{
    let empty = ReaderModel { frames: Seq::empty(), ..r };
    if r.frames.len() > 0 {
        let after = ReaderModel { frames: r.frames.drop_first(), ..r };
        lemma_store_comes_first(after);
        assert(r.next() == (after, Ok::<Option<FrameModel>, BlfError>(Some(r.frames.first()))));
        assert(seq![r.frames.first()] + (after.frames + read_to_end(empty).frames) =~= r.frames
            + read_to_end(empty).frames);
    } else {
        assert(r.frames =~= empty.frames);
        assert(r.frames + read_to_end(empty).frames =~= read_to_end(empty).frames);
    }
}

/// The count of consumed bytes plays no part in what is read.
proof fn lemma_count_plays_no_part(r: ReaderModel, extra: int)
    ensures
        read_to_end(ReaderModel { consumed: r.consumed + extra, ..r }) == read_to_end(r),
    decreases r.input.len(), r.frames.len(),
{
    lemma_count_only(r, extra);
    let (after, answer) = r.next();
    if answer matches Ok(Some(_)) {
        if r.frames.len() == 0 {
            lemma_frames_cost_bytes(r);
        }
        lemma_count_plays_no_part(after, extra);
    }
}

/// Whether `obj` is a container, stored or compressed, with the given content.
pub open spec fn is_container(obj: Seq<u8>, content: Seq<u8>) -> bool {
    &&& signature_at(obj, 0)
    &&& obj.len() >= 16
    &&& le32(obj, 8) == obj.len()
    &&& le16(obj, 4) >= 16
    &&& le32(obj, 12) == crate::frame::OBJ_TYPE_LOG_CONTAINER
    &&& crate::blf::container_content(le16(obj, 4), obj.skip(16)) == Ok::<Seq<u8>, BlfError>(
        content,
    )
}

/// Whether `file` is `obj`, its padding, and `rest`. Only at the end of a file
/// may padding be missing.
pub open spec fn stands_before(obj: Seq<u8>, rest: Seq<u8>, file: Seq<u8>) -> bool {
    exists|pad: Seq<u8>|
        {
            &&& file == #[trigger] (obj + pad) + rest
            &&& pad.len() == obj.len() % 4 || pad.len() < obj.len() % 4 && rest.len() == 0
        }
}

/// A container at the front is read first: its frames, then what is behind.
proof fn lemma_container_first(r: ReaderModel, obj: Seq<u8>, content: Seq<u8>, rest: Seq<u8>)
    requires
        r.closed,
        !r.eof,
        r.frames.len() == 0,
        is_container(obj, content),
        stands_before(obj, rest, r.input),
    ensures
        ({
            let scan = scan_objects(r.tail + content);
            let behind = ReaderModel {
                input: rest,
                tail: scan.tail,
                frames: Seq::empty(),
                ..r
            };
            match scan.error {
                Some(e) => read_to_end(r) == (Reading { frames: Seq::empty(), error: Some(e) }),
                None => {
                    &&& read_to_end(r).frames == scan.frames + read_to_end(behind).frames
                    &&& read_to_end(r).error == read_to_end(behind).error
                },
            }
        }),
{
    let pad = choose|pad: Seq<u8>|
        {
            &&& r.input == #[trigger] (obj + pad) + rest
            &&& pad.len() == obj.len() % 4 || pad.len() < obj.len() % 4 && rest.len() == 0
        };
    let input = r.input;
    let size = obj.len() as int;
    let scan = scan_objects(r.tail + content);
    assert(signature_at(input, 0));
    lemma_first_signature(input, 0);
    assert(input.skip(0) =~= input);
    assert(input.subrange(0, size) =~= obj);
    assert(le32(input, 8) == le32(obj, 8));
    assert(le16(input, 4) == le16(obj, 4));
    assert(top_object(input, true) == TopObject::Whole { start: 0, size });
    let (read, error) = r.take_object(0, size);
    assert(error == scan.error);
    assert(input.skip(size) =~= pad + rest);
    if error is None {
        assert(r.next() == read.next());
        assert((pad + rest).skip(pad.len() as int) =~= rest);
        assert(read.input =~= rest);
        assert(read.frames =~= scan.frames);
        lemma_store_comes_first(read);
        let bare = ReaderModel { frames: Seq::empty(), ..read };
        let behind = ReaderModel { input: rest, tail: scan.tail, frames: Seq::empty(), ..r };
        lemma_count_plays_no_part(behind, read.consumed - r.consumed);
        assert(bare == (ReaderModel {
            consumed: behind.consumed + (read.consumed - r.consumed),
            ..behind
        }));
    }
}

/// Where the boundary between two containers falls makes no difference, even
/// inside an object or its signature: two readers that differ only in that one
/// finds in one container what the other finds in two read the same frames, in
/// the same order, and come to the same end, if the content is well formed.
pub proof fn law_container_boundaries(
    one: ReaderModel,
    two: ReaderModel,
    whole: Seq<u8>,
    first: Seq<u8>,
    second: Seq<u8>,
    a: Seq<u8>,
    b: Seq<u8>,
    middle: Seq<u8>,
    rest: Seq<u8>,
)
    requires
        one.closed,
        !one.eof,
        one.frames.len() == 0,
        two == (ReaderModel { input: two.input, ..one }),
        is_container(whole, a + b),
        is_container(first, a),
        is_container(second, b),
        stands_before(whole, rest, one.input),
        stands_before(first, middle, two.input),
        stands_before(second, rest, middle),
        scan_objects(one.tail + (a + b)).error is None,
    ensures
        read_to_end(two) == read_to_end(one),
{
    let tail = one.tail;
    let scan = scan_objects(tail + a);
    assert(tail + (a + b) =~= (tail + a) + b);
    if scan.error is Some {
        law_error_is_final(tail + a, b);
    }
    law_split_across_containers(tail + a, b);
    lemma_container_first(one, whole, a + b, rest);
    lemma_container_first(two, first, a, middle);
    let between = ReaderModel { input: middle, tail: scan.tail, frames: Seq::empty(), ..two };
    lemma_container_first(between, second, b, rest);
    let later = scan_objects(scan.tail + b);
    let end = ReaderModel { input: rest, tail: later.tail, frames: Seq::empty(), ..one };
    assert(scan.frames + (later.frames + read_to_end(end).frames) =~= (scan.frames + later.frames)
        + read_to_end(end).frames);
}

/// What reading a complete file brings.
pub open spec fn read_file(file: Seq<u8>) -> Reading {
    match file_header(file) {
        Ok(n) => read_to_end(
            ReaderModel {
                input: file.skip(n),
                closed: true,
                consumed: n,
                tail: Seq::empty(),
                frames: Seq::empty(),
                eof: false,
                start_time: header_time(file, n),
            },
        ),
        Err(e) => Reading { frames: Seq::empty(), error: Some(e) },
    }
}

/// A complete file header is read whatever follows it.
proof fn lemma_header_complete(header: Seq<u8>, rest: Seq<u8>)
    requires
        file_header(header) == Ok::<int, BlfError>(header.len() as int),
    ensures
        file_header(header + rest) == Ok::<int, BlfError>(header.len() as int),
        header_time(header + rest, header.len() as int) == header_time(
            header,
            header.len() as int,
        ),
        (header + rest).skip(header.len() as int) == rest,
{
    let file = header + rest;
    assert(le32(file, 4) == le32(header, 4));
    assert(file.skip(header.len() as int) =~= rest);
    if header.len() >= 88 {
        assert(file.subrange(56, 72) =~= header.subrange(56, 72));
    }
}

/// A file whose content is in one container, and the same file with that
/// content in two containers, cut anywhere: if the first is read to its end
/// without an error, so is the second, and the same frames come in the same
/// order.
pub proof fn law_files_cut_into_containers(
    header: Seq<u8>,
    whole: Seq<u8>,
    first: Seq<u8>,
    second: Seq<u8>,
    content: Seq<u8>,
    cut: int,
    one: Seq<u8>,
    two: Seq<u8>,
    middle: Seq<u8>,
    rest: Seq<u8>,
)
    requires
        file_header(header) == Ok::<int, BlfError>(header.len() as int),
        0 <= cut <= content.len(),
        is_container(whole, content),
        is_container(first, content.take(cut)),
        is_container(second, content.skip(cut)),
        stands_before(whole, rest, one),
        stands_before(first, middle, two),
        stands_before(second, rest, middle),
        read_file(header + one).error is None,
    ensures
        read_file(header + two) == read_file(header + one),
{
    let n = header.len() as int;
    let a = content.take(cut);
    let b = content.skip(cut);
    lemma_header_complete(header, one);
    lemma_header_complete(header, two);
    let r = ReaderModel {
        input: one,
        closed: true,
        consumed: n,
        tail: Seq::empty(),
        frames: Seq::empty(),
        eof: false,
        start_time: header_time(header, n),
    };
    assert(a + b =~= content);
    assert(r.tail + content =~= content);
    lemma_container_first(r, whole, content, rest);
    law_container_boundaries(
        r,
        ReaderModel { input: two, ..r },
        whole,
        first,
        second,
        a,
        b,
        middle,
        rest,
    );
}

/// The time of a date of the calendar counts its days from the first of
/// January 1970, and its hours, minutes and seconds; the milliseconds come on
/// top. Without a date it is zero.
pub proof fn law_time_counts_from_the_epoch(t: SystemTimeFields)
    requires
        1 <= t.month <= 12,
    ensures
        t.year >= 1 ==> epoch_time(t) == (
            86400 * (days_before_year(t.year as int) - days_before_year(1970) + days_before_month(
                t.year as int,
                t.month as int,
            ) + t.day - 1) + 3600 * t.hour + 60 * t.minute + t.second,
            t.millisecond as int,
        ),
        t.year >= 1 ==> epoch_nanos(t) == 1_000_000_000 * (86400 * (days_before_year(
            t.year as int,
        ) - days_before_year(1970) + days_before_month(t.year as int, t.month as int) + t.day - 1)
            + 3600 * t.hour + 60 * t.minute + t.second) + 1_000_000 * t.millisecond,
        t.year == 0 ==> epoch_time(t) == (0int, 0int) && epoch_nanos(t) == 0,
{
    if t.year >= 1 {
        law_epoch_days_count_days(t.year as int, t.month as int, t.day as int);
    }
}

/// A file header is taken exactly if it starts with `LOGG`, claims a size from
/// 8 to 0x10000 bytes in the four bytes behind, and is all there; it then has
/// that size.
pub proof fn law_file_header(file: Seq<u8>)
    ensures
        ({
            let size = file[4] + 0x100 * file[5] + 0x1_0000 * file[6] + 0x100_0000 * file[7];
            let named = file.len() >= 8 && file.take(4) == seq![0x4Cu8, 0x4Fu8, 0x47u8, 0x47u8];
            match file_header(file) {
                Ok(n) => named && 8 <= size <= 0x10000 && size <= file.len() && n == size,
                Err(BlfError::HeaderTruncated) => file.len() < 8 || named && 8 <= size <= 0x10000
                    && file.len() < size,
                Err(BlfError::NotBlf) => file.len() >= 8 && !named,
                Err(BlfError::HeaderSize(claimed)) => named && !(8 <= size <= 0x10000) && claimed
                    == size,
                Err(_) => false,
            }
        }),
{
    let magic = seq![0x4Cu8, 0x4Fu8, 0x47u8, 0x47u8];
    if file.len() >= 8 {
        let front = file.take(4);
        assert(front[0] == file[0] && front[1] == file[1] && front[2] == file[2] && front[3]
            == file[3]);
        if file[0] == 0x4C && file[1] == 0x4F && file[2] == 0x47 && file[3] == 0x47 {
            assert(front =~= magic);
        } else if front == magic {
            assert(magic[0] == 0x4C && magic[1] == 0x4F && magic[2] == 0x47 && magic[3] == 0x47);
        }
    }
}

/// The measurement start stands at offset 56 of the file: year, month, day of
/// the week, day, hour, minute, second and millisecond, in two bytes each. A
/// header of fewer than 88 bytes holds none.
pub proof fn law_header_time_reads_back(file: Seq<u8>, size: int)
    requires
        size <= file.len(),
    ensures
        ({
            let t = header_time(file, size);
            if size >= 88 {
                &&& t.year == file[56] + 0x100 * file[57]
                &&& t.month == file[58] + 0x100 * file[59]
                &&& t.day == file[62] + 0x100 * file[63]
                &&& t.hour == file[64] + 0x100 * file[65]
                &&& t.minute == file[66] + 0x100 * file[67]
                &&& t.second == file[68] + 0x100 * file[69]
                &&& t.millisecond == file[70] + 0x100 * file[71]
            } else {
                t.year == 0
            }
        }),
{
    if size >= 88 {
        let s = file.subrange(56, 72);
        assert(forall|i: int| 0 <= i < 16 ==> #[trigger] s[i] == file[56 + i]);
    }
}

/// The signature of an object is the four letters `LOBJ`.
pub proof fn law_signature(s: Seq<u8>, at: int)
    requires
        0 <= at,
        at + 4 <= s.len(),
    ensures
        signature_at(s, at) <==> s.subrange(at, at + 4) == seq![0x4Cu8, 0x4Fu8, 0x42u8, 0x4Au8],
{
    let four = s.subrange(at, at + 4);
    let mark = seq![0x4Cu8, 0x4Fu8, 0x42u8, 0x4Au8];
    assert(four[0] == s[at] && four[1] == s[at + 1] && four[2] == s[at + 2] && four[3] == s[at
        + 3]);
    assert(mark[0] == 0x4C && mark[1] == 0x4F && mark[2] == 0x42 && mark[3] == 0x4A);
    if signature_at(s, at) {
        assert(four =~= mark);
    }
}

/// Whether `obj` is a complete object with a header of `h` bytes: it starts
/// with the signature and gives its own length.
pub open spec fn complete_object(obj: Seq<u8>, h: int) -> bool {
    &&& obj.len() >= 16
    &&& signature_at(obj, 0)
    &&& h == obj[4] + 0x100 * obj[5]
    &&& h >= 16
    &&& obj.len() == obj[8] + 0x100 * obj[9] + 0x1_0000 * obj[10] + 0x100_0000 * obj[11]
}

/// The number of an object's type.
pub open spec fn object_kind(obj: Seq<u8>) -> int {
    obj[12] + 0x100 * obj[13] + 0x1_0000 * obj[14] + 0x100_0000 * obj[15]
}

/// A container holds what stands behind its header and 16 more bytes: as it is
/// where the first two of these bytes are zero, inflated where they hold the
/// number 2. Other numbers are refused, and so is a container without room for
/// these bytes or with a payload that cannot be inflated.
pub proof fn law_container_reads_back(obj: Seq<u8>, h: int)
    requires
        complete_object(obj, h),
        object_kind(obj) == 10,
    ensures
        ({
            let method = obj[h] + 0x100 * obj[h + 1];
            let payload = obj.skip(h + 16);
            match crate::blf::container_content(le16(obj, 4), obj.skip(16)) {
                Ok(content) => {
                    &&& obj.len() >= h + 16
                    &&& method == 0 && content == payload || method == 2 && inflated(payload)
                        == Some(content)
                },
                Err(BlfError::Container) => obj.len() < h + 16,
                Err(BlfError::Inflate) => obj.len() >= h + 16 && method == 2 && inflated(
                    payload,
                ) is None,
                Err(BlfError::Compression(m)) => obj.len() >= h + 16 && m == method && m != 0 && m
                    != 2,
                Err(_) => false,
            }
        }),
{
    let body = obj.skip(16);
    if obj.len() >= h + 16 {
        assert(body[h - 16] == obj[h] && body[h - 15] == obj[h + 1]);
        assert(body.skip(h) =~= obj.skip(h + 16));
    }
}

/// A complete object in front of a closed file is taken first. A message gives
/// its frame, an object that says nothing is passed over, a malformed one is
/// an error; then comes what stands behind the object and its padding.
pub proof fn law_objects_are_taken_in_turn(r: ReaderModel, obj: Seq<u8>, h: int, rest: Seq<u8>)
    requires
        r.closed,
        !r.eof,
        r.frames.len() == 0,
        complete_object(obj, h),
        object_kind(obj) != 10,
        stands_before(obj, rest, r.input),
    ensures
        ({
            let behind = ReaderModel {
                input: rest,
                consumed: r.consumed + r.input.len() - rest.len(),
                ..r
            };
            match message_object(obj) {
                Ok(Some(frame)) => {
                    &&& r.next().1 == Ok::<Option<FrameModel>, BlfError>(Some(frame))
                    &&& r.next().0 == behind
                },
                Ok(None) => r.next() == behind.next(),
                Err(e) => r.next().1 == Err::<Option<FrameModel>, BlfError>(e),
            }
        }),
{
    let pad = choose|pad: Seq<u8>|
        {
            &&& r.input == #[trigger] (obj + pad) + rest
            &&& pad.len() == obj.len() % 4 || pad.len() < obj.len() % 4 && rest.len() == 0
        };
    let input = r.input;
    let size = obj.len() as int;
    assert(le32(obj, 8) == size);
    assert(signature_at(input, 0));
    lemma_first_signature(input, 0);
    assert(input.skip(0) =~= input);
    assert(input.subrange(0, size) =~= obj);
    assert(le32(input, 8) == le32(obj, 8));
    assert(le16(input, 4) == le16(obj, 4));
    assert(le32(obj, 12) == object_kind(obj));
    assert(top_object(input, true) == TopObject::Whole { start: 0, size });
    let (read, error) = r.take_object(0, size);
    assert(input.skip(size) =~= pad + rest);
    assert((pad + rest).skip(pad.len() as int) =~= rest);
    let behind = ReaderModel {
        input: rest,
        consumed: r.consumed + r.input.len() - rest.len(),
        ..r
    };
    match message_object(obj) {
        Ok(Some(frame)) => {
            assert(read.frames =~= seq![frame]);
            assert(read.input =~= rest);
            assert(read.frames.drop_first() =~= r.frames);
            assert(r.next() == read.next());
        },
        Ok(None) => {
            assert(read.frames =~= r.frames);
            assert(read.input =~= rest);
            assert(read == behind);
        },
        Err(e) => {},
    }
}

/// A container in front of a closed file is read first: the frames of the
/// objects in its content, behind what was kept of the containers before it;
/// then what stands behind the container and its padding.
pub proof fn law_container_is_read_first(
    r: ReaderModel,
    obj: Seq<u8>,
    content: Seq<u8>,
    rest: Seq<u8>,
)
    requires
        r.closed,
        !r.eof,
        r.frames.len() == 0,
        is_container(obj, content),
        stands_before(obj, rest, r.input),
        scan_objects(r.tail + content).error is None,
    ensures
        ({
            let scan = scan_objects(r.tail + content);
            let behind = ReaderModel { input: rest, tail: scan.tail, ..r };
            &&& read_to_end(r).frames == scan.frames + read_to_end(behind).frames
            &&& read_to_end(r).error == read_to_end(behind).error
        }),
{
    lemma_container_first(r, obj, content, rest);
    let scan = scan_objects(r.tail + content);
    assert(r.frames =~= Seq::<FrameModel>::empty());
    assert((ReaderModel { input: rest, tail: scan.tail, frames: Seq::empty(), ..r })
        == (ReaderModel { input: rest, tail: scan.tail, ..r }));
}

/// A closed file without a signature is at its end; one that ends inside an
/// object is an error, and so is an object that gives a length or a header of
/// fewer than 16 bytes.
pub proof fn law_ends_and_broken_objects(r: ReaderModel)
    requires
        r.closed,
        !r.eof,
        r.frames.len() == 0,
    ensures
        ({
            let s = r.input;
            let size = s[8] + 0x100 * s[9] + 0x1_0000 * s[10] + 0x100_0000 * s[11];
            let header = s[4] + 0x100 * s[5];
            &&& (forall|j: int| !#[trigger] signature_at(s, j)) ==> r.next().1 == Ok::<
                Option<FrameModel>,
                BlfError,
            >(None) && r.next().0.eof
            &&& signature_at(s, 0) && s.len() >= 16 && (size < 16 || header < 16) ==> r.next().1
                == Err::<Option<FrameModel>, BlfError>(BlfError::ObjectHeader(size as u32))
            &&& signature_at(s, 0) && s.len() >= 16 && size >= 16 && header >= 16 && s.len() < size
                ==> r.next().1 == Err::<Option<FrameModel>, BlfError>(BlfError::ObjectTruncated)
        }),
{
    lemma_signature_meaning(r.input);
    if signature_at(r.input, 0) {
        lemma_first_signature(r.input, 0);
        assert(r.input.skip(0) =~= r.input);
    }
}

/// In the content of a container, bytes in front of a signature are passed
/// over, and so is a signature whose object gives a length of fewer than 16
/// bytes.
pub proof fn law_content_junk_is_passed_over(content: Seq<u8>, off: int)
    requires
        0 <= off <= content.len(),
        signature_at(content, off),
        forall|j: int| 0 <= j < off ==> !#[trigger] signature_at(content, j),
    ensures
        scan_objects(content).frames == scan_objects(content.skip(off)).frames,
        scan_objects(content).error == scan_objects(content.skip(off)).error,
        content.len() >= off + 16 && content[off + 8] < 16 && content[off + 9] == 0 && content[off
            + 10] == 0 && content[off + 11] == 0 ==> scan_objects(content) == scan_objects(
            content.skip(off + 4),
        ),
{
    lemma_scan_behind(content, off);
    lemma_first_signature(content, off);
    let rest = content.skip(off);
    if content.len() >= off + 16 {
        assert(rest[8] == content[off + 8] && rest[9] == content[off + 9] && rest[10]
            == content[off + 10] && rest[11] == content[off + 11]);
    }
}

} // verus!
