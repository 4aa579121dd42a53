//! Streaming reader for the Vector Binary Logging Format (BLF).
//!
//! Supports the object types needed for CAN decoding:
//! - `LOG_CONTAINER` (10), optionally zlib-compressed
//! - `CAN_MESSAGE` (1) / `CAN_MESSAGE2` (86)
//! - `CAN_FD_MESSAGE` (100) / `CAN_FD_MESSAGE_64` (101)
//!
//! Everything else is skipped. Objects are found by scanning for the `LOBJ`
//! signature, so unknown padding conventions do not derail the reader.
//!
//! The reader does no I/O: its caller hands it the bytes of the file, all at
//! once or piece by piece.

use crate::bytes::{append_bytes, le16, le32, u16le, u32le};
use crate::calendar::{days_since_epoch, epoch_days};
use crate::frame::{message_object, parse_message_object, parsed_view, FrameModel};
use crate::inflate::{inflate_or_left, inflated, read_before_failure};
use std::collections::VecDeque;
use vstd::prelude::*;

pub use crate::frame::{BlfError, CanFrame};

verus! {

/// Length of the object header that every object starts with.
pub const BASE_HEADER: usize = 16;

pub const COMPRESSION_NONE: u16 = 0;

pub const COMPRESSION_ZLIB: u16 = 2;

/// Whether the `LOBJ` signature stands at offset `at`.
pub open spec fn signature_at(s: Seq<u8>, at: int) -> bool {
    &&& 0 <= at
    &&& at + 4 <= s.len()
    &&& s[at] == 0x4C
    &&& s[at + 1] == 0x4F
    &&& s[at + 2] == 0x42
    &&& s[at + 3] == 0x4A
}

/// Whether the leftmost `LOBJ` signature stands at offset `at`.
pub open spec fn is_first_signature(s: Seq<u8>, at: int) -> bool {
    &&& signature_at(s, at)
    &&& forall|j: int| 0 <= j < at ==> !#[trigger] signature_at(s, j)
}

/// Offset of the leftmost `LOBJ` signature.
#[verifier::opaque]
pub open spec fn first_signature(s: Seq<u8>) -> Option<int> {
    if exists|at: int| is_first_signature(s, at) {
        Some(choose|at: int| is_first_signature(s, at))
    } else {
        None
    }
}

/// The offset named by [`first_signature`] is the only leftmost one.
pub(crate) proof fn lemma_first_signature(s: Seq<u8>, at: int)
    requires
        is_first_signature(s, at),
    ensures
        first_signature(s) == Some(at),
{
    reveal(first_signature);
    let k = choose|k: int| is_first_signature(s, k);
    assert(is_first_signature(s, k));
    assert(signature_at(s, k) && signature_at(s, at));
}

/// A signature anywhere makes a leftmost one.
proof fn lemma_some_signature(s: Seq<u8>, at: int)
    requires
        signature_at(s, at),
    ensures
        first_signature(s) matches Some(k) && is_first_signature(s, k) && k <= at,
    decreases at,
{
    if is_first_signature(s, at) {
        lemma_first_signature(s, at);
    } else {
        let j = choose|j: int| 0 <= j < at && #[trigger] signature_at(s, j);
        lemma_some_signature(s, j);
    }
}

/// The offset that [`first_signature`] gives is that of the leftmost
/// signature; without one there is none anywhere.
pub proof fn lemma_signature_meaning(s: Seq<u8>)
    ensures
        match first_signature(s) {
            Some(at) => is_first_signature(s, at),
            None => forall|j: int| !#[trigger] signature_at(s, j),
        },
{
    if exists|j: int| signature_at(s, j) {
        let j = choose|j: int| signature_at(s, j);
        lemma_some_signature(s, j);
    } else {
        reveal(first_signature);
        if exists|at: int| is_first_signature(s, at) {
            let at = choose|at: int| is_first_signature(s, at);
            assert(signature_at(s, at));
        }
    }
}

/// Offset of the leftmost `LOBJ` signature in `haystack`.
pub fn find_signature(haystack: &[u8]) -> (r: Option<usize>)
    ensures
        match r {
            Some(at) => first_signature(haystack@) == Some(at as int) && is_first_signature(
                haystack@,
                at as int,
            ),
            None => first_signature(haystack@) is None && forall|j: int|
                !#[trigger] signature_at(haystack@, j),
        },
{
    let len: usize = haystack.len();
    if len < 4 {
        proof {
            reveal(first_signature);
        }
        return None;
    }
    let mut i: usize = 0;
    while i <= len - 4
        invariant
            len == haystack@.len(),
            4 <= len,
            i <= len - 3,
            forall|j: int| 0 <= j < i ==> !#[trigger] signature_at(haystack@, j),
        decreases len - i,
    {
        if haystack[i] == 0x4C && haystack[i + 1] == 0x4F && haystack[i + 2] == 0x42 && haystack[i
            + 3] == 0x4A {
            proof {
                lemma_first_signature(haystack@, i as int);
            }
            return Some(i);
        }
        i += 1;
    }
    proof {
        reveal(first_signature);
    }
    None
}

/// What a stretch of container content holds.
pub struct Scan {
    /// The frames of the complete objects, in order.
    pub frames: Seq<FrameModel>,
    /// What is kept for the content of the next container.
    pub tail: Seq<u8>,
    /// Set where an object was malformed; the scan stops before it.
    pub error: Option<BlfError>,
}

/// The last three bytes, which may be the start of a signature.
pub open spec fn last_three(s: Seq<u8>) -> Seq<u8> {
    if s.len() <= 3 {
        s
    } else {
        s.skip(s.len() - 3)
    }
}

/// Find the objects in `content` one after the other. An entry with an
/// impossible size is passed over; an object that is not complete is kept
/// for later.
pub open spec fn scan_objects(content: Seq<u8>) -> Scan
    decreases content.len(),
{
    match first_signature(content) {
        None => Scan { frames: Seq::empty(), tail: last_three(content), error: None },
        Some(at) => {
            let rest = content.skip(at);
            let size = le32(rest, 8);
            proof {
                lemma_signature_meaning(content);
            }
            if rest.len() < 16 {
                Scan { frames: Seq::empty(), tail: rest, error: None }
            } else if size < 16 {
                scan_objects(content.skip(at + 4))
            } else if rest.len() < size {
                Scan { frames: Seq::empty(), tail: rest, error: None }
            } else {
                match message_object(rest.take(size)) {
                    Err(e) => Scan { frames: Seq::empty(), tail: content, error: Some(e) },
                    Ok(None) => scan_objects(content.skip(at + size)),
                    Ok(Some(frame)) => {
                        let more = scan_objects(content.skip(at + size));
                        Scan {
                            frames: seq![frame] + more.frames,
                            tail: more.tail,
                            error: more.error,
                        }
                    },
                }
            }
        },
    }
}

/// An object that is no container needs no inflating.
proof fn lemma_message_needs_no_inflating(obj: Seq<u8>)
    ensures
        message_object(obj) != Err::<Option<FrameModel>, BlfError>(BlfError::Inflate),
{
    reveal(message_object);
}

/// Only a container can fail to inflate.
proof fn lemma_objects_need_no_inflating(content: Seq<u8>)
    ensures
        scan_objects(content).error != Some(BlfError::Inflate),
    decreases content.len(),
{
    lemma_signature_meaning(content);
    if let Some(at) = first_signature(content) {
        let rest = content.skip(at);
        let size = le32(rest, 8);
        if rest.len() >= 16 && size < 16 {
            lemma_objects_need_no_inflating(content.skip(at + 4));
        } else if rest.len() >= 16 && size <= rest.len() {
            lemma_message_needs_no_inflating(rest.take(size));
            lemma_objects_need_no_inflating(content.skip(at + size));
        }
    }
}

/// The models of a sequence of frames.
pub open spec fn frame_models(frames: Seq<CanFrame>) -> Seq<FrameModel> {
    frames.map_values(|f: CanFrame| f@)
}

/// All frames are well formed.
pub open spec fn frames_wf(frames: Seq<CanFrame>) -> bool {
    forall|i: int| 0 <= i < frames.len() ==> (#[trigger] frames[i])@.wf()
}

/// Parse complete objects out of `buffer` from `pos` on. Returns where the
/// kept tail starts, and the error that stopped the scan.
fn parse_buffer(buffer: &Vec<u8>, from: usize, frames: &mut VecDeque<CanFrame>) -> (r: (
    usize,
    Option<BlfError>,
))
    requires
        from <= buffer@.len(),
        frames_wf(old(frames)@),
    ensures
        r.0 <= buffer@.len(),
        buffer@.skip(r.0 as int) == scan_objects(buffer@.skip(from as int)).tail,
        r.1 == scan_objects(buffer@.skip(from as int)).error,
        frame_models(final(frames)@) == frame_models(old(frames)@) + scan_objects(
            buffer@.skip(from as int),
        ).frames,
        frames_wf(final(frames)@),
{
    let ghost whole = scan_objects(buffer@.skip(from as int));
    let ghost before = frames@;
    let len: usize = buffer.len();
    let mut pos: usize = from;
    assert(frame_models(before) + whole.frames =~= frame_models(frames@) + scan_objects(
        buffer@.skip(pos as int),
    ).frames);
    loop
        invariant
            len == buffer@.len(),
            pos <= len,
            frames_wf(frames@),
            before == old(frames)@,
            whole == scan_objects(buffer@.skip(from as int)),
            whole.tail == scan_objects(buffer@.skip(pos as int)).tail,
            whole.error == scan_objects(buffer@.skip(pos as int)).error,
            frame_models(before) + whole.frames == frame_models(frames@) + scan_objects(
                buffer@.skip(pos as int),
            ).frames,
        decreases len - pos,
    {
        let content: &[u8] = &buffer[pos..len];
        assert(content@ =~= buffer@.skip(pos as int));
        let rel: usize = match find_signature(content) {
            Some(rel) => rel,
            None => {
                let kept: usize = if len - pos > 3 {
                    len - 3
                } else {
                    pos
                };
                assert(buffer@.skip(kept as int) =~= last_three(content@));
                assert(frame_models(frames@) + Seq::<FrameModel>::empty() =~= frame_models(frames@));
                return (kept, None);
            },
        };
        let start: usize = pos + rel;
        assert(buffer@.skip(start as int) =~= content@.skip(rel as int));
        if len - start < 16 {
            assert(frame_models(frames@) + Seq::<FrameModel>::empty() =~= frame_models(frames@));
            return (start, None);
        }
        let rest: &[u8] = &buffer[start..len];
        assert(rest@ =~= content@.skip(rel as int));
        let size: usize = u32le(rest, 8) as usize;
        if size < 16 {
            assert(buffer@.skip(start + 4) =~= content@.skip(rel + 4));
            pos = start + 4;
            continue;
        }
        if len - start < size {
            assert(frame_models(frames@) + Seq::<FrameModel>::empty() =~= frame_models(frames@));
            return (start, None);
        }
        let obj: &[u8] = &rest[0..size];
        assert(obj@ =~= rest@.take(size as int));
        assert(buffer@.skip(start + size) =~= content@.skip(rel + size));
        match parse_message_object(obj) {
            Err(e) => {
                assert(frame_models(frames@) + Seq::<FrameModel>::empty() =~= frame_models(
                    frames@,
                ));
                return (pos, Some(e));
            },
            Ok(None) => {},
            Ok(Some(frame)) => {
                let ghost shown = frame_models(frames@);
                let ghost more = scan_objects(content@.skip(rel + size)).frames;
                let ghost model = frame@;
                frames.push_back(frame);
                assert(frame_models(frames@) =~= shown.push(model));
                assert(shown + (seq![model] + more) =~= shown.push(model) + more);
            },
        }
        pos = start + size;
    }
}

/// The measurement start as the file header gives it.
#[derive(Debug, Clone, Copy)]
pub struct SystemTimeFields {
    pub year: u16,
    pub month: u16,
    pub day: u16,
    pub hour: u16,
    pub minute: u16,
    pub second: u16,
    pub millisecond: u16,
}

impl Default for SystemTimeFields {
    fn default() -> (r: Self)
        ensures
            r == unset_time(),
    {
        SystemTimeFields {
            year: 0,
            month: 0,
            day: 0,
            hour: 0,
            minute: 0,
            second: 0,
            millisecond: 0,
        }
    }
}

/// The time of a file whose header holds none.
pub open spec fn unset_time() -> SystemTimeFields {
    SystemTimeFields {
        year: 0,
        month: 0,
        day: 0,
        hour: 0,
        minute: 0,
        second: 0,
        millisecond: 0,
    }
}

/// The time in a 16-byte record of eight numbers, the third of which is the
/// day of the week.
pub open spec fn system_time(s: Seq<u8>) -> SystemTimeFields {
    SystemTimeFields {
        year: le16(s, 0) as u16,
        month: le16(s, 2) as u16,
        day: le16(s, 6) as u16,
        hour: le16(s, 8) as u16,
        minute: le16(s, 10) as u16,
        second: le16(s, 12) as u16,
        millisecond: le16(s, 14) as u16,
    }
}

impl SystemTimeFields {
    /// Read a 16-byte record.
    fn parse(b: &[u8]) -> (r: Self)
        requires
            b@.len() >= 16,
        ensures
            r == system_time(b@),
    {
        SystemTimeFields {
            year: u16le(b, 0),
            month: u16le(b, 2),
            // bytes 4 and 5 are the day of the week
            day: u16le(b, 6),
            hour: u16le(b, 8),
            minute: u16le(b, 10),
            second: u16le(b, 12),
            millisecond: u16le(b, 14),
        }
    }
}

/// Whole seconds from the Unix epoch (UTC assumed), and milliseconds on top;
/// zero where the time is unset.
pub open spec fn epoch_time(t: SystemTimeFields) -> (int, int) {
    if t.year == 0 {
        (0, 0)
    } else {
        (
            86400 * epoch_days(t.year as int, t.month as int, t.day as int) + 3600 * t.hour + 60
                * t.minute + t.second,
            t.millisecond as int,
        )
    }
}

/// Nanoseconds from the Unix epoch.
pub open spec fn epoch_nanos(t: SystemTimeFields) -> int {
    1_000_000_000 * epoch_time(t).0 + 1_000_000 * epoch_time(t).1
}

impl SystemTimeFields {
    /// Time since the Unix epoch (UTC assumed), as whole seconds and the
    /// milliseconds on top of them; zero if unset.
    pub fn to_epoch_seconds(&self) -> (r: (i64, u16))
        ensures
            r.0 == epoch_time(*self).0,
            r.1 == epoch_time(*self).1,
            -0x1000_0000_0000 <= r.0 <= 0x1000_0000_0000,
    {
        if self.year == 0 {
            return (0, 0);
        }
        let days: i64 = days_since_epoch(self.year, self.month, self.day);
        (
            days * 86400 + self.hour as i64 * 3600 + self.minute as i64 * 60 + self.second as i64,
            self.millisecond,
        )
    }

    /// Nanoseconds since the Unix epoch, exactly.
    pub fn to_epoch_nanos(&self) -> (r: i128)
        ensures
            r == epoch_nanos(*self),
            -0x1_0000_0000_0000_0000_0000 <= r <= 0x1_0000_0000_0000_0000_0000,
    {
        let (seconds, millis) = self.to_epoch_seconds();
        seconds as i128 * 1_000_000_000 + millis as i128 * 1_000_000
    }
}

/// Size of the file header, where there is a complete and valid one.
pub open spec fn file_header(s: Seq<u8>) -> Result<int, BlfError> {
    if s.len() < 8 {
        Err(BlfError::HeaderTruncated)
    } else if !(s[0] == 0x4C && s[1] == 0x4F && s[2] == 0x47 && s[3] == 0x47) {
        Err(BlfError::NotBlf)
    } else if !(8 <= le32(s, 4) <= 0x10000) {
        Err(BlfError::HeaderSize(le32(s, 4) as u32))
    } else if s.len() < le32(s, 4) {
        Err(BlfError::HeaderTruncated)
    } else {
        Ok(le32(s, 4))
    }
}

/// The measurement start: 16 bytes at offset 56, where the header reaches 16
/// bytes beyond them.
pub open spec fn header_time(s: Seq<u8>, header_size: int) -> SystemTimeFields {
    if header_size >= 88 {
        system_time(s.subrange(56, 72))
    } else {
        unset_time()
    }
}

/// Check the file header; returns its size.
fn read_file_header(bytes: &[u8]) -> (r: Result<usize, BlfError>)
    ensures
        match r {
            Ok(n) => file_header(bytes@) == Ok::<int, BlfError>(n as int),
            Err(e) => file_header(bytes@) == Err::<int, BlfError>(e),
        },
{
    if bytes.len() < 8 {
        return Err(BlfError::HeaderTruncated);
    }
    if !(bytes[0] == 0x4C && bytes[1] == 0x4F && bytes[2] == 0x47 && bytes[3] == 0x47) {
        return Err(BlfError::NotBlf);
    }
    let header_size: u32 = u32le(bytes, 4);
    if !(8 <= header_size && header_size <= 0x10000) {
        return Err(BlfError::HeaderSize(header_size));
    }
    if bytes.len() < header_size as usize {
        return Err(BlfError::HeaderTruncated);
    }
    Ok(header_size as usize)
}

/// What stands next in the unread bytes of a file.
pub enum TopObject {
    /// Not known before more bytes come.
    Starved,
    /// No further object.
    End,
    /// An object that cannot be read.
    Broken(BlfError),
    /// A complete object of `size` bytes at offset `start`.
    Whole { start: int, size: int },
}

/// Find the next object: it starts at the next signature, and `size % 4`
/// bytes of padding follow it. `closed` says that no bytes follow `input`.
pub open spec fn top_object(input: Seq<u8>, closed: bool) -> TopObject {
    let out_of_bytes = if closed {
        TopObject::End
    } else {
        TopObject::Starved
    };
    match first_signature(input) {
        None => out_of_bytes,
        Some(start) => {
            let rest = input.skip(start);
            let size = le32(rest, 8);
            if rest.len() < 16 {
                out_of_bytes
            } else if size < 16 || le16(rest, 4) < 16 {
                TopObject::Broken(BlfError::ObjectHeader(size as u32))
            } else if rest.len() < size {
                if closed {
                    TopObject::Broken(BlfError::ObjectTruncated)
                } else {
                    TopObject::Starved
                }
            } else if !closed && rest.len() < size + size % 4 {
                TopObject::Starved
            } else {
                TopObject::Whole { start, size }
            }
        },
    }
}

/// The content of a container: its payload as it is, or inflated. The fields
/// in front of the payload are the compression method (2 bytes), 6 reserved
/// bytes, the uncompressed size (4), and 4 reserved bytes. `body` is the
/// container without the 16 bytes that every object starts with.
pub open spec fn container_content(header_size: int, body: Seq<u8>) -> Result<Seq<u8>, BlfError> {
    let fields = header_size - 16;
    let method = le16(body, fields);
    let payload = body.skip(fields + 16);
    if body.len() < fields + 16 {
        Err(BlfError::Container)
    } else if method == COMPRESSION_NONE {
        Ok(payload)
    } else if method == COMPRESSION_ZLIB {
        match inflated(payload) {
            Some(content) => Ok(content),
            None => Err(BlfError::Inflate),
        }
    } else {
        Err(BlfError::Compression(method as u16))
    }
}

/// The payload of a container, given all of its bytes.
pub open spec fn container_payload(obj: Seq<u8>) -> Seq<u8> {
    obj.skip(16).skip(le16(obj, 4))
}

/// Put the content of a container behind the bytes in `buffer`. Where it
/// cannot be inflated, what was read before the failure is put there.
fn unpack_container(header_size: usize, body: &[u8], buffer: &mut Vec<u8>) -> (r: Result<
    (),
    BlfError,
>)
    requires
        16 <= header_size <= 0xFFFF,
    ensures
        match r {
            Ok(()) => container_content(header_size as int, body@) matches Ok(content)
                && final(buffer)@ == old(buffer)@ + content,
            Err(e) => {
                &&& container_content(header_size as int, body@) == Err::<Seq<u8>, BlfError>(e)
                &&& if e == BlfError::Inflate {
                    exists|left: Seq<u8>| #[trigger]
                        read_before_failure(body@.skip(header_size as int), left)
                            && final(buffer)@ == old(buffer)@ + left
                } else {
                    final(buffer)@ == old(buffer)@
                }
            },
        },
{
    let fields: usize = header_size - 16;
    if body.len() < fields + 16 {
        return Err(BlfError::Container);
    }
    let method: u16 = u16le(body, fields);
    let payload: &[u8] = &body[fields + 16..body.len()];
    assert(payload@ =~= body@.skip(fields + 16));
    if method == COMPRESSION_NONE {
        append_bytes(buffer, payload);
        Ok(())
    } else if method == COMPRESSION_ZLIB {
        match inflate_or_left(payload) {
            Ok(content) => {
                append_bytes(buffer, content.as_slice());
                Ok(())
            },
            Err(left) => {
                append_bytes(buffer, left.as_slice());
                Err(BlfError::Inflate)
            },
        }
    } else {
        Err(BlfError::Compression(method))
    }
}

/// What a complete top-level object holds, behind what was kept of the
/// containers before it.
pub open spec fn object_content(tail: Seq<u8>, obj: Seq<u8>) -> Scan {
    if le32(obj, 12) == crate::frame::OBJ_TYPE_LOG_CONTAINER {
        match container_content(le16(obj, 4), obj.skip(16)) {
            Ok(content) => scan_objects(tail + content),
            Err(e) => Scan { frames: Seq::empty(), tail, error: Some(e) },
        }
    } else {
        match message_object(obj) {
            Ok(Some(frame)) => Scan { frames: seq![frame], tail, error: None },
            Ok(None) => Scan { frames: Seq::empty(), tail, error: None },
            Err(e) => Scan { frames: Seq::empty(), tail, error: Some(e) },
        }
    }
}

/// The mathematical content of a [`BlfReader`].
pub struct ReaderModel {
    /// The bytes handed over and not consumed.
    pub input: Seq<u8>,
    /// No more bytes follow.
    pub closed: bool,
    /// Number of bytes consumed.
    pub consumed: int,
    /// Container content kept for the next container.
    pub tail: Seq<u8>,
    /// Frames found and not handed out.
    pub frames: Seq<FrameModel>,
    /// The end of the file was reached.
    pub eof: bool,
    /// The measurement start.
    pub start_time: SystemTimeFields,
}

/// Number of bytes in front that cannot be part of an object: those before the
/// first signature, or all but the last three without one.
pub open spec fn junk_length(s: Seq<u8>) -> int {
    match first_signature(s) {
        Some(at) => at,
        None => s.len() - last_three(s).len(),
    }
}

impl ReaderModel {
    /// Whether `after` is the reader after an answer, where `self` is the one
    /// that the answer calls for. They are the same, but for a container whose
    /// payload `stream` could not be inflated: what was read of it before the
    /// failure is kept for the next container.
    pub open spec fn settles_as(
        self,
        failed: Option<BlfError>,
        stream: Seq<u8>,
        after: ReaderModel,
    ) -> bool {
        if failed == Some(BlfError::Inflate) {
            exists|left: Seq<u8>| #[trigger]
                read_before_failure(stream, left) && after == (ReaderModel {
                    tail: self.tail + left,
                    ..self
                })
        } else {
            after == self
        }
    }

    /// The reader after `n` more bytes.
    pub open spec fn consume(self, n: int) -> ReaderModel {
        ReaderModel { input: self.input.skip(n), consumed: self.consumed + n, ..self }
    }

    /// The reader at the end of its bytes.
    pub open spec fn finish(self) -> ReaderModel {
        ReaderModel { eof: true, ..self.consume(self.input.len() as int) }
    }

    /// The reader after the complete object at `start`, and what was wrong
    /// with it. Padding is skipped behind a good object only.
    pub open spec fn take_object(self, start: int, size: int) -> (ReaderModel, Option<BlfError>) {
        let scan = object_content(self.tail, self.input.subrange(start, start + size));
        let read = ReaderModel {
            tail: scan.tail,
            frames: self.frames + scan.frames,
            ..self.consume(start + size)
        };
        let padding = if read.input.len() < size % 4 {
            read.input.len() as int
        } else {
            size % 4
        };
        match scan.error {
            Some(e) => (read, Some(e)),
            None => (read.consume(padding), None),
        }
    }

    /// The reader after a request for the next frame, and the answer: a
    /// frame, nothing (at the end of the file, or until more bytes come), or
    /// an error. A reader that waits for bytes passes over those that cannot
    /// be part of an object. What was read of a container that could not be
    /// inflated is left aside here (see [`ReaderModel::settles_as`]).
    pub open spec fn next(self) -> (ReaderModel, Result<Option<FrameModel>, BlfError>)
        decreases self.input.len(),
    {
        if self.frames.len() > 0 {
            (
                ReaderModel { frames: self.frames.drop_first(), ..self },
                Ok(Some(self.frames.first())),
            )
        } else if self.eof {
            (self, Ok(None))
        } else {
            match top_object(self.input, self.closed) {
                TopObject::Starved => (self.consume(junk_length(self.input)), Ok(None)),
                TopObject::End => (self.finish(), Ok(None)),
                TopObject::Broken(BlfError::ObjectTruncated) => (
                    self.consume(self.input.len() as int),
                    Err(BlfError::ObjectTruncated),
                ),
                TopObject::Broken(e) => (
                    self.consume(first_signature(self.input)->0 + 16),
                    Err(e),
                ),
                TopObject::Whole { start, size } => {
                    let (read, error) = self.take_object(start, size);
                    proof {
                        lemma_signature_meaning(self.input);
                    }
                    match error {
                        Some(e) => (read, Err(e)),
                        None => read.next(),
                    }
                },
            }
        }
    }

    /// The payload of the container that a request for the next frame fails
    /// at.
    pub open spec fn failing_payload(self) -> Seq<u8>
        decreases self.input.len(),
    {
        if self.frames.len() > 0 || self.eof {
            Seq::empty()
        } else {
            match top_object(self.input, self.closed) {
                TopObject::Whole { start, size } => {
                    let (read, error) = self.take_object(start, size);
                    proof {
                        lemma_signature_meaning(self.input);
                    }
                    match error {
                        Some(_) => container_payload(self.input.subrange(start, start + size)),
                        None => read.failing_payload(),
                    }
                },
                _ => Seq::empty(),
            }
        }
    }
}

/// Streaming BLF reader. Takes compressed containers one at a time, so peak
/// memory stays proportional to a single container regardless of file size.
pub struct BlfReader {
    /// Bytes of the file; those from `at` on are not consumed yet.
    input: Vec<u8>,
    at: usize,
    closed: bool,
    consumed: u64,
    /// Container content; that from `pos` on is not parsed yet.
    buffer: Vec<u8>,
    pos: usize,
    frames: VecDeque<CanFrame>,
    pub start_time: SystemTimeFields,
    eof: bool,
}

impl View for BlfReader {
    type V = ReaderModel;

    closed spec fn view(&self) -> ReaderModel {
        ReaderModel {
            input: self.input@.skip(self.at as int),
            closed: self.closed,
            consumed: self.consumed as int,
            tail: self.buffer@.skip(self.pos as int),
            frames: frame_models(self.frames@),
            eof: self.eof,
            start_time: self.start_time,
        }
    }
}

impl BlfReader {
    /// The positions lie inside their buffers, the frames are well formed,
    /// and the number of bytes taken so far can be counted.
    pub closed spec fn wf(&self) -> bool {
        &&& self.at <= self.input@.len()
        &&& self.pos <= self.buffer@.len()
        &&& frames_wf(self.frames@)
        &&& self.consumed + (self.input@.len() - self.at) <= u64::MAX
    }

    /// The number of bytes that can still be counted.
    pub open spec fn room(&self) -> int {
        u64::MAX - self@.consumed - self@.input.len()
    }

    /// A reader over the bytes of a complete file.
    pub fn new(bytes: &[u8]) -> (r: Result<Self, BlfError>)
        ensures
            match r {
                Ok(reader) => {
                    let n = file_header(bytes@)->Ok_0;
                    &&& file_header(bytes@) is Ok
                    &&& reader.wf()
                    &&& reader@ == (ReaderModel {
                        input: bytes@.skip(n),
                        closed: true,
                        consumed: n,
                        tail: Seq::empty(),
                        frames: Seq::empty(),
                        eof: false,
                        start_time: header_time(bytes@, n),
                    })
                },
                Err(e) => file_header(bytes@) == Err::<int, BlfError>(e),
            },
    {
        let mut reader = BlfReader::streaming(bytes)?;
        reader.close();
        Ok(reader)
    }

    /// A reader over a file of which `head` is the first part, with the whole
    /// file header in it. The rest follows through [`BlfReader::feed`].
    pub fn streaming(head: &[u8]) -> (r: Result<Self, BlfError>)
        ensures
            match r {
                Ok(reader) => {
                    let n = file_header(head@)->Ok_0;
                    &&& file_header(head@) is Ok
                    &&& reader.wf()
                    &&& reader@ == (ReaderModel {
                        input: head@.skip(n),
                        closed: false,
                        consumed: n,
                        tail: Seq::empty(),
                        frames: Seq::empty(),
                        eof: false,
                        start_time: header_time(head@, n),
                    })
                },
                Err(e) => file_header(head@) == Err::<int, BlfError>(e),
            },
    {
        let header_size: usize = read_file_header(head)?;
        let start_time = if header_size >= 88 {
            SystemTimeFields::parse(&head[56..72])
        } else {
            SystemTimeFields::default()
        };
        let mut input: Vec<u8> = Vec::new();
        append_bytes(&mut input, &head[header_size..head.len()]);
        let reader = BlfReader {
            input,
            at: 0,
            closed: false,
            consumed: header_size as u64,
            buffer: Vec::new(),
            pos: 0,
            frames: VecDeque::new(),
            start_time,
            eof: false,
        };
        assert(reader@.input =~= head@.skip(header_size as int));
        assert(reader@.tail =~= Seq::<u8>::empty());
        assert(reader@.frames =~= Seq::<FrameModel>::empty());
        Ok(reader)
    }

    /// Hand over the next bytes of the file.
    pub fn feed(&mut self, bytes: &[u8])
        requires
            old(self).wf(),
            !old(self)@.closed,
            bytes@.len() <= old(self).room(),
        ensures
            final(self).wf(),
            final(self)@ == (ReaderModel { input: old(self)@.input + bytes@, ..old(self)@ }),
    {
        let ghost before = self@.input;
        if self.at > 0 {
            let mut rest: Vec<u8> = Vec::new();
            append_bytes(&mut rest, &self.input[self.at..self.input.len()]);
            self.input = rest;
            self.at = 0;
            assert(self.input@ =~= before);
        }
        append_bytes(&mut self.input, bytes);
        assert(self@.input =~= before + bytes@);
    }

    /// Say that the file has no more bytes.
    pub fn close(&mut self)
        requires
            old(self).wf(),
        ensures
            final(self).wf(),
            final(self)@ == (ReaderModel { closed: true, ..old(self)@ }),
    {
        self.closed = true;
    }

    /// The measurement start that the file header gives.
    pub fn start_time(&self) -> (r: SystemTimeFields)
        ensures
            r == self@.start_time,
    {
        self.start_time
    }

    /// Whether the reader reached the end of its file.
    pub fn at_end(&self) -> (r: bool)
        ensures
            r == self@.eof,
    {
        self.eof
    }

    /// Compressed bytes consumed so far (for progress reporting).
    pub fn bytes_read(&self) -> (r: u64)
        ensures
            r == self@.consumed,
    {
        self.consumed
    }

    /// Pass over `n` bytes of the file.
    fn consume(&mut self, n: usize)
        requires
            old(self).wf(),
            n <= old(self)@.input.len(),
        ensures
            final(self).wf(),
            final(self)@ == old(self)@.consume(n as int),
    {
        let ghost before = self@;
        let len: usize = self.input.len();
        assert(self.at + n <= len);
        self.at = self.at + n;
        self.consumed = self.consumed + n as u64;
        assert(self@.input =~= before.input.skip(n as int));
    }

    /// Take the complete object of `size` bytes at offset `start`: the frame
    /// in it, or, for a container, the frames in its content.
    fn read_top_level_object(&mut self, start: usize, size: usize) -> (r: Result<(), BlfError>)
        requires
            old(self).wf(),
            16 <= size,
            start + size <= old(self)@.input.len(),
            le16(old(self)@.input.skip(start as int), 4) >= 16,
        ensures
            final(self).wf(),
            match r {
                Ok(()) => old(self)@.take_object(start as int, size as int) == (
                    final(self)@,
                    None::<BlfError>,
                ),
                Err(e) => {
                    let (read, error) = old(self)@.take_object(start as int, size as int);
                    &&& error == Some(e)
                    &&& read.settles_as(
                        Some(e),
                        container_payload(old(self)@.input.subrange(start as int, start + size)),
                        final(self)@,
                    )
                },
            },
    {
        let ghost before = self@;
        let len: usize = self.input.len();
        assert(self.at + start + size <= len);
        let from: usize = self.at + start;
        let obj: &[u8] = &self.input[from..from + size];
        assert(obj@ =~= before.input.subrange(start as int, start + size));
        let header_size: usize = u16le(obj, 4) as usize;
        let object_type: u32 = u32le(obj, 12);
        if object_type == crate::frame::OBJ_TYPE_LOG_CONTAINER {
            let body: &[u8] = &obj[16..size];
            assert(body@ =~= obj@.skip(16));
            // What was kept of the previous container goes in front: an object
            // may span the boundary.
            let mut buffer: Vec<u8> = Vec::new();
            append_bytes(&mut buffer, &self.buffer[self.pos..self.buffer.len()]);
            assert(buffer@ =~= before.tail);
            let unpacked = unpack_container(header_size, body, &mut buffer);
            self.consume(start + size);
            self.buffer = buffer;
            self.pos = 0;
            assert(self.buffer@.skip(0) =~= self.buffer@);
            match unpacked {
                Err(e) => {
                    assert(self@.frames =~= before.frames + Seq::<FrameModel>::empty());
                    return Err(e);
                },
                Ok(()) => {
                    proof {
                        lemma_objects_need_no_inflating(self@.tail);
                    }
                    self.consume_container()?;
                },
            }
        } else {
            proof {
                lemma_message_needs_no_inflating(obj@);
            }
            match parse_message_object(obj) {
                Err(e) => {
                    self.consume(start + size);
                    assert(self@.frames =~= before.frames + Seq::<FrameModel>::empty());
                    return Err(e);
                },
                Ok(None) => {
                    self.consume(start + size);
                    assert(self@.frames =~= before.frames + Seq::<FrameModel>::empty());
                },
                Ok(Some(frame)) => {
                    let ghost model = frame@;
                    self.consume(start + size);
                    self.frames.push_back(frame);
                    assert(self@.frames =~= before.frames + seq![model]);
                },
            }
        }
        // Objects are padded with `size % 4` bytes.
        let padding: usize = size % 4;
        let left: usize = self.input.len() - self.at;
        self.consume(if left < padding {
            left
        } else {
            padding
        });
        Ok(())
    }

    /// Parse the objects in the content that is at hand.
    fn consume_container(&mut self) -> (r: Result<(), BlfError>)
        requires
            old(self).wf(),
        ensures
            final(self).wf(),
            final(self)@ == (ReaderModel {
                tail: scan_objects(old(self)@.tail).tail,
                frames: old(self)@.frames + scan_objects(old(self)@.tail).frames,
                ..old(self)@
            }),
            match r {
                Ok(()) => scan_objects(old(self)@.tail).error is None,
                Err(e) => scan_objects(old(self)@.tail).error == Some(e),
            },
    {
        let (pos, error) = parse_buffer(&self.buffer, self.pos, &mut self.frames);
        self.pos = pos;
        match error {
            Some(e) => Err(e),
            None => Ok(()),
        }
    }

    /// Next CAN frame, or `None` at end of file (or, while the file is not
    /// closed, until more of its bytes come). How much of a container that
    /// cannot be inflated is kept for the next one is left open.
    pub fn next_frame(&mut self) -> (r: Result<Option<CanFrame>, BlfError>)
        requires
            old(self).wf(),
        ensures
            final(self).wf(),
            parsed_view(r) == old(self)@.next().1,
            old(self)@.next().0.settles_as(r.err(), old(self)@.failing_payload(), final(self)@),
            r matches Ok(Some(frame)) ==> frame@.wf(),
    {
        let ghost goal = self@.next();
        loop
            invariant
                self.wf(),
                goal == old(self)@.next(),
                goal == self@.next(),
                old(self)@.failing_payload() == self@.failing_payload(),
            decreases self@.input.len(),
        {
            let ghost before = self@;
            if let Some(frame) = self.frames.pop_front() {
                assert(before.frames.first() == frame@);
                assert(self@.frames =~= before.frames.drop_first());
                return Ok(Some(frame));
            }
            if self.eof {
                return Ok(None);
            }
            let len: usize = self.input.len();
            let input: &[u8] = &self.input[self.at..len];
            assert(input@ =~= before.input);
            let start: usize = match find_signature(input) {
                None => {
                    let left: usize = input.len();
                    return Ok(self.out_of_bytes(if left > 3 {
                        left - 3
                    } else {
                        0
                    }));
                },
                Some(start) => start,
            };
            let rest: &[u8] = &input[start..input.len()];
            assert(rest@ =~= before.input.skip(start as int));
            let left: usize = rest.len();
            if left < 16 {
                return Ok(self.out_of_bytes(start));
            }
            let header_size: u16 = u16le(rest, 4);
            let object_size: u32 = u32le(rest, 8);
            if object_size < 16 || header_size < 16 {
                self.consume(start + 16);
                return Err(BlfError::ObjectHeader(object_size));
            }
            let size: usize = object_size as usize;
            if left < size {
                if self.closed {
                    self.consume(start + left);
                    return Err(BlfError::ObjectTruncated);
                }
                return Ok(self.out_of_bytes(start));
            }
            if !self.closed && left - size < size % 4 {
                return Ok(self.out_of_bytes(start));
            }
            match self.read_top_level_object(start, size) {
                Err(e) => {
                    return Err(e);
                },
                Ok(()) => {},
            }
        }
    }

    /// Answer a request for which no object is left: at the end of a closed
    /// file everything is consumed, else the `junk` bytes in front.
    fn out_of_bytes(&mut self, junk: usize) -> (r: Option<CanFrame>)
        requires
            old(self).wf(),
            junk <= old(self)@.input.len(),
        ensures
            final(self).wf(),
            r is None,
            final(self)@ == (if old(self)@.closed {
                old(self)@.finish()
            } else {
                old(self)@.consume(junk as int)
            }),
    {
        if self.closed {
            let left: usize = self.input.len() - self.at;
            self.consume(left);
            self.eof = true;
        } else {
            self.consume(junk);
        }
        None
    }
}

} // verus!
