//! CAN frames and the log objects that carry them.

use crate::bytes::{le16, le32, le64, u16le, u32le, u64le};
use vstd::prelude::*;

verus! {

/// Object type of a classic CAN message.
pub const OBJ_TYPE_CAN_MESSAGE: u32 = 1;

/// Object type of a container that holds other objects.
pub const OBJ_TYPE_LOG_CONTAINER: u32 = 10;

/// Object type of a classic CAN message, second layout.
pub const OBJ_TYPE_CAN_MESSAGE2: u32 = 86;

/// Object type of a CAN FD message.
pub const OBJ_TYPE_CAN_FD_MESSAGE: u32 = 100;

/// Object type of a CAN FD message, 64-byte layout.
pub const OBJ_TYPE_CAN_FD_MESSAGE_64: u32 = 101;

/// Timestamp flag of the object header: units of ten microseconds.
pub const FLAG_TIME_TEN_MICS: u32 = 1;

/// Timestamp flag of the object header: nanoseconds.
pub const FLAG_TIME_ONE_NANS: u32 = 2;

/// Marks a 29-bit identifier.
pub const CAN_ID_EXTENDED_BIT: u32 = 0x8000_0000;

/// What can be wrong with a BLF file.
#[derive(Debug, Clone, Copy, PartialEq, Eq, Structural)]
pub enum BlfError {
    /// The file ends inside its header.
    HeaderTruncated,
    /// The file does not start with the `LOGG` signature.
    NotBlf,
    /// The header claims this impossible size.
    HeaderSize(u32),
    /// A top-level object claims this size, or a header of fewer than 16 bytes.
    ObjectHeader(u32),
    /// The file ends inside an object.
    ObjectTruncated,
    /// An object is too short for its own header.
    ShortObject,
    /// A CAN object has a header of this unknown version.
    HeaderVersion(u16),
    /// A timestamp does not fit in 64 bits of nanoseconds.
    TimestampRange,
    /// A container is too short for its fields.
    Container,
    /// A container's payload is no zlib stream.
    Inflate,
    /// A container uses this unknown compression method.
    Compression(u16),
}

/// A decoded CAN / CAN FD frame from the log.
#[derive(Debug, Clone)]
pub struct CanFrame {
    /// Nanoseconds since measurement start.
    pub timestamp_ns: u64,
    pub channel: u16,
    /// 11-bit or 29-bit identifier (extended bit stripped).
    pub id: u32,
    pub is_extended: bool,
    pub data: [u8; 64],
    pub len: u8,
    /// Remote frames carry no data and are skipped by the decoder.
    pub is_remote: bool,
}

/// The mathematical content of a [`CanFrame`].
pub struct FrameModel {
    pub timestamp_ns: int,
    pub channel: int,
    pub id: int,
    pub is_extended: bool,
    /// The 64 bytes of the payload buffer.
    pub data: Seq<u8>,
    pub len: int,
    pub is_remote: bool,
}

impl View for CanFrame {
    type V = FrameModel;

    open spec fn view(&self) -> FrameModel {
        FrameModel {
            timestamp_ns: self.timestamp_ns as int,
            channel: self.channel as int,
            id: self.id as int,
            is_extended: self.is_extended,
            data: self.data@,
            len: self.len as int,
            is_remote: self.is_remote,
        }
    }
}

impl FrameModel {
    /// The payload: the leading `len` bytes of the buffer.
    pub open spec fn payload(self) -> Seq<u8> {
        self.data.take(self.len)
    }

    /// The buffer has 64 bytes and the payload lies inside it.
    pub open spec fn wf(self) -> bool {
        self.data.len() == 64 && 0 <= self.len <= 64
    }
}

impl CanFrame {
    /// The payload of the frame.
    pub fn data(&self) -> (r: &[u8])
        requires
            self.len <= 64,
        ensures
            r@ == self@.payload(),
    {
        let all: &[u8] = self.data.as_slice();
        let r: &[u8] = &all[0..self.len as usize];
        assert(r@ =~= self@.payload());
        r
    }
}

/// Payload length in bytes that a CAN FD data length code stands for.
pub open spec fn fd_len(dlc: int) -> int {
    if dlc <= 8 {
        dlc
    } else if dlc <= 12 {
        12 + 4 * (dlc - 9)
    } else if dlc == 13 {
        32
    } else if dlc == 14 {
        48
    } else {
        64
    }
}

/// Convert a CAN FD DLC to the payload length in bytes.
pub fn fd_dlc_to_len(dlc: u8) -> (r: u8)
    ensures
        r == fd_len(dlc as int),
        r <= 64,
{
    match dlc {
        0..=8 => dlc,
        9 => 12,
        10 => 16,
        11 => 20,
        12 => 24,
        13 => 32,
        14 => 48,
        _ => 64,
    }
}

/// The payload length of a CAN FD frame: what the data length code stands
/// for, cut to the number of valid bytes where that is given (not zero).
pub open spec fn fd_payload_len(dlc: int, valid_bytes: int) -> int {
    if 0 < valid_bytes < fd_len(dlc) {
        valid_bytes
    } else {
        fd_len(dlc)
    }
}

/// A 64-byte buffer that starts with the first `count` bytes of `src` from
/// offset `at` on, as far as `src` has them, and is zero behind them.
pub open spec fn padded(src: Seq<u8>, at: int, count: int) -> Seq<u8> {
    Seq::new(64, |i: int| if i < count && at + i < src.len() { src[at + i] } else { 0u8 })
}

/// The identifier without the extended bit.
pub open spec fn plain_id(raw_id: int) -> int {
    raw_id % 0x8000_0000
}

/// Whether the identifier has the extended bit.
pub open spec fn extended_id(raw_id: int) -> bool {
    raw_id >= 0x8000_0000
}

/// Whether bit number `bit` of `value` is set.
pub open spec fn has_bit(value: int, bit: nat) -> bool {
    (value / vstd::arithmetic::power2::pow2(bit) as int) % 2 == 1
}

pub open spec fn is_can_type(object_type: int) -> bool {
    ||| object_type == OBJ_TYPE_CAN_MESSAGE
    ||| object_type == OBJ_TYPE_CAN_MESSAGE2
    ||| object_type == OBJ_TYPE_CAN_FD_MESSAGE
    ||| object_type == OBJ_TYPE_CAN_FD_MESSAGE_64
}

/// The frame in the body of a classic CAN message: channel (2 bytes), flags
/// (1, bit 7: remote), data length code (1), identifier (4), data (8).
pub open spec fn classic_frame(timestamp_ns: int, body: Seq<u8>) -> Option<FrameModel> {
    if body.len() < 16 {
        None
    } else {
        Some(
            FrameModel {
                timestamp_ns,
                channel: le16(body, 0),
                id: plain_id(le32(body, 4)),
                is_extended: extended_id(le32(body, 4)),
                data: padded(body, 8, 8),
                len: if body[3] < 8 { body[3] as int } else { 8 },
                is_remote: has_bit(body[2] as int, 7),
            },
        )
    }
}

/// The frame in the body of a CAN FD message: channel (2 bytes), flags (1,
/// bit 7: remote), data length code (1), identifier (4), then, at offset 14,
/// the number of valid bytes, and the data from offset 20 on.
pub open spec fn fd_frame(timestamp_ns: int, body: Seq<u8>) -> Option<FrameModel> {
    if body.len() < 15 {
        None
    } else {
        let len = fd_payload_len(body[3] as int, body[14] as int);
        Some(
            FrameModel {
                timestamp_ns,
                channel: le16(body, 0),
                id: plain_id(le32(body, 4)),
                is_extended: extended_id(le32(body, 4)),
                data: padded(body, 20, len),
                len,
                is_remote: has_bit(body[2] as int, 7),
            },
        )
    }
}

/// The frame in the body of a 64-byte CAN FD message: channel (1 byte), data
/// length code (1), number of valid bytes (1), identifier at offset 4, flags
/// at offset 12 (bit 4: remote), and the data from offset 40 on.
pub open spec fn fd64_frame(timestamp_ns: int, body: Seq<u8>) -> Option<FrameModel> {
    if body.len() < 40 {
        None
    } else {
        let len = fd_payload_len(body[1] as int, body[2] as int);
        Some(
            FrameModel {
                timestamp_ns,
                channel: body[0] as int,
                id: plain_id(le32(body, 4)),
                is_extended: extended_id(le32(body, 4)),
                data: padded(body, 40, len),
                len,
                is_remote: has_bit(le32(body, 12), 4),
            },
        )
    }
}

/// The timestamp in nanoseconds: the nanosecond flag wins over the flag for
/// units of ten microseconds; without either the number is in nanoseconds.
pub open spec fn object_time(flags: int, timestamp: int) -> int {
    if !has_bit(flags, 1) && has_bit(flags, 0) {
        10_000 * timestamp
    } else {
        timestamp
    }
}

/// What a complete object says: a frame, nothing (no CAN message, or one
/// whose body is too short), or an error.
#[verifier::opaque]
pub open spec fn message_object(obj: Seq<u8>) -> Result<Option<FrameModel>, BlfError> {
    let header_size = le16(obj, 4);
    let version = le16(obj, 6);
    let object_type = le32(obj, 12);
    let time = object_time(le32(obj, 16), le64(obj, 24));
    let body = obj.skip(header_size);
    if !is_can_type(object_type) {
        Ok(None)
    } else if obj.len() < header_size {
        Err(BlfError::ShortObject)
    } else if version != 1 && version != 2 {
        Err(BlfError::HeaderVersion(version as u16))
    } else if obj.len() < 32 {
        Err(BlfError::ShortObject)
    } else if time > u64::MAX {
        Err(BlfError::TimestampRange)
    } else if object_type == OBJ_TYPE_CAN_FD_MESSAGE_64 {
        Ok(fd64_frame(time, body))
    } else if object_type == OBJ_TYPE_CAN_FD_MESSAGE {
        Ok(fd_frame(time, body))
    } else {
        Ok(classic_frame(time, body))
    }
}

/// The view of a parse result.
pub open spec fn parsed_view(r: Result<Option<CanFrame>, BlfError>) -> Result<
    Option<FrameModel>,
    BlfError,
> {
    match r {
        Ok(Some(frame)) => Ok(Some(frame@)),
        Ok(None) => Ok(None),
        Err(e) => Err(e),
    }
}

/// Copy what `src` has of the `count` bytes from offset `at` on to a buffer
/// of zeros.
fn payload_buffer(src: &[u8], at: usize, count: usize) -> (r: [u8; 64])
    requires
        count <= 64,
        at <= 64,
    ensures
        r@ == padded(src@, at as int, count as int),
{
    let mut data: [u8; 64] = [0u8;64];
    let mut i: usize = 0;
    while i < count && at + i < src.len()
        invariant
            i <= count <= 64,
            at <= 64,
            at + i <= src@.len() || i == 0,
            data@ =~= padded(src@, at as int, i as int),
        decreases count - i,
    {
        data[i] = src[at + i];
        i += 1;
    }
    assert(data@ =~= padded(src@, at as int, count as int));
    data
}

/// The payload length of a CAN FD frame.
fn fd_valid_len(dlc: u8, valid_bytes: u8) -> (r: u8)
    ensures
        r == fd_payload_len(dlc as int, valid_bytes as int),
        r <= 64,
{
    let len: u8 = fd_dlc_to_len(dlc);
    if valid_bytes > 0 && valid_bytes < len {
        valid_bytes
    } else {
        len
    }
}

proof fn lemma_flag_bits(flags: u32)
    ensures
        (flags & FLAG_TIME_ONE_NANS != 0) == has_bit(flags as int, 1),
        (flags & FLAG_TIME_TEN_MICS != 0) == has_bit(flags as int, 0),
        (flags & 0x0010 != 0) == has_bit(flags as int, 4),
{
    vstd::arithmetic::power2::lemma2_to64();
    assert((flags & 2 != 0) == ((flags / 2) % 2 == 1)) by (bit_vector);
    assert((flags & 1 != 0) == ((flags / 1) % 2 == 1)) by (bit_vector);
    assert((flags & 0x10 != 0) == ((flags / 16) % 2 == 1)) by (bit_vector);
}

proof fn lemma_remote_bit(flags: u8)
    ensures
        (flags & 0x80 != 0) == has_bit(flags as int, 7),
{
    vstd::arithmetic::power2::lemma2_to64();
    assert((flags & 0x80 != 0) == ((flags / 128) % 2 == 1)) by (bit_vector);
}

proof fn lemma_id_bits(raw_id: u32)
    ensures
        raw_id & !CAN_ID_EXTENDED_BIT == plain_id(raw_id as int),
        (raw_id & CAN_ID_EXTENDED_BIT != 0) == extended_id(raw_id as int),
{
    assert(raw_id & !0x8000_0000u32 == raw_id % 0x8000_0000u32) by (bit_vector);
    assert((raw_id & 0x8000_0000u32 != 0) == (raw_id >= 0x8000_0000u32)) by (bit_vector);
}

/// Parse a complete object (base header included). Returns a frame for CAN
/// message object types, `None` for everything else.
pub fn parse_message_object(obj: &[u8]) -> (r: Result<Option<CanFrame>, BlfError>)
    requires
        obj@.len() >= 16,
    ensures
        parsed_view(r) == message_object(obj@),
        r matches Ok(Some(frame)) ==> frame@.wf(),
{
    proof {
        reveal(message_object);
    }
    let header_size: usize = u16le(obj, 4) as usize;
    let header_version: u16 = u16le(obj, 6);
    let object_type: u32 = u32le(obj, 12);
    if object_type != OBJ_TYPE_CAN_MESSAGE && object_type != OBJ_TYPE_CAN_MESSAGE2 && object_type
        != OBJ_TYPE_CAN_FD_MESSAGE && object_type != OBJ_TYPE_CAN_FD_MESSAGE_64 {
        return Ok(None);
    }
    if obj.len() < header_size {
        return Err(BlfError::ShortObject);
    }
    if header_version != 1 && header_version != 2 {
        return Err(BlfError::HeaderVersion(header_version));
    }
    if obj.len() < 32 {
        return Err(BlfError::ShortObject);
    }
    let flags: u32 = u32le(obj, 16);
    let timestamp: u64 = u64le(obj, 24);
    proof {
        lemma_flag_bits(flags);
    }
    let timestamp_ns: u64 = if flags & FLAG_TIME_ONE_NANS != 0 {
        timestamp
    } else if flags & FLAG_TIME_TEN_MICS != 0 {
        match timestamp.checked_mul(10_000) {
            Some(t) => t,
            None => {
                return Err(BlfError::TimestampRange);
            },
        }
    } else {
        timestamp
    };

    let body: &[u8] = &obj[header_size..obj.len()];
    assert(body@ =~= obj@.skip(header_size as int));
    if object_type == OBJ_TYPE_CAN_FD_MESSAGE_64 {
        // channel u8, dlc u8, valid_payload_len u8, tx_count u8, id u32,
        // frame_length u32, flags u32, ..., data at offset 40.
        if body.len() < 40 {
            return Ok(None);
        }
        let raw_id: u32 = u32le(body, 4);
        let fd_flags: u32 = u32le(body, 12);
        let len: u8 = fd_valid_len(body[1], body[2]);
        proof {
            lemma_id_bits(raw_id);
            lemma_flag_bits(fd_flags);
        }
        Ok(
            Some(
                CanFrame {
                    timestamp_ns,
                    channel: body[0] as u16,
                    id: raw_id & !CAN_ID_EXTENDED_BIT,
                    is_extended: raw_id & CAN_ID_EXTENDED_BIT != 0,
                    data: payload_buffer(body, 40, len as usize),
                    len,
                    is_remote: fd_flags & 0x0010 != 0,
                },
            ),
        )
    } else if object_type == OBJ_TYPE_CAN_FD_MESSAGE {
        // channel u16, flags u8, dlc u8, id u32, frame_length u32,
        // bit_count u8, fd_flags u8, valid_bytes u8, 5 reserved, data[64]
        if body.len() < 15 {
            return Ok(None);
        }
        let raw_id: u32 = u32le(body, 4);
        let msg_flags: u8 = body[2];
        let len: u8 = fd_valid_len(body[3], body[14]);
        proof {
            lemma_id_bits(raw_id);
            lemma_remote_bit(msg_flags);
        }
        Ok(
            Some(
                CanFrame {
                    timestamp_ns,
                    channel: u16le(body, 0),
                    id: raw_id & !CAN_ID_EXTENDED_BIT,
                    is_extended: raw_id & CAN_ID_EXTENDED_BIT != 0,
                    data: payload_buffer(body, 20, len as usize),
                    len,
                    is_remote: msg_flags & 0x80 != 0,
                },
            ),
        )
    } else {
        // channel u16, flags u8, dlc u8, id u32, data[8]
        if body.len() < 16 {
            return Ok(None);
        }
        let raw_id: u32 = u32le(body, 4);
        let msg_flags: u8 = body[2];
        let dlc: u8 = body[3];
        proof {
            lemma_id_bits(raw_id);
            lemma_remote_bit(msg_flags);
        }
        Ok(
            Some(
                CanFrame {
                    timestamp_ns,
                    channel: u16le(body, 0),
                    id: raw_id & !CAN_ID_EXTENDED_BIT,
                    is_extended: raw_id & CAN_ID_EXTENDED_BIT != 0,
                    data: payload_buffer(body, 8, 8),
                    len: if dlc < 8 {
                        dlc
                    } else {
                        8
                    },
                    is_remote: msg_flags & 0x80 != 0,
                },
            ),
        )
    }
}

} // verus!
