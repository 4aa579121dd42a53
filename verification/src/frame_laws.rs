//! What holds of the frames that log objects carry, byte by byte.

use crate::bytes::{le16, le32, le64};
use crate::frame::{fd_len, has_bit, message_object, object_time, FrameModel};
use vstd::arithmetic::power2::lemma2_to64;
use vstd::prelude::*;

verus! {

/// A number is the sum of its bytes, each weighted 256 times the one before it.
pub proof fn law_numbers_weigh_their_bytes(s: Seq<u8>, at: int)
    ensures
        le16(s, at) == s[at] + 0x100 * s[at + 1],
        le32(s, at) == s[at] + 0x100 * s[at + 1] + 0x1_0000 * s[at + 2] + 0x100_0000 * s[at + 3],
        le64(s, at) == s[at] + 0x100 * s[at + 1] + 0x1_0000 * s[at + 2] + 0x100_0000 * s[at + 3]
            + 0x1_0000_0000 * s[at + 4] + 0x100_0000_0000 * s[at + 5] + 0x1_0000_0000_0000 * s[at
            + 6] + 0x100_0000_0000_0000 * s[at + 7],
{
}

/// Objects of other types than the four CAN messages (1, 86, 100 and 101) say
/// nothing.
pub proof fn law_other_objects_say_nothing(obj: Seq<u8>)
    requires
        obj.len() >= 16,
        ({
            let kind = obj[12] + 0x100 * obj[13] + 0x1_0000 * obj[14] + 0x100_0000 * obj[15];
            kind != 1 && kind != 86 && kind != 100 && kind != 101
        }),
    ensures
        message_object(obj) matches Ok(frame) && frame is None,
{
    reveal(message_object);
}

/// Whether `obj` is an object of the given type with a header that can be
/// read: of version 1 or 2, at least 32 bytes with the timestamp in them, and
/// `h` bytes long.
pub open spec fn readable(obj: Seq<u8>, kind: int, h: int) -> bool {
    &&& obj.len() >= 32
    &&& h == obj[4] + 0x100 * obj[5]
    &&& h <= obj.len()
    &&& (obj[6] == 1 || obj[6] == 2) && obj[7] == 0
    &&& obj[12] == kind && obj[13] == 0 && obj[14] == 0 && obj[15] == 0
}

/// The number in the eight bytes of the timestamp.
pub open spec fn stamp(obj: Seq<u8>) -> int {
    obj[24] + 0x100 * obj[25] + 0x1_0000 * obj[26] + 0x100_0000 * obj[27] + 0x1_0000_0000 * (obj[28]
        + 0x100 * obj[29] + 0x1_0000 * obj[30] + 0x100_0000 * obj[31])
}

/// Whether the lowest byte of the header's flags says that the timestamp
/// counts units of ten microseconds: bit 0 is set and bit 1 is not.
pub open spec fn counts_ten_micros(obj: Seq<u8>) -> bool {
    obj[16] % 4 == 1
}

/// Whether a frame carries the identifier in the four bytes at `at`: the
/// highest bit says whether it is extended, the other bits are the identifier.
pub open spec fn carries_identifier(frame: FrameModel, obj: Seq<u8>, at: int) -> bool {
    &&& 0 <= frame.id < 0x8000_0000
    &&& obj[at] + 0x100 * obj[at + 1] + 0x1_0000 * obj[at + 2] + 0x100_0000 * obj[at + 3]
        == frame.id + if frame.is_extended {
        0x8000_0000int
    } else {
        0int
    }
}

/// Whether a frame carries `len` bytes of data, those of the object from `at`
/// on; where the object ends before them they are zero.
pub open spec fn carries_data(frame: FrameModel, obj: Seq<u8>, at: int, len: int) -> bool {
    &&& frame.len == len
    &&& frame.payload().len() == len
    &&& forall|i: int|
        0 <= i < len ==> #[trigger] frame.payload()[i] == if at + i < obj.len() {
            obj[at + i]
        } else {
            0u8
        }
}

proof fn lemma_header(obj: Seq<u8>, kind: int, h: int)
    requires
        readable(obj, kind, h),
        kind == 1 || kind == 86 || kind == 100 || kind == 101,
    ensures
        le16(obj, 4) == h,
        le16(obj, 6) == obj[6],
        le32(obj, 12) == kind,
        le64(obj, 24) == stamp(obj),
        object_time(le32(obj, 16), le64(obj, 24)) == if counts_ten_micros(obj) {
            10_000 * stamp(obj)
        } else {
            stamp(obj)
        },
{
    lemma2_to64();
    let flags = le32(obj, 16);
    assert(flags % 4 == obj[16] % 4);
    assert(has_bit(flags, 0) == (flags % 2 == 1));
    assert(has_bit(flags, 1) == ((flags / 2) % 2 == 1));
}

/// A classic CAN message, of either type, is read back as it was written: the
/// channel in two bytes, a byte of flags whose highest bit marks a remote
/// frame, the number of data bytes (8 where it is more), the identifier, and
/// eight bytes of data. An object without room for all of it says nothing.
pub proof fn law_classic_message_reads_back(obj: Seq<u8>, kind: int, h: int)
    requires
        readable(obj, kind, h),
        kind == 1 || kind == 86,
        !counts_ten_micros(obj) || 10_000 * stamp(obj) <= u64::MAX,
    ensures
        match message_object(obj) {
            Ok(Some(frame)) => {
                &&& obj.len() >= h + 16
                &&& frame.channel == obj[h] + 0x100 * obj[h + 1]
                &&& frame.is_remote == (obj[h + 2] >= 0x80)
                &&& carries_identifier(frame, obj, h + 4)
                &&& carries_data(
                    frame,
                    obj,
                    h + 8,
                    if obj[h + 3] < 8 {
                        obj[h + 3] as int
                    } else {
                        8
                    },
                )
                &&& frame.timestamp_ns == if counts_ten_micros(obj) {
                    10_000 * stamp(obj)
                } else {
                    stamp(obj)
                }
            },
            Ok(None) => obj.len() < h + 16,
            Err(_) => false,
        },
{
    reveal(message_object);
    lemma_header(obj, kind, h);
    lemma2_to64();
    let body = obj.skip(h);
    if body.len() >= 16 {
        assert(forall|i: int| 0 <= i < body.len() ==> #[trigger] body[i] == obj[h + i]);
    }
}

/// The number of bytes that a data length code of CAN FD stands for.
pub proof fn law_data_length_codes(code: int)
    ensures
        0 <= code <= 8 ==> fd_len(code) == code,
        fd_len(9) == 12,
        fd_len(10) == 16,
        fd_len(11) == 20,
        fd_len(12) == 24,
        fd_len(13) == 32,
        fd_len(14) == 48,
        code >= 15 ==> fd_len(code) == 64,
{
}

/// Whether `len` is the number of data bytes of a CAN FD message with the
/// given length code and number of valid bytes: the latter cuts it short where
/// it is given.
pub open spec fn fd_cut(len: int, code: int, valid: int) -> bool {
    &&& len <= fd_len(code)
    &&& valid > 0 ==> len <= valid
    &&& len == fd_len(code) || valid > 0 && len == valid
}

/// A CAN FD message is read back as it was written: the channel in two bytes,
/// a byte of flags whose highest bit marks a remote frame, the data length
/// code, the identifier, at offset 14 the number of valid bytes, and the data
/// from offset 20 on. An object without room for the fields says nothing.
pub proof fn law_fd_message_reads_back(obj: Seq<u8>, h: int)
    requires
        readable(obj, 100, h),
        !counts_ten_micros(obj) || 10_000 * stamp(obj) <= u64::MAX,
    ensures
        match message_object(obj) {
            Ok(Some(frame)) => {
                &&& obj.len() >= h + 15
                &&& frame.channel == obj[h] + 0x100 * obj[h + 1]
                &&& frame.is_remote == (obj[h + 2] >= 0x80)
                &&& carries_identifier(frame, obj, h + 4)
                &&& fd_cut(frame.len, obj[h + 3] as int, obj[h + 14] as int)
                &&& carries_data(frame, obj, h + 20, frame.len)
                &&& frame.timestamp_ns == if counts_ten_micros(obj) {
                    10_000 * stamp(obj)
                } else {
                    stamp(obj)
                }
            },
            Ok(None) => obj.len() < h + 15,
            Err(_) => false,
        },
{
    reveal(message_object);
    lemma_header(obj, 100, h);
    lemma2_to64();
    let body = obj.skip(h);
    if body.len() >= 15 {
        assert(forall|i: int| 0 <= i < body.len() ==> #[trigger] body[i] == obj[h + i]);
    }
}

/// A CAN FD message in the 64-byte layout is read back as it was written: a
/// byte each for the channel, the data length code and the number of valid
/// bytes, the identifier at offset 4, flags at offset 12, bit 4 of which marks
/// a remote frame, and the data from offset 40 on. An object without room for
/// the fields says nothing.
pub proof fn law_fd64_message_reads_back(obj: Seq<u8>, h: int)
    requires
        readable(obj, 101, h),
        !counts_ten_micros(obj) || 10_000 * stamp(obj) <= u64::MAX,
    ensures
        match message_object(obj) {
            Ok(Some(frame)) => {
                &&& obj.len() >= h + 40
                &&& frame.channel == obj[h]
                &&& frame.is_remote == (obj[h + 12] % 32 >= 16)
                &&& carries_identifier(frame, obj, h + 4)
                &&& fd_cut(frame.len, obj[h + 1] as int, obj[h + 2] as int)
                &&& carries_data(frame, obj, h + 40, frame.len)
                &&& frame.timestamp_ns == if counts_ten_micros(obj) {
                    10_000 * stamp(obj)
                } else {
                    stamp(obj)
                }
            },
            Ok(None) => obj.len() < h + 40,
            Err(_) => false,
        },
{
    reveal(message_object);
    lemma_header(obj, 101, h);
    lemma2_to64();
    let body = obj.skip(h);
    if body.len() >= 40 {
        assert(forall|i: int| 0 <= i < body.len() ==> #[trigger] body[i] == obj[h + i]);
        let flags = le32(body, 12);
        assert(flags % 32 == body[12] % 32);
        assert(has_bit(flags, 4) == ((flags / 16) % 2 == 1));
    }
}

/// A CAN message that cannot be read is an error, and no other is: a header
/// version other than 1 and 2, fewer bytes than the header claims or the
/// timestamp needs, and a timestamp that nanoseconds in 64 bits cannot hold.
pub proof fn law_unreadable_messages_are_errors(obj: Seq<u8>)
    requires
        obj.len() >= 16,
        obj[13] == 0 && obj[14] == 0 && obj[15] == 0,
        obj[12] == 1 || obj[12] == 86 || obj[12] == 100 || obj[12] == 101,
    ensures
        message_object(obj) is Err <==> {
            ||| !(obj[7] == 0 && (obj[6] == 1 || obj[6] == 2))
            ||| obj.len() < obj[4] + 0x100 * obj[5]
            ||| obj.len() < 32
            ||| counts_ten_micros(obj) && 10_000 * stamp(obj) > u64::MAX
        },
{
    reveal(message_object);
    if obj.len() >= 32 {
        lemma2_to64();
        let flags = le32(obj, 16);
        assert(flags % 4 == obj[16] % 4);
        assert(has_bit(flags, 0) == (flags % 2 == 1));
        assert(has_bit(flags, 1) == ((flags / 2) % 2 == 1));
        assert(le64(obj, 24) == stamp(obj));
    }
}

} // verus!
