use blf_decoder::blf::{BlfError, BlfReader, CanFrame, SystemTimeFields};
use blf_decoder::frame::{
    fd_dlc_to_len, parse_message_object, CAN_ID_EXTENDED_BIT, FLAG_TIME_ONE_NANS,
    FLAG_TIME_TEN_MICS, OBJ_TYPE_CAN_FD_MESSAGE, OBJ_TYPE_CAN_FD_MESSAGE_64, OBJ_TYPE_CAN_MESSAGE,
    OBJ_TYPE_CAN_MESSAGE2, OBJ_TYPE_LOG_CONTAINER,
};
use flate2::write::ZlibEncoder;
use flate2::Compression;
use std::io::Write;

fn file_header() -> Vec<u8> {
    let mut h = vec![0u8; 144];
    h[0..4].copy_from_slice(b"LOGG");
    h[4..8].copy_from_slice(&144u32.to_le_bytes());
    // measurement start SYSTEMTIME at offset 56: 2024-01-02 03:04:05.678
    let st: [u16; 8] = [2024, 1, 2, 2, 3, 4, 5, 678];
    for (i, v) in st.iter().enumerate() {
        h[56 + i * 2..58 + i * 2].copy_from_slice(&v.to_le_bytes());
    }
    h
}

/// An object of the given type with a 32-byte header and nanosecond times.
fn object(object_type: u32, timestamp: u64, flags: u32, body: &[u8]) -> Vec<u8> {
    let mut obj = Vec::new();
    obj.extend_from_slice(b"LOBJ");
    obj.extend_from_slice(&32u16.to_le_bytes());
    obj.extend_from_slice(&1u16.to_le_bytes());
    obj.extend_from_slice(&((32 + body.len()) as u32).to_le_bytes());
    obj.extend_from_slice(&object_type.to_le_bytes());
    obj.extend_from_slice(&flags.to_le_bytes());
    obj.extend_from_slice(&0u32.to_le_bytes());
    obj.extend_from_slice(&timestamp.to_le_bytes());
    obj.extend_from_slice(body);
    obj
}

fn can_message(timestamp_ns: u64, id: u32, extended: bool, data: &[u8]) -> Vec<u8> {
    let raw_id = if extended {
        id | CAN_ID_EXTENDED_BIT
    } else {
        id
    };
    let mut body = Vec::new();
    body.extend_from_slice(&1u16.to_le_bytes());
    body.push(0);
    body.push(data.len() as u8);
    body.extend_from_slice(&raw_id.to_le_bytes());
    let mut payload = [0u8; 8];
    payload[..data.len()].copy_from_slice(data);
    body.extend_from_slice(&payload);
    object(OBJ_TYPE_CAN_MESSAGE, timestamp_ns, FLAG_TIME_ONE_NANS, &body)
}

fn deflate(bytes: &[u8]) -> Vec<u8> {
    let mut enc = ZlibEncoder::new(Vec::new(), Compression::default());
    enc.write_all(bytes).unwrap();
    enc.finish().unwrap()
}

fn container_with(payload: &[u8], size: usize, method: u16) -> Vec<u8> {
    let object_size = 32 + payload.len();
    let mut obj = Vec::new();
    obj.extend_from_slice(b"LOBJ");
    obj.extend_from_slice(&16u16.to_le_bytes());
    obj.extend_from_slice(&1u16.to_le_bytes());
    obj.extend_from_slice(&(object_size as u32).to_le_bytes());
    obj.extend_from_slice(&OBJ_TYPE_LOG_CONTAINER.to_le_bytes());
    obj.extend_from_slice(&method.to_le_bytes());
    obj.extend_from_slice(&[0u8; 6]);
    obj.extend_from_slice(&(size as u32).to_le_bytes());
    obj.extend_from_slice(&[0u8; 4]);
    obj.extend_from_slice(payload);
    obj.extend(vec![0u8; object_size % 4]);
    obj
}

fn container(objects: &[u8], zlib: bool) -> Vec<u8> {
    if zlib {
        container_with(&deflate(objects), objects.len(), 2)
    } else {
        container_with(objects, objects.len(), 0)
    }
}

fn all_frames(file: &[u8]) -> Vec<CanFrame> {
    let mut reader = BlfReader::new(file).unwrap();
    let mut frames = Vec::new();
    while let Some(frame) = reader.next_frame().unwrap() {
        frames.push(frame);
    }
    assert!(reader.at_end());
    assert_eq!(reader.bytes_read(), file.len() as u64);
    frames
}

#[test]
fn reads_frames_from_zlib_container() {
    let mut objects = Vec::new();
    objects.extend_from_slice(&can_message(1_000_000, 0x123, false, &[1, 2, 3, 4]));
    objects.extend_from_slice(&can_message(2_000_000, 0x1ABCDE, true, &[5, 6]));
    let mut file = file_header();
    file.extend_from_slice(&container(&objects, true));

    let mut reader = BlfReader::new(file.as_slice()).unwrap();
    let f1 = reader.next_frame().unwrap().unwrap();
    assert_eq!(f1.id, 0x123);
    assert!(!f1.is_extended);
    assert_eq!(f1.timestamp_ns, 1_000_000);
    assert_eq!(f1.data(), &[1, 2, 3, 4]);
    let f2 = reader.next_frame().unwrap().unwrap();
    assert_eq!(f2.id, 0x1ABCDE);
    assert!(f2.is_extended);
    assert_eq!(f2.data(), &[5, 6]);
    assert!(reader.next_frame().unwrap().is_none());
}

#[test]
fn object_split_across_containers() {
    let obj = can_message(5_000, 0x42, false, &[0xAA; 8]);
    let (a, b) = obj.split_at(20);
    let mut file = file_header();
    file.extend_from_slice(&container(a, true));
    file.extend_from_slice(&container(b, false));

    let mut reader = BlfReader::new(file.as_slice()).unwrap();
    let f = reader.next_frame().unwrap().unwrap();
    assert_eq!(f.id, 0x42);
    assert_eq!(f.data(), &[0xAA; 8]);
    assert!(reader.next_frame().unwrap().is_none());
}

#[test]
fn top_level_message_without_container() {
    let mut file = file_header();
    file.extend_from_slice(&can_message(7, 0x7FF, false, &[9]));
    let mut reader = BlfReader::new(file.as_slice()).unwrap();
    let f = reader.next_frame().unwrap().unwrap();
    assert_eq!(f.id, 0x7FF);
    assert!(reader.next_frame().unwrap().is_none());
}

#[test]
fn header_start_time_epoch() {
    let file = file_header();
    let reader = BlfReader::new(file.as_slice()).unwrap();
    let (seconds, millis) = reader.start_time.to_epoch_seconds();
    let t = seconds as f64 + millis as f64 / 1000.0;
    // 2024-01-02 03:04:05.678 UTC
    assert!((t - 1704164645.678).abs() < 1e-6, "{t}");
    assert_eq!(
        reader.start_time().to_epoch_nanos(),
        1_704_164_645_678_000_000
    );
}

#[test]
fn rejects_non_blf() {
    assert!(BlfReader::new(&b"not a blf file at all"[..]).is_err());
}

#[test]
fn header_errors() {
    assert_eq!(
        BlfReader::new(&b"not a blf file at all"[..]).err(),
        Some(BlfError::NotBlf)
    );
    assert_eq!(
        BlfReader::new(&b"LOGG"[..]).err(),
        Some(BlfError::HeaderTruncated)
    );
    let mut short = file_header();
    short.truncate(100);
    assert_eq!(
        BlfReader::new(&short).err(),
        Some(BlfError::HeaderTruncated)
    );
    let mut huge = file_header();
    huge[4..8].copy_from_slice(&0x10001u32.to_le_bytes());
    assert_eq!(
        BlfReader::new(&huge).err(),
        Some(BlfError::HeaderSize(0x10001))
    );
    let mut tiny = file_header();
    tiny[4..8].copy_from_slice(&7u32.to_le_bytes());
    assert_eq!(BlfReader::new(&tiny).err(), Some(BlfError::HeaderSize(7)));
}

#[test]
fn short_header_has_no_start_time() {
    let mut h = b"LOGG".to_vec();
    h.extend_from_slice(&8u32.to_le_bytes());
    let reader = BlfReader::new(&h).unwrap();
    assert_eq!(reader.start_time().year, SystemTimeFields::default().year);
    assert_eq!(reader.start_time().year, 0);
    assert_eq!(reader.start_time().to_epoch_seconds(), (0, 0));
}

#[test]
fn epoch_seconds_of_known_dates() {
    let at = |year, month, day, hour, minute, second| {
        SystemTimeFields {
            year,
            month,
            day,
            hour,
            minute,
            second,
            millisecond: 0,
        }
        .to_epoch_seconds()
        .0
    };
    assert_eq!(at(1970, 1, 1, 0, 0, 0), 0);
    assert_eq!(at(2000, 2, 29, 12, 0, 0), 951_825_600);
    assert_eq!(at(2000, 3, 1, 0, 0, 0), 951_868_800);
    assert_eq!(at(1969, 12, 31, 23, 59, 59), -1);
    assert_eq!(at(2038, 1, 19, 3, 14, 8), 1 << 31);
}

#[test]
fn object_errors() {
    let err = |object: &[u8]| {
        let mut file = file_header();
        file.extend_from_slice(object);
        BlfReader::new(&file).unwrap().next_frame().err()
    };
    let good = can_message(1, 2, false, &[3]);

    let mut small = good.clone();
    small[8..12].copy_from_slice(&15u32.to_le_bytes());
    assert_eq!(err(&small), Some(BlfError::ObjectHeader(15)));

    assert_eq!(err(&good[..40]), Some(BlfError::ObjectTruncated));

    let mut long_header = good.clone();
    long_header[4..6].copy_from_slice(&49u16.to_le_bytes());
    assert_eq!(err(&long_header), Some(BlfError::ShortObject));

    let mut version = good.clone();
    version[6..8].copy_from_slice(&3u16.to_le_bytes());
    assert_eq!(err(&version), Some(BlfError::HeaderVersion(3)));

    let late = object(OBJ_TYPE_CAN_MESSAGE, u64::MAX, FLAG_TIME_TEN_MICS, &[0; 16]);
    assert_eq!(err(&late), Some(BlfError::TimestampRange));

    assert_eq!(
        err(&container_with(&[1, 2, 3], 3, 7)),
        Some(BlfError::Compression(7))
    );
    assert_eq!(
        err(&container_with(&[1, 2, 3, 4], 4, 2)),
        Some(BlfError::Inflate)
    );
    let mut cut = container(&good, false);
    cut.truncate(20);
    cut[8..12].copy_from_slice(&20u32.to_le_bytes());
    assert_eq!(err(&cut), Some(BlfError::Container));
}

#[test]
fn error_texts() {
    assert_eq!(
        BlfError::HeaderTruncated.message(),
        "BLF file header is truncated"
    );
    assert_eq!(
        BlfError::NotBlf.message(),
        "not a BLF file (missing LOGG signature)"
    );
    assert_eq!(
        BlfError::HeaderSize(70000).message(),
        "invalid BLF header size: 70000"
    );
    assert_eq!(
        BlfError::ObjectHeader(15).message(),
        "corrupt BLF object header (size 15)"
    );
    assert_eq!(
        BlfError::ObjectTruncated.message(),
        "BLF object is truncated"
    );
    assert_eq!(
        BlfError::ShortObject.message(),
        "BLF object shorter than its header"
    );
    assert_eq!(
        BlfError::HeaderVersion(3).message(),
        "unsupported BLF object header version 3"
    );
    assert_eq!(
        BlfError::TimestampRange.message(),
        "BLF object timestamp is out of range"
    );
    assert_eq!(
        BlfError::Container.message(),
        "corrupt LOG_CONTAINER object"
    );
    assert_eq!(
        BlfError::Inflate.message(),
        "failed to inflate BLF log container"
    );
    assert_eq!(
        BlfError::Compression(7).message(),
        "unsupported BLF container compression method 7"
    );
}

#[test]
fn timestamps_in_ten_microseconds() {
    let obj = object(OBJ_TYPE_CAN_MESSAGE, 25, FLAG_TIME_TEN_MICS, &[0; 16]);
    let frame = parse_message_object(&obj).unwrap().unwrap();
    assert_eq!(frame.timestamp_ns, 250_000);
    let obj = object(OBJ_TYPE_CAN_MESSAGE, 25, 0, &[0; 16]);
    let frame = parse_message_object(&obj).unwrap().unwrap();
    assert_eq!(frame.timestamp_ns, 25);
}

#[test]
fn remote_frames_are_marked() {
    let mut body = [0u8; 16];
    body[2] = 0x80;
    body[3] = 8;
    let obj = object(OBJ_TYPE_CAN_MESSAGE2, 0, FLAG_TIME_ONE_NANS, &body);
    let frame = parse_message_object(&obj).unwrap().unwrap();
    assert!(frame.is_remote);
    assert_eq!(frame.data().len(), 8);
}

#[test]
fn fd_messages() {
    let mut body = vec![0u8; 20];
    body[0] = 3;
    body[3] = 9; // 12 bytes
    body[4..8].copy_from_slice(&0x111u32.to_le_bytes());
    body.extend((1..=12).collect::<Vec<u8>>());
    let obj = object(OBJ_TYPE_CAN_FD_MESSAGE, 1, FLAG_TIME_ONE_NANS, &body);
    let frame = parse_message_object(&obj).unwrap().unwrap();
    assert_eq!((frame.channel, frame.id, frame.len), (3, 0x111, 12));
    assert_eq!(frame.data(), (1..=12).collect::<Vec<u8>>().as_slice());

    // Fewer valid bytes than the length code stands for.
    body[14] = 5;
    let obj = object(OBJ_TYPE_CAN_FD_MESSAGE, 1, FLAG_TIME_ONE_NANS, &body);
    let frame = parse_message_object(&obj).unwrap().unwrap();
    assert_eq!(frame.data(), &[1, 2, 3, 4, 5]);

    let mut body = vec![0u8; 40];
    body[0] = 2;
    body[1] = 15; // 64 bytes
    body[2] = 64;
    body[4..8].copy_from_slice(&(0x1234 | CAN_ID_EXTENDED_BIT).to_le_bytes());
    body[12..16].copy_from_slice(&0x10u32.to_le_bytes());
    body.extend([7u8; 64]);
    let obj = object(OBJ_TYPE_CAN_FD_MESSAGE_64, 1, FLAG_TIME_ONE_NANS, &body);
    let frame = parse_message_object(&obj).unwrap().unwrap();
    assert_eq!((frame.channel, frame.id, frame.len), (2, 0x1234, 64));
    assert!(frame.is_extended && frame.is_remote);
    assert_eq!(frame.data(), &[7; 64]);

    // Bodies that are too short hold no frame.
    for (kind, len) in [
        (OBJ_TYPE_CAN_FD_MESSAGE, 14),
        (OBJ_TYPE_CAN_FD_MESSAGE_64, 39),
        (OBJ_TYPE_CAN_MESSAGE, 15),
    ] {
        let obj = object(kind, 1, FLAG_TIME_ONE_NANS, &vec![0u8; len]);
        assert!(parse_message_object(&obj).unwrap().is_none());
    }
}

#[test]
fn fd_lengths() {
    let lens: Vec<u8> = (0..=16).map(fd_dlc_to_len).collect();
    assert_eq!(
        lens,
        vec![0, 1, 2, 3, 4, 5, 6, 7, 8, 12, 16, 20, 24, 32, 48, 64, 64]
    );
}

#[test]
fn other_objects_are_passed_over() {
    let mut file = file_header();
    file.extend_from_slice(&object(65, 1, FLAG_TIME_ONE_NANS, &[1, 2, 3, 4]));
    file.extend_from_slice(&can_message(7, 0x7FF, false, &[9]));
    assert_eq!(all_frames(&file).len(), 1);
}

#[test]
fn junk_between_objects_is_passed_over() {
    let mut file = file_header();
    file.extend_from_slice(b"LOB junk");
    file.extend_from_slice(&can_message(7, 0x7FF, false, &[9]));
    file.extend_from_slice(b"more junk LOBJ");
    let frames = all_frames(&file);
    assert_eq!(frames.len(), 1);
    assert_eq!(frames[0].id, 0x7FF);
}

#[test]
fn compression_makes_no_difference() {
    let mut objects = Vec::new();
    for i in 0..5u32 {
        objects.extend_from_slice(&can_message(i as u64, 0x100 + i, false, &[i as u8; 8]));
    }
    let mut stored = file_header();
    stored.extend_from_slice(&container(&objects, false));
    let mut packed = file_header();
    packed.extend_from_slice(&container(&objects, true));
    let a = all_frames(&stored);
    let b = all_frames(&packed);
    assert_eq!(a.len(), 5);
    for (x, y) in a.iter().zip(b.iter()) {
        assert_eq!((x.id, x.timestamp_ns, x.data()), (y.id, y.timestamp_ns, y.data()));
    }
}

#[test]
fn feeding_in_pieces_makes_no_difference() {
    let mut objects = Vec::new();
    for i in 0..4u32 {
        objects.extend_from_slice(&can_message(i as u64, 0x200 + i, i % 2 == 0, &[i as u8; 7]));
    }
    let mut file = file_header();
    let (a, b) = objects.split_at(70);
    file.extend_from_slice(&container(a, true));
    file.extend_from_slice(&container(b, true));
    let whole: Vec<u32> = all_frames(&file).iter().map(|f| f.id).collect();

    for piece in [1usize, 3, 17, 64] {
        let mut reader = BlfReader::streaming(&file[..144]).unwrap();
        let mut at = 144;
        let mut ids = Vec::new();
        loop {
            match reader.next_frame().unwrap() {
                Some(frame) => ids.push(frame.id),
                None => {
                    if reader.at_end() {
                        break;
                    }
                    if at == file.len() {
                        reader.close();
                    } else {
                        let end = (at + piece).min(file.len());
                        reader.feed(&file[at..end]);
                        at = end;
                    }
                }
            }
        }
        assert_eq!(ids, whole);
        assert_eq!(reader.bytes_read(), file.len() as u64);
    }
}

#[test]
fn frames_before_an_error_are_kept() {
    let mut objects = can_message(1, 0x11, false, &[1]);
    let mut bad = can_message(2, 0x22, false, &[2]);
    bad[6..8].copy_from_slice(&9u16.to_le_bytes());
    objects.extend_from_slice(&bad);
    let mut file = file_header();
    file.extend_from_slice(&container(&objects, true));
    let mut reader = BlfReader::new(&file).unwrap();
    assert_eq!(reader.next_frame().err(), Some(BlfError::HeaderVersion(9)));
    assert_eq!(reader.next_frame().unwrap().unwrap().id, 0x11);
}

#[test]
fn container_boundaries_make_no_difference() {
    let mut objects = can_message(1, 0x11, false, &[1, 2, 3]);
    objects.extend_from_slice(&can_message(2, 0x22, true, &[4; 8]));
    objects.extend_from_slice(&can_message(3, 0x33, false, &[]));
    let mut one = file_header();
    one.extend_from_slice(&container(&objects, false));
    let expected = all_frames(&one);
    assert_eq!(expected.len(), 3);
    for cut in 0..=objects.len() {
        let mut two = file_header();
        two.extend_from_slice(&container(&objects[..cut], cut % 2 == 0));
        two.extend_from_slice(&container(&objects[cut..], cut % 3 == 0));
        let found = all_frames(&two);
        assert_eq!(found.len(), expected.len());
        for (a, b) in found.iter().zip(&expected) {
            assert_eq!(a.id, b.id);
            assert_eq!(a.timestamp_ns, b.timestamp_ns);
            assert_eq!(a.data(), b.data());
        }
    }
}

#[test]
fn nothing_is_lost_at_the_end_of_a_container() {
    // Half an object is kept, and the rest of the content brings nothing more.
    let obj = can_message(9, 0x99, false, &[7; 8]);
    let mut file = file_header();
    file.extend_from_slice(&container(&obj[..30], false));
    file.extend_from_slice(&container(&[], false));
    assert!(all_frames(&file).is_empty());
    file.extend_from_slice(&container(&obj[30..], false));
    assert_eq!(all_frames(&file).len(), 1);
}

#[test]
fn what_came_out_of_a_broken_stream_is_kept() {
    let mut objects = can_message(1, 0x11, false, &[1]);
    objects.extend_from_slice(&can_message(2, 0x22, false, &[2]));
    // The checksum at the end of the stream is missing.
    let mut stream = deflate(&objects);
    stream.truncate(stream.len() - 4);
    let broken = container_with(&stream, objects.len(), 2);
    let mut file = file_header();
    // Behind a bad object no padding is skipped, so there is none.
    file.extend_from_slice(&broken[..32 + stream.len()]);
    file.extend_from_slice(&container(&can_message(3, 0x33, false, &[3]), false));

    let mut reader = BlfReader::new(&file).unwrap();
    assert_eq!(reader.next_frame().err(), Some(BlfError::Inflate));
    let mut ids = Vec::new();
    while let Some(frame) = reader.next_frame().unwrap() {
        ids.push(frame.id);
    }
    assert_eq!(ids, vec![0x11, 0x22, 0x33]);
}

#[test]
fn a_waiting_reader_passes_over_junk() {
    let header = file_header();
    let mut reader = BlfReader::streaming(&header).unwrap();
    let start = header.len() as u64;
    for i in 1..=10u64 {
        reader.feed(&[b'L'; 1000]);
        assert!(reader.next_frame().unwrap().is_none());
        assert_eq!(reader.bytes_read(), start + 1000 * i - 3);
    }
    // The last byte of the junk may start a signature.
    let object = container(&can_message(3, 0x33, false, &[3]), false);
    reader.feed(&object[1..20]);
    assert!(reader.next_frame().unwrap().is_none());
    assert_eq!(reader.bytes_read(), start + 10_000 - 1);
    reader.feed(&object[20..]);
    assert_eq!(reader.next_frame().unwrap().unwrap().id, 0x33);
    reader.close();
    assert!(reader.next_frame().unwrap().is_none());
    assert!(reader.at_end());
}
