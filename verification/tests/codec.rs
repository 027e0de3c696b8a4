//! Tests of the binary codec: primitive readers, tag packing, track
//! shapes, the header-table terminator, and the write/read round trip.

use mot::read::SetType;
use mot::read::SetType::{CatmullRom, Empty, Hermite, Pose};
use mot::read::{HeaderOffsets, RawMotionError};
use mot::util::{count, le_u16, le_u32, many_till_nth, pair, read_at};
use mot::{FrameData, Keyframe, RawMotion};

fn kf(frame: u16, value: f32) -> Keyframe<()> {
    Keyframe { frame, value: value.to_bits(), interpolation: () }
}

fn hkf(frame: u16, value: f32, tangent: f32) -> Keyframe<u32> {
    Keyframe { frame, value: value.to_bits(), interpolation: tangent.to_bits() }
}

#[test]
fn parse_set_type() {
    let i = &[0b11_10_01_00u8, 0b11_00_01_11][..];
    let val = SetType::parse(i[0]);
    let val1 = SetType::parse(i[1]);
    assert_eq!(
        [val, val1],
        [
            [Empty, Pose, CatmullRom, Hermite],
            [Hermite, Pose, Empty, Hermite]
        ]
    )
}

#[test]
fn tag_packing_round_trip() {
    // packing the tags unpacked from a byte gives the byte back
    for b in 0..=255u8 {
        let tags = SetType::parse(b);
        assert_eq!(SetType::as_byte(&tags), b);
    }
}

#[test]
fn le_primitives() {
    let buf = [0x34u8, 0x12, 0x78, 0x56, 0xFF];
    let (rest, v) = le_u16(&buf).unwrap();
    assert_eq!(v, 0x1234);
    assert_eq!(rest.len(), 3);
    let buf32 = [0x78u8, 0x56, 0x34, 0x12];
    let (_, v32) = le_u32(&buf32).unwrap();
    assert_eq!(v32, 0x12345678);
    assert!(le_u16(&[1u8]).is_err());
    assert!(le_u32(&[1u8, 2, 3]).is_err());
}

#[test]
fn pair_and_count() {
    let buf = [1u8, 0, 2, 0, 3, 0];
    let (_, (a, b)) = pair(&buf).unwrap();
    assert_eq!((a, b), (1, 2));
    let (rest, vs) = count(&buf, 3).unwrap();
    assert_eq!(vs, vec![1, 2, 3]);
    assert!(rest.is_empty());
    assert!(count(&buf, 4).is_err());
}

#[test]
fn read_at_bounds() {
    let buf = [9u8, 8, 7];
    assert_eq!(read_at(&buf, 1).unwrap(), &[8, 7][..]);
    assert_eq!(read_at(&buf, 3).unwrap(), &[][..]);
    assert!(read_at(&buf, 4).is_err());
}

#[test]
fn sentinel_first_zero_kept() {
    // a bone-id stream [5, 0, 0] decodes to [5, 0]
    let bytes = [5u8, 0, 0, 0, 0, 0];
    let (_, ids) = many_till_nth(&bytes, 0, 1).unwrap();
    assert_eq!(ids, vec![5, 0]);
}

#[test]
fn sentinel_lone_zero() {
    // a bone-id stream [0, 0] decodes to [0]
    let bytes = [0u8, 0, 0, 0];
    let (_, ids) = many_till_nth(&bytes, 0, 1).unwrap();
    assert_eq!(ids, vec![0]);
}

#[test]
fn pose_track_consumes_four_bytes() {
    // a Pose track consumes exactly 4 bytes regardless of what follows
    let bytes = [0u8, 0, 0x80, 0x3F, 0xAA, 0xBB];
    let (rest, d) = FrameData::parse(SetType::Pose, &bytes).unwrap();
    assert_eq!(rest, &[0xAA, 0xBB][..]);
    assert_eq!(d, FrameData::Pose(1.0f32.to_bits()));
}

#[test]
fn empty_keyframe_track() {
    // count = 0: two count bytes plus the alignment skip, empty key list
    let bytes = [0u8, 0, 0, 0];
    // remaining after the count is 2 bytes, so the skip is 2 % 4 = 2
    let (rest, d) = FrameData::parse(SetType::CatmullRom, &bytes).unwrap();
    assert!(rest.is_empty());
    assert_eq!(d, FrameData::CatmulRom(vec![]));
}

#[test]
fn header_terminator_yields_no_motions() {
    let table = [0u8; 16];
    let mots = RawMotion::read(&table).unwrap();
    assert_eq!(mots.len(), 0);
}

#[test]
fn truncated_header_table_fails() {
    let table = [1u8; 12];
    assert!(RawMotion::read(&table).is_err());
}

#[test]
fn same_output() {
    // writing a motion list and parsing the written bytes reproduces it
    let mot = RawMotion {
        sets: vec![
            FrameData::Pose(0.25f32.to_bits()),
            FrameData::CatmulRom(vec![kf(0, 1.0), kf(10, -2.5)]),
            FrameData::Empty,
        ],
        bones: vec![1, 0, 2],
        frames: 100,
    };
    let bytes = RawMotion::write_all(&[mot.clone()]);
    let back = RawMotion::read(&bytes).unwrap();
    assert_eq!(back, vec![mot]);
}

#[test]
fn round_trip_two_motions() {
    let a = RawMotion {
        sets: vec![FrameData::Hermite(vec![hkf(0, 1.0, 0.5), hkf(3, 2.0, -0.5)])],
        bones: vec![0, 7],
        frames: 60,
    };
    let b = RawMotion {
        sets: vec![FrameData::Empty, FrameData::Pose(3.5f32.to_bits())],
        bones: vec![3, 0],
        frames: 1,
    };
    let bytes = RawMotion::write_all(&[a.clone(), b.clone()]);
    let back = RawMotion::read(&bytes).unwrap();
    assert_eq!(back, vec![a, b]);
}

#[test]
fn round_trip_empty_list() {
    let bytes = RawMotion::write_all(&[]);
    assert_eq!(bytes, vec![0u8; 16]);
    let back = RawMotion::read(&bytes).unwrap();
    assert!(back.is_empty());
}

#[test]
fn parse_single_motion_by_header() {
    let mot = RawMotion {
        sets: vec![FrameData::Pose(9.0f32.to_bits())],
        bones: vec![0],
        frames: 7,
    };
    let bytes = RawMotion::write_all(&[mot.clone()]);
    let (_, header) = HeaderOffsets::parse(&bytes).unwrap();
    let (_, parsed) = RawMotion::parse(&bytes, header.unwrap()).unwrap();
    assert_eq!(parsed, mot);
}

#[test]
fn oob_sets_pointer_fails() {
    // a header whose sets offset lies beyond the file
    let mut bytes: Vec<u8> = Vec::new();
    // one record: info at 32, set_types at 36, sets far out of range, bones at 36
    for v in [32u32, 36, 10_000, 36] {
        bytes.extend_from_slice(&v.to_le_bytes());
    }
    bytes.extend_from_slice(&[0u8; 16]); // terminator
    bytes.extend_from_slice(&1u16.to_le_bytes()); // one track
    bytes.extend_from_slice(&0u16.to_le_bytes()); // frames
    bytes.push(1); // tag byte: Pose
    let err = RawMotion::read(&bytes);
    assert!(err.is_err());
}

#[test]
fn info_pointer_out_of_range_fails() {
    // a header whose info offset lies beyond the file
    let mut bytes: Vec<u8> = Vec::new();
    for v in [5000u32, 36, 36, 36] {
        bytes.extend_from_slice(&v.to_le_bytes());
    }
    bytes.extend_from_slice(&[0u8; 16]);
    match RawMotion::read(&bytes) {
        Err(RawMotionError::ReadAtError(_)) => {},
        other => panic!("expected a read-at failure, got {:?}", other),
    }
}

#[test]
fn short_tag_region_fails() {
    // the tag region is shorter than the track count demands
    let mut bytes: Vec<u8> = Vec::new();
    for v in [32u32, 36, 37, 37] {
        bytes.extend_from_slice(&v.to_le_bytes());
    }
    bytes.extend_from_slice(&[0u8; 16]);
    bytes.extend_from_slice(&9u16.to_le_bytes()); // nine tracks: three tag bytes
    bytes.extend_from_slice(&0u16.to_le_bytes());
    bytes.push(0); // only one tag byte present
    match RawMotion::read(&bytes) {
        Err(RawMotionError::SetTypeReadError(_)) => {},
        other => panic!("expected a tag-region failure, got {:?}", other),
    }
}

#[test]
fn truncated_track_fails() {
    // one Pose track announced, but no value bytes follow
    let mut bytes: Vec<u8> = Vec::new();
    for v in [32u32, 36, 37, 37] {
        bytes.extend_from_slice(&v.to_le_bytes());
    }
    bytes.extend_from_slice(&[0u8; 16]);
    bytes.extend_from_slice(&1u16.to_le_bytes());
    bytes.extend_from_slice(&0u16.to_le_bytes());
    bytes.push(1); // tag: Pose
    match RawMotion::read(&bytes) {
        Err(RawMotionError::FrameReadError(0, 37, _)) => {},
        other => panic!("expected a frame-read failure, got {:?}", other),
    }
}

#[test]
fn unterminated_bone_list_fails() {
    // a bone list with ids but no second zero runs off the buffer
    let mut bytes: Vec<u8> = Vec::new();
    for v in [32u32, 36, 36, 36] {
        bytes.extend_from_slice(&v.to_le_bytes());
    }
    bytes.extend_from_slice(&[0u8; 16]);
    bytes.extend_from_slice(&0u16.to_le_bytes()); // zero tracks
    bytes.extend_from_slice(&0u16.to_le_bytes());
    bytes.extend_from_slice(&7u16.to_le_bytes()); // one id, never terminated
    match RawMotion::read(&bytes) {
        Err(RawMotionError::ReadAtError(_)) => {},
        other => panic!("expected a bone-list failure, got {:?}", other),
    }
}
