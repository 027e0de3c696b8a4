//! Tests of the semantic layer: qualification against the two schemas, the
//! name fallbacks, the error cases, and qualify/unqualify stability.

use mot::qualify::{BoneKind, BoneSchema, MotionQualifyError, MotionSetSchema, SchemaBone, Skeleton,
    UnqualifyMotionError};
use mot::{Bone, BoneAnim, FrameData, Motion, RawMotion};

fn pose(v: f32) -> FrameData {
    FrameData::Pose(v.to_bits())
}

fn small_mot_db() -> MotionSetSchema {
    MotionSetSchema {
        bones: vec![b"alpha".to_vec(), b"beta".to_vec(), b"gamma".to_vec()],
    }
}

fn small_bone_db() -> BoneSchema {
    BoneSchema {
        skeletons: vec![Skeleton {
            bones: vec![
                SchemaBone { name: b"alpha".to_vec(), kind: BoneKind::Rotation },
                SchemaBone { name: b"beta".to_vec(), kind: BoneKind::PositionRotation },
            ],
        }],
    }
}

#[test]
fn qualify_basic() {
    let raw = RawMotion {
        sets: (0..9).map(|i| pose(i as f32)).collect(),
        bones: vec![0, 1],
        frames: 5,
    };
    let m = Motion::from_raw(raw, &small_mot_db(), &small_bone_db()).unwrap();
    assert_eq!(m.frames, 5);
    assert_eq!(m.anims.len(), 2);
    assert_eq!(m.anims[0].0, Bone(b"alpha".to_vec()));
    assert_eq!(m.anims[1].0, Bone(b"beta".to_vec()));
    match &m.anims[0].1 {
        Some(BoneAnim::Rotation(v)) => {
            assert_eq!(v.x, pose(0.0));
            assert_eq!(v.y, pose(1.0));
            assert_eq!(v.z, pose(2.0));
        },
        other => panic!("expected a rotation, got {:?}", other),
    }
    match &m.anims[1].1 {
        Some(BoneAnim::PositionRotation { position, rotation }) => {
            assert_eq!(position.x, pose(3.0));
            assert_eq!(rotation.z, pose(8.0));
        },
        other => panic!("expected position+rotation, got {:?}", other),
    }
}

#[test]
fn qualify_unresolved_bone_becomes_none() {
    let raw = RawMotion {
        sets: (0..3).map(|i| pose(i as f32)).collect(),
        bones: vec![2, 0],
        frames: 1,
    };
    let m = Motion::from_raw(raw, &small_mot_db(), &small_bone_db()).unwrap();
    assert_eq!(m.anims.len(), 2);
    // "gamma" is not in the skeleton: a None entry that consumed nothing
    assert_eq!(m.anims[1].0, Bone(b"gamma".to_vec()));
    assert!(m.anims[1].1.is_none());
    // "alpha" got the three tracks
    match &m.anims[0].1 {
        Some(BoneAnim::Rotation(v)) => assert_eq!(v.x, pose(0.0)),
        other => panic!("expected a rotation, got {:?}", other),
    }
}

#[test]
fn qualify_gblctr_fallback() {
    let mdb = MotionSetSchema { bones: vec![b"gblctr".to_vec()] };
    let raw = RawMotion {
        sets: (0..3).map(|i| pose(i as f32)).collect(),
        bones: vec![0],
        frames: 1,
    };
    let m = Motion::from_raw(raw, &mdb, &small_bone_db()).unwrap();
    match &m.anims[0].1 {
        Some(BoneAnim::Position(_)) => {},
        other => panic!("expected a position, got {:?}", other),
    }
}

#[test]
fn qualify_kg_ya_ex_fallback() {
    let mdb = MotionSetSchema { bones: vec![b"kg_ya_ex".to_vec()] };
    let raw = RawMotion {
        sets: (0..3).map(|i| pose(i as f32)).collect(),
        bones: vec![0],
        frames: 1,
    };
    let m = Motion::from_raw(raw, &mdb, &small_bone_db()).unwrap();
    match &m.anims[0].1 {
        Some(BoneAnim::Rotation(_)) => {},
        other => panic!("expected a rotation, got {:?}", other),
    }
}

#[test]
fn qualify_no_skeleton_fails() {
    let raw = RawMotion { sets: vec![], bones: vec![], frames: 0 };
    let empty = BoneSchema { skeletons: vec![] };
    let err = Motion::from_raw(raw, &small_mot_db(), &empty).unwrap_err();
    assert_eq!(err, MotionQualifyError::NoSkeleton);
}

#[test]
fn qualify_pop_set_fails() {
    // "beta" needs six tracks but only four remain
    let raw = RawMotion {
        sets: (0..4).map(|i| pose(i as f32)).collect(),
        bones: vec![1],
        frames: 0,
    };
    let err = Motion::from_raw(raw, &small_mot_db(), &small_bone_db()).unwrap_err();
    assert_eq!(err, MotionQualifyError::PopSet);
}

#[test]
fn qualify_unknown_id_fails() {
    let raw = RawMotion { sets: vec![], bones: vec![77], frames: 0 };
    let err = Motion::from_raw(raw, &small_mot_db(), &small_bone_db()).unwrap_err();
    assert_eq!(err, MotionQualifyError::NotInMotDb(77));
}

#[test]
fn unqualify_unknown_name_fails() {
    let m = Motion {
        frames: 0,
        anims: vec![(
            Bone(b"nobody".to_vec()),
            Some(BoneAnim::Rotation(mot::Vec3 {
                x: FrameData::Empty,
                y: FrameData::Empty,
                z: FrameData::Empty,
            })),
        )],
    };
    let err = m.to_raw(&small_mot_db()).unwrap_err();
    assert_eq!(err, UnqualifyMotionError::NotInDatabase(b"nobody".to_vec()));
}

#[test]
fn unqualify_skips_none_entries() {
    let m = Motion {
        frames: 3,
        anims: vec![(Bone(b"gamma".to_vec()), None)],
    };
    let raw = m.to_raw(&small_mot_db()).unwrap();
    assert!(raw.sets.is_empty());
    assert!(raw.bones.is_empty());
    assert_eq!(raw.frames, 3);
}

#[test]
fn roundtrip() {
    // ids in strictly increasing name order, tracks dividing exactly:
    // unqualifying the qualified motion reproduces the track list
    let raw = RawMotion {
        sets: (0..9).map(|i| pose(i as f32)).collect(),
        bones: vec![0, 1],
        frames: 44,
    };
    let mot_db = small_mot_db();
    let bone_db = small_bone_db();
    let m = Motion::from_raw(raw.clone(), &mot_db, &bone_db).unwrap();

    let unq = m.clone().to_raw(&mot_db).unwrap();
    assert_eq!(raw.sets, unq.sets);
    assert_eq!(raw.bones, unq.bones);
    assert_eq!(raw.frames, unq.frames);

    let m2 = Motion::from_raw(unq.clone(), &mot_db, &bone_db).unwrap();
    let last = m2.to_raw(&mot_db).unwrap();
    assert_eq!(raw.sets, last.sets);
}

fn big_name(i: usize) -> Vec<u8> {
    format!("bone{:03}", i).into_bytes()
}

fn big_schemas() -> (MotionSetSchema, BoneSchema) {
    // ids 5 and 6 share one name; id 10 resolves to a name the skeleton lacks
    let mut names: Vec<Vec<u8>> = (0..193).map(big_name).collect();
    names[6] = big_name(5);
    names[10] = b"zzz_unknown".to_vec();
    let skeleton_bones = names
        .iter()
        .filter(|n| n.as_slice() != b"zzz_unknown")
        .map(|n| SchemaBone { name: n.clone(), kind: BoneKind::Rotation })
        .collect();
    (
        MotionSetSchema { bones: names },
        BoneSchema { skeletons: vec![Skeleton { bones: skeleton_bones }] },
    )
}

fn big_raw_motion() -> RawMotion {
    RawMotion {
        sets: (0..583).map(|i| pose(i as f32)).collect(),
        bones: (0..193).collect(),
        frames: 9301,
    }
}

#[test]
fn test_raw_motion() {
    // an end-to-end fixture built with the writer: 583 tracks, 193 bone
    // ids, 9301 frames
    let bytes = RawMotion::write_all(&[big_raw_motion()]);
    let mots = RawMotion::read(&bytes).unwrap();
    assert_eq!(mots[0].sets.len(), 583);
    assert_eq!(mots[0].bones.len(), 193);
    assert_eq!(mots[0].frames, 9301);
}

#[test]
fn raw_motions() {
    let bytes = RawMotion::write_all(&[big_raw_motion()]);
    let mots = RawMotion::read(&bytes).unwrap();
    assert_eq!(mots.len(), 1);
}

#[test]
fn qualify_motion() {
    // two ids share one name and one id resolves to no skeleton bone, so
    // 193 referenced bones qualify to 192 named entries
    let bytes = RawMotion::write_all(&[big_raw_motion()]);
    let mots = RawMotion::read(&bytes).unwrap();
    let (mot_db, bone_db) = big_schemas();
    let qual = Motion::from_raw(mots.into_iter().next().unwrap(), &mot_db, &bone_db).unwrap();

    assert_eq!(qual.anims.len(), 192);
    let nones = qual.anims.iter().filter(|(_, a)| a.is_none()).count();
    assert_eq!(nones, 1);
}
