//! Codec for a pointer-table based binary animation ("motion") format,
//! together with a semantic layer that turns the flat keyframe stream into
//! named per-bone animation channels driven by externally supplied schemas.
//!
//! Floating-point sample values are carried as their little-endian `u32` bit
//! patterns: the codec never interprets them, it only moves them, and keeping
//! the raw bits makes the byte-level round trip exact.

use vstd::prelude::*;

pub mod util;
pub mod read;
pub mod write;
pub mod qualify;
pub mod laws;

verus! {

/// One keyframe of a track. `I` is the interpolation payload: `()` for
/// tracks without tangents, `u32` (an `f32` bit pattern) for tracks that
/// carry one tangent per key.
#[derive(Clone, Copy, PartialEq, Eq, Debug)]
pub struct Keyframe<I> {
    /// Frame index of this control point.
    pub frame: u16,
    /// Sample value, as the bit pattern of a little-endian `f32`.
    pub value: u32,
    /// Interpolation payload.
    pub interpolation: I,
}

/// The data of one track, the four on-disk track kinds.
#[derive(Clone, PartialEq, Debug)]
pub enum FrameData {
    /// No data; occupies no bytes.
    Empty,
    /// A single constant value (`f32` bit pattern).
    Pose(u32),
    /// Sparse control points without tangents.
    CatmulRom(Vec<Keyframe<()>>),
    /// Sparse control points, each with an explicit tangent.
    Hermite(Vec<Keyframe<u32>>),
}

/// One motion in its flat on-disk shape: the ordered track list, the ordered
/// bone-id list, and the total frame count.
#[derive(Clone, PartialEq, Debug)]
pub struct RawMotion {
    pub sets: Vec<FrameData>,
    pub bones: Vec<u16>,
    pub frames: u16,
}

/// A bone name. Names are kept as their UTF-8 bytes; the map of a [`Motion`]
/// is ordered by this byte sequence, which is exactly how Rust orders the
/// underlying strings.
#[derive(Clone, PartialEq, Eq, Debug)]
pub struct Bone(pub Vec<u8>);

/// Three tracks forming one x/y/z group.
#[derive(Clone, PartialEq, Debug)]
pub struct Vec3 {
    pub x: FrameData,
    pub y: FrameData,
    pub z: FrameData,
}

/// The animation of one bone; the shape is chosen solely by the bone's
/// externally supplied kind, never inferred from the data.
#[derive(Clone, PartialEq, Debug)]
pub enum BoneAnim {
    Rotation(Vec3),
    Unk(Vec3, Vec3),
    Position(Vec3),
    PositionRotation { position: Vec3, rotation: Vec3 },
    RotationIk { target: Vec3, rotation: Vec3 },
    ArmIk { target: Vec3, rotation: Vec3 },
    LegIk { position: Vec3, target: Vec3 },
}

/// A motion with its tracks grouped per named bone. `anims` is an
/// association list ordered strictly by bone name (byte order), the
/// well-formedness invariant established by qualification. A `None` entry
/// records a bone referenced by the file but missing from the bone schema.
#[derive(Clone, PartialEq, Debug)]
pub struct Motion {
    pub frames: u16,
    pub anims: Vec<(Bone, Option<BoneAnim>)>,
}

/// Mathematical model of [`FrameData`].
#[verifier::ext_equal]
pub enum FrameDataView {
    Empty,
    Pose(u32),
    CatmulRom(Seq<Keyframe<()>>),
    Hermite(Seq<Keyframe<u32>>),
}

/// Mathematical model of [`RawMotion`].
#[verifier::ext_equal]
pub struct RawMotionView {
    pub sets: Seq<FrameDataView>,
    pub bones: Seq<u16>,
    pub frames: u16,
}

/// Mathematical model of [`Vec3`].
#[verifier::ext_equal]
pub struct Vec3View {
    pub x: FrameDataView,
    pub y: FrameDataView,
    pub z: FrameDataView,
}

/// Mathematical model of [`BoneAnim`].
#[verifier::ext_equal]
pub enum BoneAnimView {
    Rotation(Vec3View),
    Unk(Vec3View, Vec3View),
    Position(Vec3View),
    PositionRotation { position: Vec3View, rotation: Vec3View },
    RotationIk { target: Vec3View, rotation: Vec3View },
    ArmIk { target: Vec3View, rotation: Vec3View },
    LegIk { position: Vec3View, target: Vec3View },
}

/// Mathematical model of [`Motion`]: the anims as an association list of
/// (name bytes, animation), in name order.
#[verifier::ext_equal]
pub struct MotionView {
    pub frames: u16,
    pub anims: Seq<(Seq<u8>, Option<BoneAnimView>)>,
}

impl View for Bone {
    type V = Seq<u8>;

    open spec fn view(&self) -> Seq<u8> {
        self.0@
    }
}

impl View for Vec3 {
    type V = Vec3View;

    open spec fn view(&self) -> Vec3View {
        Vec3View { x: self.x@, y: self.y@, z: self.z@ }
    }
}

impl View for BoneAnim {
    type V = BoneAnimView;

    open spec fn view(&self) -> BoneAnimView {
        match self {
            BoneAnim::Rotation(v) => BoneAnimView::Rotation(v@),
            BoneAnim::Unk(u, v) => BoneAnimView::Unk(u@, v@),
            BoneAnim::Position(v) => BoneAnimView::Position(v@),
            BoneAnim::PositionRotation { position, rotation } => BoneAnimView::PositionRotation {
                position: position@,
                rotation: rotation@,
            },
            BoneAnim::RotationIk { target, rotation } => BoneAnimView::RotationIk {
                target: target@,
                rotation: rotation@,
            },
            BoneAnim::ArmIk { target, rotation } => BoneAnimView::ArmIk {
                target: target@,
                rotation: rotation@,
            },
            BoneAnim::LegIk { position, target } => BoneAnimView::LegIk {
                position: position@,
                target: target@,
            },
        }
    }
}

/// The view of an optional animation.
pub open spec fn opt_anim_view(a: Option<BoneAnim>) -> Option<BoneAnimView> {
    match a {
        Some(x) => Some(x@),
        None => None,
    }
}

/// The view of one entry of a motion's animation list.
pub open spec fn anim_entry_view(e: (Bone, Option<BoneAnim>)) -> (Seq<u8>, Option<BoneAnimView>) {
    (e.0@, opt_anim_view(e.1))
}

/// The view of a motion's animation list.
pub open spec fn anims_view(v: Seq<(Bone, Option<BoneAnim>)>) -> Seq<(Seq<u8>, Option<BoneAnimView>)> {
    v.map_values(|e: (Bone, Option<BoneAnim>)| anim_entry_view(e))
}

impl View for Motion {
    type V = MotionView;

    open spec fn view(&self) -> MotionView {
        MotionView { frames: self.frames, anims: anims_view(self.anims@) }
    }
}

impl View for FrameData {
    type V = FrameDataView;

    open spec fn view(&self) -> FrameDataView {
        match self {
            FrameData::Empty => FrameDataView::Empty,
            FrameData::Pose(v) => FrameDataView::Pose(*v),
            FrameData::CatmulRom(ks) => FrameDataView::CatmulRom(ks@),
            FrameData::Hermite(ks) => FrameDataView::Hermite(ks@),
        }
    }
}

impl View for RawMotion {
    type V = RawMotionView;

    open spec fn view(&self) -> RawMotionView {
        RawMotionView {
            sets: self.sets@.map_values(|d: FrameData| d@),
            bones: self.bones@,
            frames: self.frames,
        }
    }
}

} // verus!
