//! The write direction of the motion codec: lay a list of [`RawMotion`]
//! records back out in the pointer-table format. The serialized image is
//! defined byte for byte by spec functions, and the executable writer is
//! proved to produce exactly that image. Track-internal alignment padding is
//! computed from the absolute stream position, as the format demands.

use vstd::prelude::*;

use crate::util::{u16_le_bytes, u32_le_bytes};
use crate::read::{tag_bits, SetType};
use crate::{FrameData, FrameDataView, Keyframe, RawMotion, RawMotionView};

verus! {

/// `n` zero bytes.
pub open spec fn zeros(n: int) -> Seq<u8> {
    Seq::new(n as nat, |i: int| 0u8)
}

/// The type tag a track is written with.
pub open spec fn view_tag(d: FrameDataView) -> SetType {
    match d {
        FrameDataView::Empty => SetType::Empty,
        FrameDataView::Pose(_) => SetType::Pose,
        FrameDataView::CatmulRom(_) => SetType::CatmullRom,
        FrameDataView::Hermite(_) => SetType::Hermite,
    }
}

/// The 2-bit value of the tag at index `i`, or 0 past the end of the list.
pub open spec fn tag_bits_at(tys: Seq<SetType>, i: int) -> u8 {
    if 0 <= i < tys.len() {
        tag_bits(tys[i])
    } else {
        0
    }
}

/// Four 2-bit values packed into one byte, least significant pair first.
pub open spec fn spec_tag_byte4(t0: u8, t1: u8, t2: u8, t3: u8) -> u8 {
    (t0 | (t1 << 2) | (t2 << 4) | (t3 << 6)) as u8
}

/// Byte `c` of the packed tag array for the tag list `tys`.
pub open spec fn spec_tag_byte(tys: Seq<SetType>, c: int) -> u8 {
    spec_tag_byte4(
        tag_bits_at(tys, 4 * c),
        tag_bits_at(tys, 4 * c + 1),
        tag_bits_at(tys, 4 * c + 2),
        tag_bits_at(tys, 4 * c + 3),
    )
}

/// The packed tag array for the tag list `tys`: `ceil(len / 4)` bytes.
pub open spec fn spec_tag_bytes_of_types(tys: Seq<SetType>) -> Seq<u8> {
    Seq::new(((tys.len() + 3) / 4) as nat, |c: int| spec_tag_byte(tys, c))
}

/// The tag list of a track list.
pub open spec fn tags_of_sets(sets: Seq<FrameDataView>) -> Seq<SetType> {
    sets.map_values(|d: FrameDataView| view_tag(d))
}

/// The packed tag array written for a track list.
pub open spec fn spec_tag_bytes(sets: Seq<FrameDataView>) -> Seq<u8> {
    spec_tag_bytes_of_types(tags_of_sets(sets))
}

/// The little-endian bytes of a `u16` list, in order.
pub open spec fn spec_u16s_bytes(vs: Seq<u16>) -> Seq<u8>
    decreases vs.len(),
{
    if vs.len() == 0 {
        Seq::empty()
    } else {
        u16_le_bytes(vs[0]) + spec_u16s_bytes(vs.skip(1))
    }
}

/// The frame-index bytes of a keyframe list: one `u16` per key, in order.
pub open spec fn spec_frame_index_bytes<I>(ks: Seq<Keyframe<I>>) -> Seq<u8>
    decreases ks.len(),
{
    if ks.len() == 0 {
        Seq::empty()
    } else {
        u16_le_bytes(ks[0].frame) + spec_frame_index_bytes(ks.skip(1))
    }
}

/// The value bytes of a keyframe list without tangents: one `f32` bit
/// pattern per key, in order.
pub open spec fn spec_catmul_value_bytes(ks: Seq<Keyframe<()>>) -> Seq<u8>
    decreases ks.len(),
{
    if ks.len() == 0 {
        Seq::empty()
    } else {
        u32_le_bytes(ks[0].value) + spec_catmul_value_bytes(ks.skip(1))
    }
}

/// The value bytes of a keyframe list with tangents: value then tangent,
/// per key, in order.
pub open spec fn spec_hermite_value_bytes(ks: Seq<Keyframe<u32>>) -> Seq<u8>
    decreases ks.len(),
{
    if ks.len() == 0 {
        Seq::empty()
    } else {
        u32_le_bytes(ks[0].value) + u32_le_bytes(ks[0].interpolation) + spec_hermite_value_bytes(
            ks.skip(1),
        )
    }
}

/// The bytes of one track written at absolute stream position `pos`: for
/// keyframe tracks a count, the frame indices, `pos mod 4` zero bytes of
/// alignment at the position after the indices, then the values.
pub open spec fn spec_track_bytes(d: FrameDataView, pos: int) -> Seq<u8> {
    match d {
        FrameDataView::Empty => Seq::empty(),
        FrameDataView::Pose(v) => u32_le_bytes(v),
        FrameDataView::CatmulRom(ks) => {
            let head = u16_le_bytes(ks.len() as u16) + spec_frame_index_bytes(ks);
            head + zeros((pos + head.len()) % 4) + spec_catmul_value_bytes(ks)
        },
        FrameDataView::Hermite(ks) => {
            let head = u16_le_bytes(ks.len() as u16) + spec_frame_index_bytes(ks);
            head + zeros((pos + head.len()) % 4) + spec_hermite_value_bytes(ks)
        },
    }
}

/// The bytes of a track list written contiguously from absolute position
/// `pos`.
pub open spec fn spec_tracks_bytes(sets: Seq<FrameDataView>, pos: int) -> Seq<u8>
    decreases sets.len(),
{
    if sets.len() == 0 {
        Seq::empty()
    } else {
        let t = spec_track_bytes(sets[0], pos);
        t + spec_tracks_bytes(sets.skip(1), pos + t.len())
    }
}

/// The bone-id bytes: every id, then one terminating zero id.
pub open spec fn spec_bones_bytes(bones: Seq<u16>) -> Seq<u8> {
    spec_u16s_bytes(bones) + u16_le_bytes(0)
}

/// The alignment padding written between a motion's tag array and its first
/// track: the position after the tag array, modulo 4.
pub open spec fn spec_tag_pad(m: RawMotionView, start: int) -> int {
    (start + 4 + spec_tag_bytes(m.sets).len()) % 4
}

/// The absolute position of a motion's first track (its `sets` offset).
pub open spec fn spec_sets_off(m: RawMotionView, start: int) -> int {
    start + 4 + spec_tag_bytes(m.sets).len() + spec_tag_pad(m, start)
}

/// The absolute position of a motion's bone-id list (its `bones` offset).
pub open spec fn spec_bones_off(m: RawMotionView, start: int) -> int {
    spec_sets_off(m, start) + spec_tracks_bytes(m.sets, spec_sets_off(m, start)).len()
}

/// The body of one motion written at absolute position `start`: the info
/// word (track count, frame count), the packed tag array with its alignment
/// padding, the tracks, and the terminated bone-id list.
pub open spec fn spec_body_bytes(m: RawMotionView, start: int) -> Seq<u8> {
    u16_le_bytes(m.sets.len() as u16) + u16_le_bytes(m.frames) + spec_tag_bytes(m.sets) + zeros(
        spec_tag_pad(m, start),
    ) + spec_tracks_bytes(m.sets, spec_sets_off(m, start)) + spec_bones_bytes(m.bones)
}

/// The bodies of a motion list written contiguously from position `start`.
pub open spec fn spec_bodies_bytes(mots: Seq<RawMotionView>, start: int) -> Seq<u8>
    decreases mots.len(),
{
    if mots.len() == 0 {
        Seq::empty()
    } else {
        let b = spec_body_bytes(mots[0], start);
        b + spec_bodies_bytes(mots.skip(1), start + b.len())
    }
}

/// The size of the header region: one 16-byte record per motion plus the
/// all-zero terminator record.
pub open spec fn spec_header_size(n: int) -> int {
    16 * (n + 1)
}

/// The absolute position at which the body of motion `k` begins.
pub open spec fn spec_body_start(mots: Seq<RawMotionView>, k: int) -> int {
    spec_header_size(mots.len() as int) + spec_bodies_bytes(
        mots.take(k),
        spec_header_size(mots.len() as int),
    ).len()
}

/// The header record of one motion: its info offset (= body start), tag
/// array offset, tracks offset, and bone-list offset.
pub open spec fn spec_header_row(m: RawMotionView, start: int) -> Seq<u8> {
    u32_le_bytes(start as u32) + u32_le_bytes((start + 4) as u32) + u32_le_bytes(
        spec_sets_off(m, start) as u32,
    ) + u32_le_bytes(spec_bones_off(m, start) as u32)
}

/// The header records of motions `k` and onward.
pub open spec fn spec_header_rows(mots: Seq<RawMotionView>, k: int) -> Seq<u8>
    decreases mots.len() - k,
{
    if k < 0 || k >= mots.len() {
        Seq::empty()
    } else {
        spec_header_row(mots[k], spec_body_start(mots, k)) + spec_header_rows(mots, k + 1)
    }
}

/// The whole serialized file: the header records, the all-zero terminator
/// record, then every motion's body.
pub open spec fn spec_write_all(mots: Seq<RawMotionView>) -> Seq<u8> {
    spec_header_rows(mots, 0) + zeros(16) + spec_bodies_bytes(
        mots,
        spec_header_size(mots.len() as int),
    )
}

/// A track the format can represent: the keyframe count of a keyframe track
/// fits the on-disk `u16` count field.
pub open spec fn wf_track(d: FrameDataView) -> bool {
    match d {
        FrameDataView::Empty => true,
        FrameDataView::Pose(_) => true,
        FrameDataView::CatmulRom(ks) => ks.len() < 0x10000,
        FrameDataView::Hermite(ks) => ks.len() < 0x10000,
    }
}

/// A motion the format can represent: the track count fits the 14-bit count
/// field and every track is representable.
pub open spec fn wf_motion(m: RawMotionView) -> bool {
    &&& m.sets.len() < 0x4000
    &&& forall|k: int| 0 <= k < m.sets.len() ==> wf_track(#[trigger] m.sets[k])
}

/// A motion list the format can represent.
pub open spec fn wf_motions(mots: Seq<RawMotionView>) -> bool {
    forall|k: int| 0 <= k < mots.len() ==> wf_motion(#[trigger] mots[k])
}

/// Length of the serialized `u16` list.
pub proof fn lemma_u16s_bytes_len(vs: Seq<u16>)
    ensures
        spec_u16s_bytes(vs).len() == 2 * vs.len(),
    decreases vs.len(),
{
    if vs.len() > 0 {
        lemma_u16s_bytes_len(vs.skip(1));
    }
}

/// Length of the serialized frame-index list.
pub proof fn lemma_frame_index_bytes_len<I>(ks: Seq<Keyframe<I>>)
    ensures
        spec_frame_index_bytes(ks).len() == 2 * ks.len(),
    decreases ks.len(),
{
    if ks.len() > 0 {
        lemma_frame_index_bytes_len(ks.skip(1));
    }
}

/// Length of the serialized value list of a track without tangents.
pub proof fn lemma_catmul_value_bytes_len(ks: Seq<Keyframe<()>>)
    ensures
        spec_catmul_value_bytes(ks).len() == 4 * ks.len(),
    decreases ks.len(),
{
    if ks.len() > 0 {
        lemma_catmul_value_bytes_len(ks.skip(1));
    }
}

/// Length of the serialized value list of a track with tangents.
pub proof fn lemma_hermite_value_bytes_len(ks: Seq<Keyframe<u32>>)
    ensures
        spec_hermite_value_bytes(ks).len() == 8 * ks.len(),
    decreases ks.len(),
{
    if ks.len() > 0 {
        lemma_hermite_value_bytes_len(ks.skip(1));
    }
}

/// Appending one value extends the serialized `u16` list by its two bytes.
pub proof fn lemma_u16s_bytes_snoc(vs: Seq<u16>, k: int)
    requires
        0 < k <= vs.len(),
    ensures
        spec_u16s_bytes(vs.take(k)) == spec_u16s_bytes(vs.take(k - 1)) + u16_le_bytes(vs[k - 1]),
    decreases k,
{
    if k == 1 {
        let a = vs.take(1);
        assert(a.skip(1) =~= Seq::<u16>::empty());
        assert(vs.take(0) =~= Seq::<u16>::empty());
        assert(spec_u16s_bytes(a) =~= spec_u16s_bytes(vs.take(0)) + u16_le_bytes(vs[0]));
    } else {
        let a = vs.take(k);
        let b = vs.take(k - 1);
        assert(a.skip(1) =~= vs.skip(1).take(k - 1));
        assert(b.skip(1) =~= vs.skip(1).take(k - 2));
        lemma_u16s_bytes_snoc(vs.skip(1), k - 1);
        assert(vs.skip(1)[k - 2] == vs[k - 1]);
        assert(u16_le_bytes(vs[0]) + (spec_u16s_bytes(vs.skip(1).take(k - 2)) + u16_le_bytes(
            vs[k - 1],
        )) =~= (u16_le_bytes(vs[0]) + spec_u16s_bytes(vs.skip(1).take(k - 2))) + u16_le_bytes(
            vs[k - 1],
        ));
    }
}

/// Appending one key extends the serialized frame-index list by two bytes.
pub proof fn lemma_frame_index_bytes_snoc<I>(ks: Seq<Keyframe<I>>, k: int)
    requires
        0 < k <= ks.len(),
    ensures
        spec_frame_index_bytes(ks.take(k)) == spec_frame_index_bytes(ks.take(k - 1)) + u16_le_bytes(
            ks[k - 1].frame,
        ),
    decreases k,
{
    if k == 1 {
        let a = ks.take(1);
        assert(a.skip(1) =~= Seq::<Keyframe<I>>::empty());
        assert(ks.take(0) =~= Seq::<Keyframe<I>>::empty());
        assert(spec_frame_index_bytes(a) =~= spec_frame_index_bytes(ks.take(0)) + u16_le_bytes(
            ks[0].frame,
        ));
    } else {
        let a = ks.take(k);
        let b = ks.take(k - 1);
        assert(a.skip(1) =~= ks.skip(1).take(k - 1));
        assert(b.skip(1) =~= ks.skip(1).take(k - 2));
        lemma_frame_index_bytes_snoc(ks.skip(1), k - 1);
        assert(ks.skip(1)[k - 2] == ks[k - 1]);
        assert(u16_le_bytes(ks[0].frame) + (spec_frame_index_bytes(ks.skip(1).take(k - 2))
            + u16_le_bytes(ks[k - 1].frame)) =~= (u16_le_bytes(ks[0].frame)
            + spec_frame_index_bytes(ks.skip(1).take(k - 2))) + u16_le_bytes(ks[k - 1].frame));
    }
}

/// Appending one key extends the serialized value list by four bytes.
pub proof fn lemma_catmul_value_bytes_snoc(ks: Seq<Keyframe<()>>, k: int)
    requires
        0 < k <= ks.len(),
    ensures
        spec_catmul_value_bytes(ks.take(k)) == spec_catmul_value_bytes(ks.take(k - 1))
            + u32_le_bytes(ks[k - 1].value),
    decreases k,
{
    if k == 1 {
        let a = ks.take(1);
        assert(a.skip(1) =~= Seq::<Keyframe<()>>::empty());
        assert(ks.take(0) =~= Seq::<Keyframe<()>>::empty());
        assert(spec_catmul_value_bytes(a) =~= spec_catmul_value_bytes(ks.take(0)) + u32_le_bytes(
            ks[0].value,
        ));
    } else {
        let a = ks.take(k);
        let b = ks.take(k - 1);
        assert(a.skip(1) =~= ks.skip(1).take(k - 1));
        assert(b.skip(1) =~= ks.skip(1).take(k - 2));
        lemma_catmul_value_bytes_snoc(ks.skip(1), k - 1);
        assert(ks.skip(1)[k - 2] == ks[k - 1]);
        assert(u32_le_bytes(ks[0].value) + (spec_catmul_value_bytes(ks.skip(1).take(k - 2))
            + u32_le_bytes(ks[k - 1].value)) =~= (u32_le_bytes(ks[0].value)
            + spec_catmul_value_bytes(ks.skip(1).take(k - 2))) + u32_le_bytes(ks[k - 1].value));
    }
}

/// Appending one key extends the serialized value list by eight bytes.
pub proof fn lemma_hermite_value_bytes_snoc(ks: Seq<Keyframe<u32>>, k: int)
    requires
        0 < k <= ks.len(),
    ensures
        spec_hermite_value_bytes(ks.take(k)) == spec_hermite_value_bytes(ks.take(k - 1))
            + u32_le_bytes(ks[k - 1].value) + u32_le_bytes(ks[k - 1].interpolation),
    decreases k,
{
    if k == 1 {
        let a = ks.take(1);
        assert(a.skip(1) =~= Seq::<Keyframe<u32>>::empty());
        assert(ks.take(0) =~= Seq::<Keyframe<u32>>::empty());
        assert(spec_hermite_value_bytes(a) =~= spec_hermite_value_bytes(ks.take(0)) + u32_le_bytes(
            ks[0].value,
        ) + u32_le_bytes(ks[0].interpolation));
    } else {
        let a = ks.take(k);
        let b = ks.take(k - 1);
        assert(a.skip(1) =~= ks.skip(1).take(k - 1));
        assert(b.skip(1) =~= ks.skip(1).take(k - 2));
        lemma_hermite_value_bytes_snoc(ks.skip(1), k - 1);
        assert(ks.skip(1)[k - 2] == ks[k - 1]);
        let h = u32_le_bytes(ks[0].value) + u32_le_bytes(ks[0].interpolation);
        assert(h + (spec_hermite_value_bytes(ks.skip(1).take(k - 2)) + u32_le_bytes(
            ks[k - 1].value,
        ) + u32_le_bytes(ks[k - 1].interpolation)) =~= (h + spec_hermite_value_bytes(
            ks.skip(1).take(k - 2),
        )) + u32_le_bytes(ks[k - 1].value) + u32_le_bytes(ks[k - 1].interpolation));
    }
}

/// Appending one track extends the serialized track list at the position
/// after the tracks already written.
pub proof fn lemma_tracks_bytes_snoc(sets: Seq<FrameDataView>, k: int, pos: int)
    requires
        0 < k <= sets.len(),
    ensures
        spec_tracks_bytes(sets.take(k), pos) == spec_tracks_bytes(sets.take(k - 1), pos)
            + spec_track_bytes(
            sets[k - 1],
            pos + spec_tracks_bytes(sets.take(k - 1), pos).len(),
        ),
    decreases k,
{
    if k == 1 {
        let a = sets.take(1);
        assert(a[0] == sets[0]);
        assert(a.skip(1) =~= Seq::<FrameDataView>::empty());
        assert(sets.take(0) =~= Seq::<FrameDataView>::empty());
        assert(spec_tracks_bytes(a, pos) == spec_track_bytes(a[0], pos) + spec_tracks_bytes(
            a.skip(1),
            pos + spec_track_bytes(a[0], pos).len(),
        ));
        assert(spec_tracks_bytes(a, pos) =~= spec_tracks_bytes(sets.take(0), pos)
            + spec_track_bytes(sets[0], pos));
    } else {
        let a = sets.take(k);
        let b = sets.take(k - 1);
        let t = spec_track_bytes(sets[0], pos);
        assert(a.skip(1) =~= sets.skip(1).take(k - 1));
        assert(b.skip(1) =~= sets.skip(1).take(k - 2));
        lemma_tracks_bytes_snoc(sets.skip(1), k - 1, pos + t.len());
        assert(sets.skip(1)[k - 2] == sets[k - 1]);
        assert(t + (spec_tracks_bytes(sets.skip(1).take(k - 2), pos + t.len()) + spec_track_bytes(
            sets[k - 1],
            pos + t.len() + spec_tracks_bytes(sets.skip(1).take(k - 2), pos + t.len()).len(),
        )) =~= (t + spec_tracks_bytes(sets.skip(1).take(k - 2), pos + t.len())) + spec_track_bytes(
            sets[k - 1],
            pos + t.len() + spec_tracks_bytes(sets.skip(1).take(k - 2), pos + t.len()).len(),
        ));
    }
}

/// Appending one motion extends the serialized body list at the position
/// after the bodies already written.
#[verifier::rlimit(60)]
pub proof fn lemma_bodies_bytes_snoc(mots: Seq<RawMotionView>, k: int, start: int)
    requires
        0 < k <= mots.len(),
    ensures
        spec_bodies_bytes(mots.take(k), start) == spec_bodies_bytes(mots.take(k - 1), start)
            + spec_body_bytes(
            mots[k - 1],
            start + spec_bodies_bytes(mots.take(k - 1), start).len(),
        ),
    decreases k,
{
    if k == 1 {
        let a = mots.take(1);
        assert(a[0] == mots[0]);
        assert(a.skip(1) =~= Seq::<RawMotionView>::empty());
        assert(mots.take(0) =~= Seq::<RawMotionView>::empty());
        assert(spec_bodies_bytes(a, start) == spec_body_bytes(a[0], start) + spec_bodies_bytes(
            a.skip(1),
            start + spec_body_bytes(a[0], start).len(),
        ));
        assert(spec_bodies_bytes(a, start) =~= spec_bodies_bytes(mots.take(0), start)
            + spec_body_bytes(mots[0], start));
    } else {
        let a = mots.take(k);
        let b = mots.take(k - 1);
        let t = spec_body_bytes(mots[0], start);
        assert(a.skip(1) =~= mots.skip(1).take(k - 1));
        assert(b.skip(1) =~= mots.skip(1).take(k - 2));
        lemma_bodies_bytes_snoc(mots.skip(1), k - 1, start + t.len());
        assert(mots.skip(1)[k - 2] == mots[k - 1]);
        assert(t + (spec_bodies_bytes(mots.skip(1).take(k - 2), start + t.len())
            + spec_body_bytes(
            mots[k - 1],
            start + t.len() + spec_bodies_bytes(mots.skip(1).take(k - 2), start + t.len()).len(),
        )) =~= (t + spec_bodies_bytes(mots.skip(1).take(k - 2), start + t.len()))
            + spec_body_bytes(
            mots[k - 1],
            start + t.len() + spec_bodies_bytes(mots.skip(1).take(k - 2), start + t.len()).len(),
        ));
    }
}

/// The header records of motions `k` and onward occupy 16 bytes each.
pub proof fn lemma_header_rows_len(mots: Seq<RawMotionView>, k: int)
    requires
        0 <= k <= mots.len(),
    ensures
        spec_header_rows(mots, k).len() == 16 * (mots.len() - k),
    decreases mots.len() - k,
{
    if k < mots.len() {
        lemma_header_rows_len(mots, k + 1);
    }
}

/// A serialized track list splits at any track boundary.
pub proof fn lemma_tracks_bytes_split(sets: Seq<FrameDataView>, k: int, pos: int)
    requires
        0 <= k <= sets.len(),
    ensures
        spec_tracks_bytes(sets, pos) == spec_tracks_bytes(sets.take(k), pos) + spec_tracks_bytes(
            sets.skip(k),
            pos + spec_tracks_bytes(sets.take(k), pos).len(),
        ),
    decreases k,
{
    if k == 0 {
        assert(sets.take(0) =~= Seq::<FrameDataView>::empty());
        assert(sets.skip(0) =~= sets);
        assert(Seq::<u8>::empty() + spec_tracks_bytes(sets, pos) =~= spec_tracks_bytes(sets, pos));
    } else {
        lemma_tracks_bytes_split(sets, k - 1, pos);
        lemma_tracks_bytes_snoc(sets, k, pos);
        let a = spec_tracks_bytes(sets.take(k - 1), pos);
        let t = spec_track_bytes(sets[k - 1], pos + a.len());
        // the suffix after k - 1 tracks starts with track k - 1
        assert(sets.skip(k - 1).len() > 0);
        assert(sets.skip(k - 1)[0] == sets[k - 1]);
        assert(sets.skip(k - 1).skip(1) =~= sets.skip(k));
        assert(spec_tracks_bytes(sets.skip(k - 1), pos + a.len()) == t + spec_tracks_bytes(
            sets.skip(k),
            pos + a.len() + t.len(),
        ));
        assert(a + (t + spec_tracks_bytes(sets.skip(k), pos + a.len() + t.len())) =~= (a + t)
            + spec_tracks_bytes(sets.skip(k), pos + a.len() + t.len()));
    }
}

/// A serialized body list splits at any motion boundary.
#[verifier::rlimit(60)]
pub proof fn lemma_bodies_bytes_split(mots: Seq<RawMotionView>, k: int, start: int)
    requires
        0 <= k <= mots.len(),
    ensures
        spec_bodies_bytes(mots, start) == spec_bodies_bytes(mots.take(k), start)
            + spec_bodies_bytes(
            mots.skip(k),
            start + spec_bodies_bytes(mots.take(k), start).len(),
        ),
    decreases k,
{
    if k == 0 {
        assert(mots.take(0) =~= Seq::<RawMotionView>::empty());
        assert(mots.skip(0) =~= mots);
        assert(Seq::<u8>::empty() + spec_bodies_bytes(mots, start) =~= spec_bodies_bytes(
            mots,
            start,
        ));
    } else {
        lemma_bodies_bytes_split(mots, k - 1, start);
        lemma_bodies_bytes_snoc(mots, k, start);
        let a = spec_bodies_bytes(mots.take(k - 1), start);
        let t = spec_body_bytes(mots[k - 1], start + a.len());
        assert(mots.skip(k - 1).len() > 0);
        assert(mots.skip(k - 1)[0] == mots[k - 1]);
        assert(mots.skip(k - 1).skip(1) =~= mots.skip(k));
        assert(spec_bodies_bytes(mots.skip(k - 1), start + a.len()) == t + spec_bodies_bytes(
            mots.skip(k),
            start + a.len() + t.len(),
        ));
        assert(a + (t + spec_bodies_bytes(mots.skip(k), start + a.len() + t.len())) =~= (a + t)
            + spec_bodies_bytes(mots.skip(k), start + a.len() + t.len()));
    }
}

/// Append the two little-endian bytes of a `u16`.
pub fn push_u16(out: &mut Vec<u8>, v: u16)
    ensures
        final(out)@ == old(out)@ + u16_le_bytes(v),
{
    out.push((v & 0xFF) as u8);
    out.push(((v >> 8) & 0xFF) as u8);
    proof {
        assert(out@ =~= old(out)@ + u16_le_bytes(v));
    }
}

/// Append the four little-endian bytes of a `u32`.
pub fn push_u32(out: &mut Vec<u8>, v: u32)
    ensures
        final(out)@ == old(out)@ + u32_le_bytes(v),
{
    out.push((v & 0xFF) as u8);
    out.push(((v >> 8) & 0xFF) as u8);
    out.push(((v >> 16) & 0xFF) as u8);
    out.push(((v >> 24) & 0xFF) as u8);
    proof {
        assert(out@ =~= old(out)@ + u32_le_bytes(v));
    }
}

/// Append `n` zero bytes.
#[verifier::loop_isolation(false)]
pub fn push_zeros(out: &mut Vec<u8>, n: usize)
    ensures
        final(out)@ == old(out)@ + zeros(n as int),
{
    let mut j: usize = 0;
    while j < n
        invariant
            j <= n,
            out@ == old(out)@ + zeros(j as int),
        decreases n - j,
    {
        out.push(0);
        proof {
            assert(old(out)@ + zeros(j as int) + seq![0u8] =~= old(out)@ + zeros(j + 1));
        }
        j = j + 1;
    }
}

/// The 2-bit on-disk value of one tag.
pub fn tag_to_bits(t: SetType) -> (r: u8)
    ensures
        r == tag_bits(t),
{
    match t {
        SetType::Empty => 0,
        SetType::Pose => 1,
        SetType::CatmullRom => 2,
        SetType::Hermite => 3,
    }
}

impl SetType {
    /// The tag a track is written with.
    pub fn from_data(d: &FrameData) -> (r: SetType)
        ensures
            r == view_tag(d@),
    {
        match d {
            FrameData::Empty => SetType::Empty,
            FrameData::Pose(_) => SetType::Pose,
            FrameData::CatmulRom(_) => SetType::CatmullRom,
            FrameData::Hermite(_) => SetType::Hermite,
        }
    }

    /// Pack the first four tags of `ty` (padding a shorter list with the
    /// empty tag) into one byte, least significant pair first.
    pub fn as_byte(ty: &[SetType]) -> (r: u8)
        ensures
            r == spec_tag_byte(ty@, 0),
    {
        let b0 = if ty.len() > 0 {
            tag_to_bits(ty[0])
        } else {
            0
        };
        let b1 = if ty.len() > 1 {
            tag_to_bits(ty[1])
        } else {
            0
        };
        let b2 = if ty.len() > 2 {
            tag_to_bits(ty[2])
        } else {
            0
        };
        let b3 = if ty.len() > 3 {
            tag_to_bits(ty[3])
        } else {
            0
        };
        proof {
            assert(b1 < 4 && b2 < 4 && b3 < 4);
            assert((b1 << 2) < 256 && (b2 << 4) < 256 && (b3 << 6) < 256) by (bit_vector)
                requires
                    b1 < 4 && b2 < 4 && b3 < 4,
            ;
        }
        b0 | (b1 << 2) | (b2 << 4) | (b3 << 6)
    }

    /// Pack a whole tag list, four tags per byte.
    #[verifier::loop_isolation(false)]
    pub fn as_bytes(tys: &[SetType]) -> (r: Vec<u8>)
        requires
            tys@.len() < 0x10000,
        ensures
            r@ == spec_tag_bytes_of_types(tys@),
    {
        let n_bytes = (tys.len() + 3) / 4;
        let mut res: Vec<u8> = Vec::new();
        let mut c: usize = 0;
        while c < n_bytes
            invariant
                c <= n_bytes,
                res@.len() == c,
                forall|t: int| 0 <= t < c ==> res@[t] == spec_tag_byte(tys@, t),
            decreases n_bytes - c,
        {
            let lo = 4 * c;
            let hi = if lo + 4 <= tys.len() {
                lo + 4
            } else {
                tys.len()
            };
            let chunk = &tys[lo..hi];
            let b = SetType::as_byte(chunk);
            proof {
                assert(chunk@ =~= tys@.subrange(4 * c as int, hi as int));
                assert(forall|i: int|
                    0 <= i < 4 ==> tag_bits_at(chunk@, i) == tag_bits_at(tys@, 4 * c + i));
                assert(b == spec_tag_byte(tys@, c as int));
            }
            res.push(b);
            c = c + 1;
        }
        proof {
            assert(res@ =~= spec_tag_bytes_of_types(tys@));
        }
        res
    }
}

impl FrameData {
    /// Append one track's bytes; the track begins at absolute stream
    /// position `base + out.len()`, from which its alignment padding is
    /// computed.
    #[verifier::loop_isolation(false)]
    pub fn write(&self, out: &mut Vec<u8>, base: usize)
        requires
            wf_track(self@),
            base + old(out)@.len() + spec_track_bytes(
                self@,
                base + old(out)@.len(),
            ).len() <= 0xFFFF_FFFF,
        ensures
            final(out)@ == old(out)@ + spec_track_bytes(self@, base + old(out)@.len() as int),
    {
        let ghost pos0: int = base + old(out)@.len();
        match self {
            FrameData::Empty => {
                proof {
                    assert(out@ =~= old(out)@ + spec_track_bytes(self@, pos0));
                }
            },
            FrameData::Pose(v) => {
                push_u32(out, *v);
            },
            FrameData::CatmulRom(ks) => {
                proof {
                    lemma_frame_index_bytes_len(ks@);
                    lemma_catmul_value_bytes_len(ks@);
                }
                let cnt_u16 = ks.len() as u16;
                push_u16(out, cnt_u16);
                let mut j: usize = 0;
                while j < ks.len()
                    invariant
                        j <= ks@.len(),
                        out@ == old(out)@ + u16_le_bytes(cnt_u16) + spec_frame_index_bytes(
                            ks@.take(j as int),
                        ),
                    decreases ks@.len() - j,
                {
                    push_u16(out, ks[j].frame);
                    proof {
                        lemma_frame_index_bytes_snoc(ks@, j + 1);
                        lemma_frame_index_bytes_len(ks@.take(j as int));
                        assert(old(out)@ + u16_le_bytes(cnt_u16) + spec_frame_index_bytes(
                            ks@.take(j as int),
                        ) + u16_le_bytes(ks@[j as int].frame) =~= old(out)@ + u16_le_bytes(cnt_u16)
                            + spec_frame_index_bytes(ks@.take(j + 1)));
                    }
                    j = j + 1;
                }
                proof {
                    assert(ks@.take(ks@.len() as int) =~= ks@);
                }
                let pos = base + out.len();
                let pad = pos % 4;
                push_zeros(out, pad);
                let mut t: usize = 0;
                let ghost mid = out@;
                while t < ks.len()
                    invariant
                        t <= ks@.len(),
                        out@ == mid + spec_catmul_value_bytes(ks@.take(t as int)),
                    decreases ks@.len() - t,
                {
                    push_u32(out, ks[t].value);
                    proof {
                        lemma_catmul_value_bytes_snoc(ks@, t + 1);
                        assert(mid + spec_catmul_value_bytes(ks@.take(t as int)) + u32_le_bytes(
                            ks@[t as int].value,
                        ) =~= mid + spec_catmul_value_bytes(ks@.take(t + 1)));
                    }
                    t = t + 1;
                }
                proof {
                    assert(ks@.take(ks@.len() as int) =~= ks@);
                    let head = u16_le_bytes(cnt_u16) + spec_frame_index_bytes(ks@);
                    assert(old(out)@ + u16_le_bytes(cnt_u16) + spec_frame_index_bytes(ks@) =~= old(
                        out,
                    )@ + head);
                    assert(out@ =~= old(out)@ + (head + zeros((pos0 + head.len()) % 4)
                        + spec_catmul_value_bytes(ks@)));
                }
            },
            FrameData::Hermite(ks) => {
                proof {
                    lemma_frame_index_bytes_len(ks@);
                    lemma_hermite_value_bytes_len(ks@);
                }
                let cnt_u16 = ks.len() as u16;
                push_u16(out, cnt_u16);
                let mut j: usize = 0;
                while j < ks.len()
                    invariant
                        j <= ks@.len(),
                        out@ == old(out)@ + u16_le_bytes(cnt_u16) + spec_frame_index_bytes(
                            ks@.take(j as int),
                        ),
                    decreases ks@.len() - j,
                {
                    push_u16(out, ks[j].frame);
                    proof {
                        lemma_frame_index_bytes_snoc(ks@, j + 1);
                        lemma_frame_index_bytes_len(ks@.take(j as int));
                        assert(old(out)@ + u16_le_bytes(cnt_u16) + spec_frame_index_bytes(
                            ks@.take(j as int),
                        ) + u16_le_bytes(ks@[j as int].frame) =~= old(out)@ + u16_le_bytes(cnt_u16)
                            + spec_frame_index_bytes(ks@.take(j + 1)));
                    }
                    j = j + 1;
                }
                proof {
                    assert(ks@.take(ks@.len() as int) =~= ks@);
                }
                let pos = base + out.len();
                let pad = pos % 4;
                push_zeros(out, pad);
                let mut t: usize = 0;
                let ghost mid = out@;
                while t < ks.len()
                    invariant
                        t <= ks@.len(),
                        out@ == mid + spec_hermite_value_bytes(ks@.take(t as int)),
                    decreases ks@.len() - t,
                {
                    let kf = ks[t];
                    push_u32(out, kf.value);
                    push_u32(out, kf.interpolation);
                    proof {
                        lemma_hermite_value_bytes_snoc(ks@, t + 1);
                        assert(mid + spec_hermite_value_bytes(ks@.take(t as int)) + u32_le_bytes(
                            ks@[t as int].value,
                        ) + u32_le_bytes(ks@[t as int].interpolation) =~= mid
                            + spec_hermite_value_bytes(ks@.take(t + 1)));
                    }
                    t = t + 1;
                }
                proof {
                    assert(ks@.take(ks@.len() as int) =~= ks@);
                    let head = u16_le_bytes(cnt_u16) + spec_frame_index_bytes(ks@);
                    assert(old(out)@ + u16_le_bytes(cnt_u16) + spec_frame_index_bytes(ks@) =~= old(
                        out,
                    )@ + head);
                    assert(out@ =~= old(out)@ + (head + zeros((pos0 + head.len()) % 4)
                        + spec_hermite_value_bytes(ks@)));
                }
            },
        }
    }
}

impl RawMotion {
    /// Serialize this motion's body for absolute position `start`: the info
    /// word, the packed tag array with its alignment padding, the tracks,
    /// and the terminated bone-id list. Also returns the absolute `sets`
    /// and `bones` offsets for the motion's header record.
    #[verifier::loop_isolation(false)]
    pub fn write(&self, start: usize) -> (r: (Vec<u8>, usize, usize))
        requires
            wf_motion(self@),
            start + spec_body_bytes(self@, start as int).len() <= 0xFFFF_FFFF,
        ensures
            r.0@ == spec_body_bytes(self@, start as int),
            r.1 == spec_sets_off(self@, start as int),
            r.2 == spec_bones_off(self@, start as int),
    {
        let ghost m = self@;
        proof {
            lemma_u16s_bytes_len(m.bones);
        }
        let mut out: Vec<u8> = Vec::new();
        push_u16(&mut out, self.sets.len() as u16);
        push_u16(&mut out, self.frames);
        let mut tys: Vec<SetType> = Vec::new();
        let mut k: usize = 0;
        while k < self.sets.len()
            invariant
                k <= self.sets@.len(),
                tys@.len() == k,
                forall|t: int| 0 <= t < k ==> tys@[t] == view_tag(#[trigger] self.sets@[t]@),
            decreases self.sets@.len() - k,
        {
            let ty = SetType::from_data(&self.sets[k]);
            tys.push(ty);
            k = k + 1;
        }
        proof {
            assert(tys@ =~= tags_of_sets(m.sets));
        }
        let mut tb = SetType::as_bytes(tys.as_slice());
        out.append(&mut tb);
        proof {
            assert(out@ =~= u16_le_bytes((m.sets.len() as u16)) + u16_le_bytes(m.frames)
                + spec_tag_bytes(m.sets));
        }
        let pad = (start + out.len()) % 4;
        push_zeros(&mut out, pad);
        let set_off = start + out.len();
        proof {
            assert(pad == spec_tag_pad(m, start as int));
            assert(set_off == spec_sets_off(m, start as int));
        }
        let ghost pre = out@;
        let mut j: usize = 0;
        proof {
            assert(m.sets.take(0) =~= Seq::<FrameDataView>::empty());
            assert(pre + Seq::<u8>::empty() =~= pre);
        }
        while j < self.sets.len()
            invariant
                j <= self.sets@.len(),
                out@ == pre + spec_tracks_bytes(m.sets.take(j as int), set_off as int),
            decreases self.sets@.len() - j,
        {
            proof {
                lemma_tracks_bytes_snoc(m.sets, j + 1, set_off as int);
                lemma_tracks_bytes_split(m.sets, j + 1, set_off as int);
                assert(m.sets[j as int] == self.sets@[j as int]@);
            }
            let d = &self.sets[j];
            d.write(&mut out, start);
            proof {
                assert(out@ =~= pre + spec_tracks_bytes(m.sets.take(j + 1), set_off as int));
            }
            j = j + 1;
        }
        proof {
            assert(m.sets.take(m.sets.len() as int) =~= m.sets);
        }
        let bone_off = start + out.len();
        proof {
            assert(bone_off == spec_bones_off(m, start as int));
        }
        let ghost pre2 = out@;
        let mut t: usize = 0;
        proof {
            assert(m.bones.take(0) =~= Seq::<u16>::empty());
            assert(pre2 + Seq::<u8>::empty() =~= pre2);
        }
        while t < self.bones.len()
            invariant
                t <= self.bones@.len(),
                out@ == pre2 + spec_u16s_bytes(m.bones.take(t as int)),
            decreases self.bones@.len() - t,
        {
            proof {
                lemma_u16s_bytes_len(m.bones.take(t as int));
            }
            push_u16(&mut out, self.bones[t]);
            proof {
                lemma_u16s_bytes_snoc(m.bones, t + 1);
                assert(pre2 + spec_u16s_bytes(m.bones.take(t as int)) + u16_le_bytes(
                    m.bones[t as int],
                ) =~= pre2 + spec_u16s_bytes(m.bones.take(t + 1)));
            }
            t = t + 1;
        }
        push_u16(&mut out, 0);
        proof {
            assert(m.bones.take(m.bones.len() as int) =~= m.bones);
            assert(out@ =~= spec_body_bytes(m, start as int));
        }
        (out, set_off, bone_off)
    }

    /// Serialize a list of motions as one motion file: the header table
    /// (one record per motion, then the all-zero terminator record)
    /// followed by every motion's body.
    #[verifier::loop_isolation(false)]
    #[verifier::rlimit(60)]
    pub fn write_all(mots: &[RawMotion]) -> (out: Vec<u8>)
        requires
            wf_motions(mots@.map_values(|m: RawMotion| m@)),
            spec_write_all(mots@.map_values(|m: RawMotion| m@)).len() <= 0xFFFF_FFFF,
        ensures
            out@ == spec_write_all(mots@.map_values(|m: RawMotion| m@)),
    {
        let ghost views = mots@.map_values(|m: RawMotion| m@);
        let n = mots.len();
        let ghost hsize: int = spec_header_size(n as int);
        proof {
            lemma_header_rows_len(views, 0);
            assert(spec_write_all(views).len() == 16 * n + 16 + spec_bodies_bytes(
                views,
                hsize,
            ).len());
        }
        let header_size = 16 * (n + 1);
        let mut bodies: Vec<u8> = Vec::new();
        let mut offs: Vec<(usize, usize, usize)> = Vec::new();
        let mut k: usize = 0;
        proof {
            assert(views.take(0) =~= Seq::<RawMotionView>::empty());
        }
        while k < n
            invariant
                k <= n,
                bodies@ == spec_bodies_bytes(views.take(k as int), hsize),
                offs@.len() == k,
                forall|t: int|
                    0 <= t < k ==> (#[trigger] offs@[t]).0 == spec_body_start(views, t)
                        && offs@[t].1 == spec_sets_off(views[t], spec_body_start(views, t))
                        && offs@[t].2 == spec_bones_off(views[t], spec_body_start(views, t))
                        && offs@[t].0 + 4 <= 0xFFFF_FFFF && offs@[t].1 <= 0xFFFF_FFFF
                        && offs@[t].2 <= 0xFFFF_FFFF,
            decreases n - k,
        {
            proof {
                lemma_bodies_bytes_split(views, k as int, hsize);
            }
            let start = header_size + bodies.len();
            proof {
                lemma_bodies_bytes_snoc(views, k + 1, hsize);
                lemma_bodies_bytes_split(views, k + 1, hsize);
                assert(views[k as int] == mots@[k as int]@);
                lemma_u16s_bytes_len(views[k as int].bones);
            }
            let (mut body, so, bo) = (&mots[k]).write(start);
            proof {
                // the bone list sits at the end of the body, so both offsets
                // lie inside it
                assert(bo + spec_bones_bytes(views[k as int].bones).len() == start
                    + spec_body_bytes(views[k as int], start as int).len());
                assert(so <= bo);
            }
            bodies.append(&mut body);
            offs.push((start, so, bo));
            proof {
                assert(bodies@ =~= spec_bodies_bytes(views.take(k + 1), hsize));
            }
            k = k + 1;
        }
        proof {
            assert(views.take(n as int) =~= views);
        }
        let mut out: Vec<u8> = Vec::new();
        let mut r: usize = 0;
        proof {
            assert(Seq::<u8>::empty() + spec_header_rows(views, 0) =~= spec_header_rows(views, 0));
        }
        while r < n
            invariant
                r <= n,
                spec_header_rows(views, 0) == out@ + spec_header_rows(views, r as int),
            decreases n - r,
        {
            let ghost out0 = out@;
            let (start, so, bo) = offs[r];
            push_u32(&mut out, start as u32);
            push_u32(&mut out, (start + 4) as u32);
            push_u32(&mut out, so as u32);
            push_u32(&mut out, bo as u32);
            proof {
                let srow = spec_header_row(views[r as int], spec_body_start(views, r as int));
                assert(out@ =~= out0 + srow);
                assert(spec_header_rows(views, r as int) == srow + spec_header_rows(views, r + 1));
                assert(out0 + (srow + spec_header_rows(views, r + 1)) =~= (out0 + srow)
                    + spec_header_rows(views, r + 1));
            }
            r = r + 1;
        }
        push_zeros(&mut out, 16);
        out.append(&mut bodies);
        proof {
            assert(out@ =~= spec_write_all(views));
        }
        out
    }
}

} // verus!
