//! The laws of the codec: decoding what the writer encodes gives the
//! original values back. The lemmas here build up from the primitive
//! little-endian readers through tracks, tag arrays, bone lists and header
//! records to the whole-file round trip.

use vstd::prelude::*;

use crate::util::{
    spec_le_u16, spec_le_u32, spec_pair_u16, spec_count_u16, spec_count_u32, spec_count_u32_pairs,
    spec_many_till_nth, u16_le_bytes, u32_le_bytes, u16_of, u32_of, lemma_u16_le_round_trip,
    lemma_u32_le_round_trip, OutOfRange,
};
use crate::read::{
    spec_tags, spec_tags_of_byte, tag_from_bits, tag_bits, SetType, spec_parse_track,
    spec_parse_tracks, spec_parse_keyframes, spec_parse_keyframes_hermite, lemma_spec_tags_len,
    spec_parse_motion, spec_parse_headers, spec_header_parse, spec_read, spec_read_motions,
    HeaderOffsets, RawMotionError,
};
use crate::write::{
    spec_u16s_bytes, spec_frame_index_bytes, spec_catmul_value_bytes, spec_hermite_value_bytes,
    spec_track_bytes, spec_tracks_bytes, spec_bones_bytes, spec_tag_bytes, spec_tag_bytes_of_types,
    spec_tag_byte, spec_tag_byte4, tag_bits_at, tags_of_sets, view_tag, zeros, wf_track, wf_motion,
    wf_motions, lemma_u16s_bytes_len, lemma_frame_index_bytes_len, lemma_catmul_value_bytes_len,
    lemma_hermite_value_bytes_len,
};
use crate::{FrameDataView, Keyframe};

verus! {

/// How often a value occurs in a list.
pub open spec fn count_val(vs: Seq<u16>, c: u16) -> nat
    decreases vs.len(),
{
    if vs.len() == 0 {
        0
    } else if vs[0] == c {
        count_val(vs.skip(1), c) + 1
    } else {
        count_val(vs.skip(1), c)
    }
}

/// Reading a `u16` from its own bytes gives the value and the rest back.
pub proof fn lemma_le_u16_of_bytes(v: u16, rest: Seq<u8>)
    ensures
        spec_le_u16(u16_le_bytes(v) + rest) == Ok::<(Seq<u8>, u16), OutOfRange>((rest, v)),
{
    let b = u16_le_bytes(v) + rest;
    lemma_u16_le_round_trip(v);
    assert(b[0] == u16_le_bytes(v)[0] && b[1] == u16_le_bytes(v)[1]);
    assert(b.skip(2) =~= rest);
}

/// Reading a `u32` from its own bytes gives the value and the rest back.
pub proof fn lemma_le_u32_of_bytes(v: u32, rest: Seq<u8>)
    ensures
        spec_le_u32(u32_le_bytes(v) + rest) == Ok::<(Seq<u8>, u32), OutOfRange>((rest, v)),
{
    let b = u32_le_bytes(v) + rest;
    lemma_u32_le_round_trip(v);
    assert(b[0] == u32_le_bytes(v)[0] && b[1] == u32_le_bytes(v)[1] && b[2] == u32_le_bytes(v)[2]
        && b[3] == u32_le_bytes(v)[3]);
    assert(b.skip(4) =~= rest);
}

/// Reading a pair of `u16` values from their own bytes gives them back.
pub proof fn lemma_pair_of_bytes(a: u16, b: u16, rest: Seq<u8>)
    ensures
        spec_pair_u16(u16_le_bytes(a) + u16_le_bytes(b) + rest) == Ok::<
            (Seq<u8>, (u16, u16)),
            OutOfRange,
        >((rest, (a, b))),
{
    assert(u16_le_bytes(a) + u16_le_bytes(b) + rest =~= u16_le_bytes(a) + (u16_le_bytes(b) + rest));
    lemma_le_u16_of_bytes(a, u16_le_bytes(b) + rest);
    lemma_le_u16_of_bytes(b, rest);
}

/// Reading back a serialized `u16` list gives the list and the rest.
pub proof fn lemma_count_u16_of_bytes(vs: Seq<u16>, rest: Seq<u8>)
    ensures
        spec_count_u16(spec_u16s_bytes(vs) + rest, vs.len()) == Ok::<
            (Seq<u8>, Seq<u16>),
            OutOfRange,
        >((rest, vs)),
    decreases vs.len(),
{
    if vs.len() == 0 {
        assert(spec_u16s_bytes(vs) + rest =~= rest);
        assert(vs =~= Seq::<u16>::empty());
    } else {
        let tail = vs.skip(1);
        assert(spec_u16s_bytes(vs) + rest =~= u16_le_bytes(vs[0]) + (spec_u16s_bytes(tail) + rest));
        lemma_le_u16_of_bytes(vs[0], spec_u16s_bytes(tail) + rest);
        lemma_count_u16_of_bytes(tail, rest);
        assert(seq![vs[0]] + tail =~= vs);
    }
}

/// Reading back the serialized frame indices of a keyframe list gives each
/// key's frame, in order.
pub proof fn lemma_count_frames_of_bytes<I>(ks: Seq<Keyframe<I>>, rest: Seq<u8>)
    ensures
        spec_count_u16(spec_frame_index_bytes(ks) + rest, ks.len()) == Ok::<
            (Seq<u8>, Seq<u16>),
            OutOfRange,
        >((rest, ks.map_values(|k: Keyframe<I>| k.frame))),
    decreases ks.len(),
{
    let frames = ks.map_values(|k: Keyframe<I>| k.frame);
    if ks.len() == 0 {
        assert(spec_frame_index_bytes(ks) + rest =~= rest);
        assert(frames =~= Seq::<u16>::empty());
    } else {
        let tail = ks.skip(1);
        assert(spec_frame_index_bytes(ks) + rest =~= u16_le_bytes(ks[0].frame)
            + (spec_frame_index_bytes(tail) + rest));
        lemma_le_u16_of_bytes(ks[0].frame, spec_frame_index_bytes(tail) + rest);
        lemma_count_frames_of_bytes(tail, rest);
        assert(seq![ks[0].frame] + tail.map_values(|k: Keyframe<I>| k.frame) =~= frames);
    }
}

/// Reading back the serialized values of a tangent-free keyframe list gives
/// each key's value, in order.
pub proof fn lemma_count_catmul_values_of_bytes(ks: Seq<Keyframe<()>>, rest: Seq<u8>)
    ensures
        spec_count_u32(spec_catmul_value_bytes(ks) + rest, ks.len()) == Ok::<
            (Seq<u8>, Seq<u32>),
            OutOfRange,
        >((rest, ks.map_values(|k: Keyframe<()>| k.value))),
    decreases ks.len(),
{
    let values = ks.map_values(|k: Keyframe<()>| k.value);
    if ks.len() == 0 {
        assert(spec_catmul_value_bytes(ks) + rest =~= rest);
        assert(values =~= Seq::<u32>::empty());
    } else {
        let tail = ks.skip(1);
        assert(spec_catmul_value_bytes(ks) + rest =~= u32_le_bytes(ks[0].value)
            + (spec_catmul_value_bytes(tail) + rest));
        lemma_le_u32_of_bytes(ks[0].value, spec_catmul_value_bytes(tail) + rest);
        lemma_count_catmul_values_of_bytes(tail, rest);
        assert(seq![ks[0].value] + tail.map_values(|k: Keyframe<()>| k.value) =~= values);
    }
}

/// Reading back the serialized values of a tangent-carrying keyframe list
/// gives each key's (value, tangent) pair, in order.
pub proof fn lemma_count_hermite_values_of_bytes(ks: Seq<Keyframe<u32>>, rest: Seq<u8>)
    ensures
        spec_count_u32_pairs(spec_hermite_value_bytes(ks) + rest, ks.len()) == Ok::<
            (Seq<u8>, Seq<(u32, u32)>),
            OutOfRange,
        >((rest, ks.map_values(|k: Keyframe<u32>| (k.value, k.interpolation)))),
    decreases ks.len(),
{
    let values = ks.map_values(|k: Keyframe<u32>| (k.value, k.interpolation));
    if ks.len() == 0 {
        assert(spec_hermite_value_bytes(ks) + rest =~= rest);
        assert(values =~= Seq::<(u32, u32)>::empty());
    } else {
        let tail = ks.skip(1);
        assert(spec_hermite_value_bytes(ks) + rest =~= u32_le_bytes(ks[0].value) + (u32_le_bytes(
            ks[0].interpolation,
        ) + (spec_hermite_value_bytes(tail) + rest)));
        lemma_le_u32_of_bytes(
            ks[0].value,
            u32_le_bytes(ks[0].interpolation) + (spec_hermite_value_bytes(tail) + rest),
        );
        lemma_le_u32_of_bytes(ks[0].interpolation, spec_hermite_value_bytes(tail) + rest);
        lemma_count_hermite_values_of_bytes(tail, rest);
        assert(seq![(ks[0].value, ks[0].interpolation)] + tail.map_values(
            |k: Keyframe<u32>| (k.value, k.interpolation),
        ) =~= values);
    }
}

/// The bone-id list comes back from its serialized bytes: the sentinel scan
/// that discards occurrence number `count_val(bones, 0)` of the id 0 stops
/// exactly at the terminating zero the writer appended.
pub proof fn lemma_bones_of_bytes(bones: Seq<u16>, rest: Seq<u8>)
    ensures
        spec_many_till_nth(spec_bones_bytes(bones) + rest, 0, count_val(bones, 0)) == Ok::<
            Seq<u16>,
            OutOfRange,
        >(bones),
    decreases bones.len(),
{
    if bones.len() == 0 {
        assert(spec_bones_bytes(bones) + rest =~= u16_le_bytes(0) + rest);
        lemma_le_u16_of_bytes(0, rest);
        assert(bones =~= Seq::<u16>::empty());
    } else {
        let h = bones[0];
        let tail = bones.skip(1);
        assert(spec_bones_bytes(bones) + rest =~= u16_le_bytes(h) + (spec_bones_bytes(tail)
            + rest));
        lemma_le_u16_of_bytes(h, spec_bones_bytes(tail) + rest);
        lemma_bones_of_bytes(tail, rest);
        if h == 0 {
            assert(count_val(bones, 0) == count_val(tail, 0) + 1);
        } else {
            assert(count_val(bones, 0) == count_val(tail, 0));
        }
        assert(seq![h] + tail =~= bones);
    }
}

/// Unpacking the byte that packs four tags gives the four tags back.
pub proof fn lemma_tag_byte_unpack_pack(t0: SetType, t1: SetType, t2: SetType, t3: SetType)
    ensures
        spec_tags_of_byte(spec_tag_byte4(tag_bits(t0), tag_bits(t1), tag_bits(t2), tag_bits(t3)))
            == seq![t0, t1, t2, t3],
{
    let x0 = tag_bits(t0);
    let x1 = tag_bits(t1);
    let x2 = tag_bits(t2);
    let x3 = tag_bits(t3);
    let b = spec_tag_byte4(x0, x1, x2, x3);
    assert(x0 < 4 && x1 < 4 && x2 < 4 && x3 < 4);
    assert((b & 3) == x0 && ((b >> 2) & 3) == x1 && ((b >> 4) & 3) == x2 && ((b >> 6) & 3) == x3)
        by (bit_vector)
        requires
            x0 < 4 && x1 < 4 && x2 < 4 && x3 < 4 && b == (x0 | (x1 << 2) | (x2 << 4) | (x3
                << 6)) as u8,
    ;
    assert(tag_from_bits(tag_bits(t0)) == t0);
    assert(tag_from_bits(tag_bits(t1)) == t1);
    assert(tag_from_bits(tag_bits(t2)) == t2);
    assert(tag_from_bits(tag_bits(t3)) == t3);
    assert(spec_tags_of_byte(b) =~= seq![t0, t1, t2, t3]);
}

/// Packing the four tags unpacked from a byte gives the byte back.
pub proof fn lemma_tag_byte_pack_unpack(b: u8)
    ensures
        spec_tag_byte4(
            tag_bits(spec_tags_of_byte(b)[0]),
            tag_bits(spec_tags_of_byte(b)[1]),
            tag_bits(spec_tags_of_byte(b)[2]),
            tag_bits(spec_tags_of_byte(b)[3]),
        ) == b,
{
    let x0 = b & 3;
    let x1 = (b >> 2) & 3;
    let x2 = (b >> 4) & 3;
    let x3 = (b >> 6) & 3;
    assert(x0 < 4 && x1 < 4 && x2 < 4 && x3 < 4 && (x0 | (x1 << 2) | (x2 << 4) | (x3 << 6)) as u8
        == b) by (bit_vector)
        requires
            x0 == b & 3 && x1 == (b >> 2) & 3 && x2 == (b >> 4) & 3 && x3 == (b >> 6) & 3,
    ;
    assert(tag_bits(tag_from_bits(x0)) == x0);
    assert(tag_bits(tag_from_bits(x1)) == x1);
    assert(tag_bits(tag_from_bits(x2)) == x2);
    assert(tag_bits(tag_from_bits(x3)) == x3);
}

/// A track that needs no alignment padding.
pub open spec fn plain_track(d: FrameDataView) -> bool {
    d is Empty || d is Pose
}

/// A motion list all of whose tracks need no alignment padding.
pub open spec fn plain_motions(mots: Seq<crate::RawMotionView>) -> bool {
    forall|k: int, j: int|
        0 <= k < mots.len() && 0 <= j < mots[k].sets.len() ==> plain_track(
            #[trigger] mots[k].sets[j],
        )
}

/// An even number stays even modulo 4.
proof fn lemma_even_mod4(s: int)
    requires
        s % 2 == 0,
    ensures
        s % 4 == 0 || s % 4 == 2,
        (s + s % 4) % 4 == 0,
{
    let q = s / 4;
    let r4 = s % 4;
    assert(s == 4 * q + r4 && 0 <= r4 < 4);
    if r4 == 1 {
        assert(s % 2 == (4 * q + 1) % 2);
        assert((4 * q + 1) % 2 == 1) by (nonlinear_arith);
    }
    if r4 == 3 {
        assert(s % 2 == (4 * q + 3) % 2);
        assert((4 * q + 3) % 2 == 1) by (nonlinear_arith);
    }
    if r4 == 0 {
        assert((s + 0) % 4 == 0);
    } else {
        assert(s + 2 == 4 * (q + 1));
        assert((4 * (q + 1)) % 4 == 0) by (nonlinear_arith);
    }
}

/// The bytes of one track are even in number, and exactly as many as the
/// track's shape dictates.
pub proof fn lemma_track_bytes_even(d: FrameDataView, pos: int)
    requires
        pos % 2 == 0,
        pos >= 0,
    ensures
        spec_track_bytes(d, pos).len() % 2 == 0,
        (pos + spec_track_bytes(d, pos).len()) % 2 == 0,
{
    match d {
        FrameDataView::Empty => {},
        FrameDataView::Pose(_) => {},
        FrameDataView::CatmulRom(ks) => {
            lemma_frame_index_bytes_len(ks);
            lemma_catmul_value_bytes_len(ks);
            lemma_even_mod4(pos + 2 + 2 * ks.len());
        },
        FrameDataView::Hermite(ks) => {
            lemma_frame_index_bytes_len(ks);
            lemma_hermite_value_bytes_len(ks);
            lemma_even_mod4(pos + 2 + 2 * ks.len());
        },
    }
}

/// Multiples of four vanish modulo four.
proof fn lemma_mod4_mul(c: int)
    ensures
        (4 * c) % 4 == 0,
{
    assert((4 * c) % 4 == 0) by (nonlinear_arith);
}

/// Sums of multiples of four are multiples of four.
proof fn lemma_mod4_add(a: int, b: int)
    requires
        a % 4 == 0,
        b % 4 == 0,
    ensures
        (a + b) % 4 == 0,
{
    assert((a + b) % 4 == 0) by (nonlinear_arith)
        requires
            a % 4 == 0 && b % 4 == 0,
    ;
}

/// Differences of multiples of four are multiples of four.
proof fn lemma_mod4_sub(a: int, b: int)
    requires
        a % 4 == 0,
        b % 4 == 0,
    ensures
        (a - b) % 4 == 0,
{
    assert((a - b) % 4 == 0) by (nonlinear_arith)
        requires
            a % 4 == 0 && b % 4 == 0,
    ;
}

/// Adding a remainder below four to a multiple of four leaves that
/// remainder.
proof fn lemma_mod4_small(a: int, pad: int)
    requires
        a % 4 == 0,
        0 <= pad < 4,
    ensures
        (a + pad) % 4 == pad,
{
    assert((a + pad) % 4 == pad) by (nonlinear_arith)
        requires
            a % 4 == 0 && 0 <= pad < 4,
    ;
}

/// Parsing a tangent-free keyframe track from its own bytes gives the track
/// and the rest back.
proof fn lemma_catmul_track_of_bytes(ks: Seq<Keyframe<()>>, pos: int, rest: Seq<u8>)
    requires
        ks.len() < 0x10000,
        pos >= 0,
        pos % 2 == 0,
        (pos + spec_track_bytes(FrameDataView::CatmulRom(ks), pos).len() + rest.len()) % 4 == 0,
    ensures
        spec_parse_track(
            spec_track_bytes(FrameDataView::CatmulRom(ks), pos) + rest,
            SetType::CatmullRom,
        ) == Ok::<(Seq<u8>, FrameDataView), OutOfRange>((rest, FrameDataView::CatmulRom(ks))),
{
    let d = FrameDataView::CatmulRom(ks);
    let tb = spec_track_bytes(d, pos);
    let b = tb + rest;
    let c = ks.len() as int;
    lemma_frame_index_bytes_len(ks);
    lemma_catmul_value_bytes_len(ks);
    let cnt16 = ks.len() as u16;
    let head = u16_le_bytes(cnt16) + spec_frame_index_bytes(ks);
    let pad = (pos + head.len()) % 4;
    let s = pos + 2 + 2 * c;
    lemma_even_mod4(s);
    assert(tb.len() == 2 + 2 * c + pad + 4 * c);
    let after_frames = zeros(pad) + (spec_catmul_value_bytes(ks) + rest);
    assert(b =~= u16_le_bytes(cnt16) + (spec_frame_index_bytes(ks) + after_frames));
    lemma_le_u16_of_bytes(cnt16, spec_frame_index_bytes(ks) + after_frames);
    lemma_count_frames_of_bytes(ks, after_frames);
    // the alignment skip equals the padding the writer inserted
    let r = rest.len() as int;
    assert((s + pad) % 4 == 0);
    lemma_mod4_mul(c);
    lemma_mod4_add(s + pad, 4 * c);
    assert((pos + tb.len() + r) % 4 == 0);
    assert(pos + tb.len() + r == (s + pad + 4 * c) + r);
    lemma_mod4_sub(pos + tb.len() + r, s + pad + 4 * c);
    assert(r % 4 == 0);
    lemma_mod4_add(4 * c, r);
    lemma_mod4_small(4 * c + r, pad);
    assert(after_frames.len() == pad + 4 * c + r);
    assert(after_frames.len() % 4 == pad);
    let b3 = after_frames.skip(after_frames.len() as int % 4);
    assert(b3 =~= spec_catmul_value_bytes(ks) + rest);
    lemma_count_catmul_values_of_bytes(ks, rest);
    let frames = ks.map_values(|k: Keyframe<()>| k.frame);
    let values = ks.map_values(|k: Keyframe<()>| k.value);
    let rebuilt = Seq::new(
        cnt16 as nat,
        |k: int| Keyframe { frame: frames[k], value: values[k], interpolation: () },
    );
    assert forall|k: int| 0 <= k < ks.len() implies rebuilt[k] == ks[k] by {
        assert(frames[k] == ks[k].frame);
        assert(values[k] == ks[k].value);
        assert(ks[k].interpolation == ());
    }
    assert(rebuilt =~= ks);
}

/// Parsing a tangent-carrying keyframe track from its own bytes gives the
/// track and the rest back.
proof fn lemma_hermite_track_of_bytes(ks: Seq<Keyframe<u32>>, pos: int, rest: Seq<u8>)
    requires
        ks.len() < 0x10000,
        pos >= 0,
        pos % 2 == 0,
        (pos + spec_track_bytes(FrameDataView::Hermite(ks), pos).len() + rest.len()) % 4 == 0,
    ensures
        spec_parse_track(
            spec_track_bytes(FrameDataView::Hermite(ks), pos) + rest,
            SetType::Hermite,
        ) == Ok::<(Seq<u8>, FrameDataView), OutOfRange>((rest, FrameDataView::Hermite(ks))),
{
    let d = FrameDataView::Hermite(ks);
    let tb = spec_track_bytes(d, pos);
    let b = tb + rest;
    let c = ks.len() as int;
    lemma_frame_index_bytes_len(ks);
    lemma_hermite_value_bytes_len(ks);
    let cnt16 = ks.len() as u16;
    let head = u16_le_bytes(cnt16) + spec_frame_index_bytes(ks);
    let pad = (pos + head.len()) % 4;
    let s = pos + 2 + 2 * c;
    lemma_even_mod4(s);
    assert(tb.len() == 2 + 2 * c + pad + 8 * c);
    let after_frames = zeros(pad) + (spec_hermite_value_bytes(ks) + rest);
    assert(b =~= u16_le_bytes(cnt16) + (spec_frame_index_bytes(ks) + after_frames));
    lemma_le_u16_of_bytes(cnt16, spec_frame_index_bytes(ks) + after_frames);
    lemma_count_frames_of_bytes(ks, after_frames);
    let r = rest.len() as int;
    assert((s + pad) % 4 == 0);
    lemma_mod4_mul(2 * c);
    lemma_mod4_add(s + pad, 8 * c);
    assert((pos + tb.len() + r) % 4 == 0);
    assert(pos + tb.len() + r == (s + pad + 8 * c) + r);
    lemma_mod4_sub(pos + tb.len() + r, s + pad + 8 * c);
    assert(r % 4 == 0);
    lemma_mod4_add(8 * c, r);
    lemma_mod4_small(8 * c + r, pad);
    assert(after_frames.len() == pad + 8 * c + r);
    assert(after_frames.len() % 4 == pad);
    let b3 = after_frames.skip(after_frames.len() as int % 4);
    assert(b3 =~= spec_hermite_value_bytes(ks) + rest);
    lemma_count_hermite_values_of_bytes(ks, rest);
    let frames = ks.map_values(|k: Keyframe<u32>| k.frame);
    let values = ks.map_values(|k: Keyframe<u32>| (k.value, k.interpolation));
    let rebuilt = Seq::new(
        cnt16 as nat,
        |k: int| Keyframe { frame: frames[k], value: values[k].0, interpolation: values[k].1 },
    );
    assert forall|k: int| 0 <= k < ks.len() implies rebuilt[k] == ks[k] by {
        assert(frames[k] == ks[k].frame);
        assert(values[k] == (ks[k].value, ks[k].interpolation));
    }
    assert(rebuilt =~= ks);
}

/// Parsing one track from its own bytes gives the track and the rest back.
/// `pos` is the track's absolute position; the whole buffer ends after
/// `rest`, and its total length must be a multiple of four unless the track
/// carries no alignment padding.
pub proof fn lemma_track_of_bytes(d: FrameDataView, pos: int, rest: Seq<u8>)
    requires
        wf_track(d),
        pos >= 0,
        pos % 2 == 0,
        (pos + spec_track_bytes(d, pos).len() + rest.len()) % 4 == 0 || plain_track(d),
    ensures
        spec_parse_track(spec_track_bytes(d, pos) + rest, view_tag(d)) == Ok::<
            (Seq<u8>, FrameDataView),
            OutOfRange,
        >((rest, d)),
{
    match d {
        FrameDataView::Empty => {
            assert(spec_track_bytes(d, pos) + rest =~= rest);
        },
        FrameDataView::Pose(v) => {
            assert(spec_track_bytes(d, pos) + rest =~= u32_le_bytes(v) + rest);
            lemma_le_u32_of_bytes(v, rest);
        },
        FrameDataView::CatmulRom(ks) => {
            lemma_catmul_track_of_bytes(ks, pos, rest);
        },
        FrameDataView::Hermite(ks) => {
            lemma_hermite_track_of_bytes(ks, pos, rest);
        },
    }
}

/// Tag `i` of a packed tag region sits in byte `i / 4`, pair `i mod 4`.
proof fn lemma_spec_tags_index(bytes: Seq<u8>, i: int)
    requires
        0 <= i < 4 * bytes.len(),
    ensures
        spec_tags(bytes)[i] == spec_tags_of_byte(bytes[i / 4])[i % 4],
    decreases bytes.len(),
{
    lemma_spec_tags_len(bytes);
    if i >= 4 {
        lemma_spec_tags_index(bytes.skip(1), i - 4);
        lemma_spec_tags_len(bytes.skip(1));
        assert(bytes.skip(1)[(i - 4) / 4] == bytes[i / 4]);
        assert((i - 4) % 4 == i % 4);
    }
}

/// Unpacking the packed tag array of a track list gives each track's tag.
pub proof fn lemma_tags_of_tag_bytes(sets: Seq<FrameDataView>, i: int)
    requires
        0 <= i < sets.len(),
        sets.len() < 0x10000,
    ensures
        spec_tags(spec_tag_bytes(sets)).len() >= sets.len(),
        spec_tags(spec_tag_bytes(sets))[i] == view_tag(sets[i]),
{
    let tys = tags_of_sets(sets);
    let bytes = spec_tag_bytes(sets);
    let ln = tys.len() as int;
    assert(bytes.len() == (ln + 3) / 4);
    assert(4 * ((ln + 3) / 4) >= ln) by (nonlinear_arith);
    lemma_spec_tags_len(bytes);
    lemma_spec_tags_index(bytes, i);
    let c = i / 4;
    assert(0 <= c < bytes.len()) by (nonlinear_arith)
        requires
            0 <= i < ln && c == i / 4 && bytes.len() == (ln + 3) / 4,
    ;
    assert(bytes[c] == spec_tag_byte(tys, c));
    let t0 = if 4 * c < ln {
        tys[4 * c]
    } else {
        SetType::Empty
    };
    let t1 = if 4 * c + 1 < ln {
        tys[4 * c + 1]
    } else {
        SetType::Empty
    };
    let t2 = if 4 * c + 2 < ln {
        tys[4 * c + 2]
    } else {
        SetType::Empty
    };
    let t3 = if 4 * c + 3 < ln {
        tys[4 * c + 3]
    } else {
        SetType::Empty
    };
    assert(tag_bits_at(tys, 4 * c) == tag_bits(t0) && tag_bits_at(tys, 4 * c + 1) == tag_bits(t1)
        && tag_bits_at(tys, 4 * c + 2) == tag_bits(t2) && tag_bits_at(tys, 4 * c + 3) == tag_bits(
        t3,
    ));
    lemma_tag_byte_unpack_pack(t0, t1, t2, t3);
    assert(i == 4 * c + i % 4) by (nonlinear_arith)
        requires
            c == i / 4,
    ;
    assert(spec_tags_of_byte(bytes[c])[i % 4] == tys[i]);
    assert(tys[i] == view_tag(sets[i]));
}

/// Parsing a serialized track list from track `j` on gives the tracks and
/// the rest back. `total` is the whole buffer's length; it must be a
/// multiple of four unless every track is free of alignment padding.
pub proof fn lemma_tracks_of_bytes(
    sets: Seq<FrameDataView>,
    j: int,
    pos: int,
    rest: Seq<u8>,
    tags: Seq<SetType>,
    total: nat,
)
    requires
        0 <= j <= sets.len(),
        forall|t: int| 0 <= t < sets.len() ==> wf_track(#[trigger] sets[t]),
        sets.len() <= tags.len(),
        forall|t: int| j <= t < sets.len() ==> tags[t] == view_tag(#[trigger] sets[t]),
        pos >= 0,
        pos % 2 == 0,
        total == pos + spec_tracks_bytes(sets.skip(j), pos).len() + rest.len(),
        total % 4 == 0 || (forall|t: int| 0 <= t < sets.len() ==> plain_track(#[trigger] sets[t])),
    ensures
        spec_parse_tracks(
            spec_tracks_bytes(sets.skip(j), pos) + rest,
            tags,
            j as nat,
            sets.len(),
            total,
        ) == Ok::<(Seq<u8>, Seq<FrameDataView>), crate::read::RawMotionError>((rest, sets.skip(j))),
    decreases sets.len() - j,
{
    if j == sets.len() {
        assert(sets.skip(j) =~= Seq::<FrameDataView>::empty());
        assert(spec_tracks_bytes(sets.skip(j), pos) + rest =~= rest);
    } else {
        let d = sets[j];
        let tb = spec_track_bytes(d, pos);
        assert(sets.skip(j)[0] == d);
        assert(sets.skip(j).skip(1) =~= sets.skip(j + 1));
        assert(spec_tracks_bytes(sets.skip(j), pos) == tb + spec_tracks_bytes(
            sets.skip(j + 1),
            pos + tb.len(),
        ));
        let rest1 = spec_tracks_bytes(sets.skip(j + 1), pos + tb.len()) + rest;
        assert(spec_tracks_bytes(sets.skip(j), pos) + rest =~= tb + rest1);
        lemma_track_of_bytes(d, pos, rest1);
        lemma_track_bytes_even(d, pos);
        lemma_tracks_of_bytes(sets, j + 1, pos + tb.len() as int, rest, tags, total);
        assert(seq![d] + sets.skip(j + 1) =~= sets.skip(j));
    }
}

/// A position bumped to the next alignment boundary is even.
proof fn lemma_pos_plus_mod4_even(s: int)
    requires
        s >= 0,
    ensures
        (s + s % 4) % 2 == 0,
{
    let q = s / 4;
    let r4 = s % 4;
    assert(s == 4 * q + r4 && 0 <= r4 < 4);
    assert(s + r4 == 4 * q + 2 * r4);
    assert((4 * q + 2 * r4) % 2 == 0) by (nonlinear_arith);
}

/// The header record locating one motion, written for body start `start`,
/// parses back to exactly its four offsets.
pub proof fn lemma_header_row_of_bytes(m: crate::RawMotionView, start: int, rest: Seq<u8>)
    requires
        0 < start,
        start + 4 <= 0xFFFF_FFFF,
        crate::write::spec_sets_off(m, start) <= 0xFFFF_FFFF,
        crate::write::spec_bones_off(m, start) <= 0xFFFF_FFFF,
    ensures
        spec_header_parse(crate::write::spec_header_row(m, start) + rest) == Ok::<
            (Seq<u8>, Option<HeaderOffsets>),
            OutOfRange,
        >(
            (
                rest,
                Some(
                    HeaderOffsets {
                        info: start as usize,
                        set_types: (start + 4) as usize,
                        sets: crate::write::spec_sets_off(m, start) as usize,
                        bones: crate::write::spec_bones_off(m, start) as usize,
                    },
                ),
            ),
        ),
{
    let so = crate::write::spec_sets_off(m, start);
    let bo = crate::write::spec_bones_off(m, start);
    assert(0 <= so && 0 <= bo);
    let v0 = start as u32;
    let v1 = (start + 4) as u32;
    let v2 = so as u32;
    let v3 = bo as u32;
    let row = crate::write::spec_header_row(m, start);
    assert(row + rest =~= u32_le_bytes(v0) + (u32_le_bytes(v1) + (u32_le_bytes(v2) + (u32_le_bytes(
        v3,
    ) + rest))));
    lemma_le_u32_of_bytes(v0, u32_le_bytes(v1) + (u32_le_bytes(v2) + (u32_le_bytes(v3) + rest)));
    lemma_le_u32_of_bytes(v1, u32_le_bytes(v2) + (u32_le_bytes(v3) + rest));
    lemma_le_u32_of_bytes(v2, u32_le_bytes(v3) + rest);
    lemma_le_u32_of_bytes(v3, rest);
    assert(v0 != 0);
}

/// The offsets that the header record of motion `k` carries.
pub open spec fn spec_offsets_of(mots: Seq<crate::RawMotionView>, k: int) -> HeaderOffsets {
    let start = crate::write::spec_body_start(mots, k);
    HeaderOffsets {
        info: start as usize,
        set_types: (start + 4) as usize,
        sets: crate::write::spec_sets_off(mots[k], start) as usize,
        bones: crate::write::spec_bones_off(mots[k], start) as usize,
    }
}

/// The serialized file's length: the header region plus all bodies.
pub proof fn lemma_write_all_len(mots: Seq<crate::RawMotionView>)
    ensures
        crate::write::spec_write_all(mots).len() == crate::write::spec_header_size(
            mots.len() as int,
        ) + crate::write::spec_bodies_bytes(
            mots,
            crate::write::spec_header_size(mots.len() as int),
        ).len(),
{
    crate::write::lemma_header_rows_len(mots, 0);
}

/// Every offset of motion `k`'s header record lies inside the file.
pub proof fn lemma_offsets_in_file(mots: Seq<crate::RawMotionView>, k: int)
    requires
        0 <= k < mots.len(),
    ensures
        ({
            let hsize = crate::write::spec_header_size(mots.len() as int);
            let start = crate::write::spec_body_start(mots, k);
            let blen = crate::write::spec_body_bytes(mots[k], start).len();
            &&& 16 <= hsize <= start
            &&& start + blen <= crate::write::spec_write_all(mots).len()
            &&& 6 <= blen
            &&& crate::write::spec_sets_off(mots[k], start) <= crate::write::spec_bones_off(
                mots[k],
                start,
            )
            &&& crate::write::spec_bones_off(mots[k], start) + crate::write::spec_bones_bytes(
                mots[k].bones,
            ).len() == start + blen
        }),
{
    let hsize = crate::write::spec_header_size(mots.len() as int);
    let start = crate::write::spec_body_start(mots, k);
    lemma_write_all_len(mots);
    crate::write::lemma_bodies_bytes_split(mots, k, hsize);
    crate::write::lemma_bodies_bytes_snoc(mots, k + 1, hsize);
    crate::write::lemma_bodies_bytes_split(mots, k + 1, hsize);
    crate::write::lemma_u16s_bytes_len(mots[k].bones);
}

/// The file suffix at row `k` of the header table: the remaining rows, the
/// terminator record, then all bodies.
#[verifier::rlimit(100)]
proof fn lemma_file_suffix_at_row(mots: Seq<crate::RawMotionView>, k: int)
    requires
        0 <= k <= mots.len(),
    ensures
        crate::write::spec_write_all(mots).skip(16 * k) == crate::write::spec_header_rows(mots, k)
            + zeros(16) + crate::write::spec_bodies_bytes(
            mots,
            crate::write::spec_header_size(mots.len() as int),
        ),
    decreases k,
{
    let f = crate::write::spec_write_all(mots);
    let hsize = crate::write::spec_header_size(mots.len() as int);
    let bodies = crate::write::spec_bodies_bytes(mots, hsize);
    lemma_write_all_len(mots);
    crate::write::lemma_header_rows_len(mots, 0);
    if k == 0 {
        assert(f.skip(0) =~= f);
    } else {
        lemma_file_suffix_at_row(mots, k - 1);
        crate::write::lemma_header_rows_len(mots, k);
        crate::write::lemma_header_rows_len(mots, k - 1);
        let row = crate::write::spec_header_row(
            mots[k - 1],
            crate::write::spec_body_start(mots, k - 1),
        );
        assert(row.len() == 16);
        assert(crate::write::spec_header_rows(mots, k - 1) == row + crate::write::spec_header_rows(
            mots,
            k,
        ));
        assert(f.len() >= 16 * k);
        assert(f.skip(16 * k) =~= f.skip(16 * (k - 1)).skip(16));
        assert((row + crate::write::spec_header_rows(mots, k) + zeros(16) + bodies).skip(16)
            =~= crate::write::spec_header_rows(mots, k) + zeros(16) + bodies);
    }
}

/// The all-zero terminator record ends the header table.
#[verifier::rlimit(60)]
proof fn lemma_parse_header_terminator(rest: Seq<u8>)
    ensures
        spec_parse_headers(zeros(16) + rest) == Ok::<Seq<HeaderOffsets>, OutOfRange>(Seq::empty()),
{
    let b = zeros(16) + rest;
    assert((0u32 & 0xFF) as u8 == 0 && ((0u32 >> 8) & 0xFF) as u8 == 0 && ((0u32 >> 16)
        & 0xFF) as u8 == 0 && ((0u32 >> 24) & 0xFF) as u8 == 0) by (bit_vector);
    assert(b =~= u32_le_bytes(0) + (u32_le_bytes(0) + (u32_le_bytes(0) + (u32_le_bytes(0)
        + rest))));
    lemma_le_u32_of_bytes(0, u32_le_bytes(0) + (u32_le_bytes(0) + (u32_le_bytes(0) + rest)));
    lemma_le_u32_of_bytes(0, u32_le_bytes(0) + (u32_le_bytes(0) + rest));
    lemma_le_u32_of_bytes(0, u32_le_bytes(0) + rest);
    lemma_le_u32_of_bytes(0, rest);
}

/// One header record of the table parses to motion `k`'s offsets, leaving
/// the rest of the table.
#[verifier::rlimit(100)]
proof fn lemma_parse_header_table_step(mots: Seq<crate::RawMotionView>, k: int)
    requires
        0 <= k < mots.len(),
        crate::write::spec_write_all(mots).len() <= 0xFFFF_FFFF,
    ensures
        ({
            let bodies = crate::write::spec_bodies_bytes(
                mots,
                crate::write::spec_header_size(mots.len() as int),
            );
            let b = crate::write::spec_header_rows(mots, k) + zeros(16) + bodies;
            let b1 = crate::write::spec_header_rows(mots, k + 1) + zeros(16) + bodies;
            spec_header_parse(b) == Ok::<(Seq<u8>, Option<HeaderOffsets>), OutOfRange>(
                (b1, Some(spec_offsets_of(mots, k))),
            ) && b.len() >= 16 && b.skip(16) == b1
        }),
{
    let n = mots.len() as int;
    let hsize = crate::write::spec_header_size(n);
    let bodies = crate::write::spec_bodies_bytes(mots, hsize);
    let start = crate::write::spec_body_start(mots, k);
    lemma_offsets_in_file(mots, k);
    let row = crate::write::spec_header_row(mots[k], start);
    let rest1 = crate::write::spec_header_rows(mots, k + 1) + zeros(16) + bodies;
    assert(crate::write::spec_header_rows(mots, k) + zeros(16) + bodies =~= row + rest1);
    lemma_header_row_of_bytes(mots[k], start, rest1);
    assert(row.len() == 16);
    assert((row + rest1).skip(16) =~= rest1);
}

/// Parsing the header table from row `k` on yields one offsets record per
/// remaining motion, stopping at the all-zero terminator.
#[verifier::rlimit(100)]
proof fn lemma_parse_header_table(mots: Seq<crate::RawMotionView>, k: int)
    requires
        0 <= k <= mots.len(),
        crate::write::spec_write_all(mots).len() <= 0xFFFF_FFFF,
    ensures
        spec_parse_headers(
            crate::write::spec_header_rows(mots, k) + zeros(16) + crate::write::spec_bodies_bytes(
                mots,
                crate::write::spec_header_size(mots.len() as int),
            ),
        ) == Ok::<Seq<HeaderOffsets>, OutOfRange>(
            Seq::new((mots.len() - k) as nat, |t: int| spec_offsets_of(mots, k + t)),
        ),
    decreases mots.len() - k,
{
    let n = mots.len() as int;
    let hsize = crate::write::spec_header_size(n);
    let bodies = crate::write::spec_bodies_bytes(mots, hsize);
    if k == mots.len() {
        assert(crate::write::spec_header_rows(mots, k) + zeros(16) + bodies =~= zeros(16)
            + bodies);
        lemma_parse_header_terminator(bodies);
        assert(Seq::new(0, |t: int| spec_offsets_of(mots, k + t)) =~= Seq::<
            HeaderOffsets,
        >::empty());
    } else {
        lemma_parse_header_table_step(mots, k);
        lemma_parse_header_table(mots, k + 1);
        assert(seq![spec_offsets_of(mots, k)] + Seq::new(
            (mots.len() - k - 1) as nat,
            |t: int| spec_offsets_of(mots, k + 1 + t),
        ) =~= Seq::new((mots.len() - k) as nat, |t: int| spec_offsets_of(mots, k + t)));
    }
}

/// The file suffix at motion `k`'s body start: that body, then the bodies
/// after it.
proof fn lemma_file_body_suffix(mots: Seq<crate::RawMotionView>, k: int)
    requires
        0 <= k < mots.len(),
    ensures
        ({
            let hsize = crate::write::spec_header_size(mots.len() as int);
            let start = crate::write::spec_body_start(mots, k);
            let body = crate::write::spec_body_bytes(mots[k], start);
            crate::write::spec_write_all(mots).skip(start) == body
                + crate::write::spec_bodies_bytes(mots.skip(k + 1), start + body.len())
        }),
{
    let n = mots.len() as int;
    let hsize = crate::write::spec_header_size(n);
    let start = crate::write::spec_body_start(mots, k);
    let body = crate::write::spec_body_bytes(mots[k], start);
    let f = crate::write::spec_write_all(mots);
    crate::write::lemma_header_rows_len(mots, 0);
    crate::write::lemma_bodies_bytes_split(mots, k, hsize);
    let pre = crate::write::spec_bodies_bytes(mots.take(k), hsize);
    assert(mots.skip(k)[0] == mots[k]);
    assert(mots.skip(k).skip(1) =~= mots.skip(k + 1));
    assert(crate::write::spec_bodies_bytes(mots.skip(k), start) == body
        + crate::write::spec_bodies_bytes(mots.skip(k + 1), start + body.len()));
    assert(f.skip(start) =~= crate::write::spec_bodies_bytes(mots.skip(k), start));
}

/// Skipping twice skips the sum.
proof fn lemma_skip_skip(s: Seq<u8>, a: int, b: int)
    requires
        0 <= a,
        0 <= b,
        a + b <= s.len(),
    ensures
        s.skip(a).skip(b) == s.skip(a + b),
{
    assert(s.skip(a).skip(b) =~= s.skip(a + b));
}

/// The byte regions of one motion's body: where its info word, tag array,
/// tracks and bone list stand, relative to the body's start.
#[verifier::rlimit(100)]
proof fn lemma_motion_regions(m: crate::RawMotionView, start: int, after: Seq<u8>)
    ensures
        ({
            let body = crate::write::spec_body_bytes(m, start);
            let ba = body + after;
            let cnt16 = m.sets.len() as u16;
            let tagb = spec_tag_bytes(m.sets);
            let pad = crate::write::spec_tag_pad(m, start);
            let so = crate::write::spec_sets_off(m, start);
            let bo = crate::write::spec_bones_off(m, start);
            let tracksb = spec_tracks_bytes(m.sets, so);
            let bonesb = spec_bones_bytes(m.bones);
            let rest_info = tagb + (zeros(pad) + (tracksb + (bonesb + after)));
            &&& ba == u16_le_bytes(cnt16) + u16_le_bytes(m.frames) + rest_info
            &&& ba.skip(4) == rest_info
            &&& ba.skip(4).take(tagb.len() as int) == tagb
            &&& ba.skip(so - start) == tracksb + (bonesb + after)
            &&& ba.skip(bo - start) == bonesb + after
            &&& body.len() == 4 + tagb.len() + pad + tracksb.len() + bonesb.len()
            &&& 0 <= pad < 4
        }),
{
    let body = crate::write::spec_body_bytes(m, start);
    let ba = body + after;
    let cnt16 = m.sets.len() as u16;
    let tagb = spec_tag_bytes(m.sets);
    let pad = crate::write::spec_tag_pad(m, start);
    let so = crate::write::spec_sets_off(m, start);
    let bo = crate::write::spec_bones_off(m, start);
    let tracksb = spec_tracks_bytes(m.sets, so);
    let bonesb = spec_bones_bytes(m.bones);
    let rest_info = tagb + (zeros(pad) + (tracksb + (bonesb + after)));
    assert(ba =~= u16_le_bytes(cnt16) + u16_le_bytes(m.frames) + rest_info);
    assert(ba.skip(4) =~= rest_info);
    assert(ba.skip(4).take(tagb.len() as int) =~= tagb);
    assert(ba.skip(so - start) =~= tracksb + (bonesb + after));
    assert(ba.skip(bo - start) =~= bonesb + after);
}

/// The motion located by header record `k` of a written file parses back to
/// exactly the motion that was written.
#[verifier::rlimit(100)]
#[verifier::spinoff_prover]
proof fn lemma_parse_motion_of_file(mots: Seq<crate::RawMotionView>, k: int)
    requires
        0 <= k < mots.len(),
        wf_motions(mots),
        count_val(mots[k].bones, 0) == 1,
        crate::write::spec_write_all(mots).len() <= 0xFFFF_FFFF,
        crate::write::spec_write_all(mots).len() % 4 == 0 || plain_motions(mots),
    ensures
        spec_parse_motion(crate::write::spec_write_all(mots), spec_offsets_of(mots, k)) == Ok::<
            crate::RawMotionView,
            RawMotionError,
        >(mots[k]),
{
    let n = mots.len() as int;
    let hsize = crate::write::spec_header_size(n);
    let start = crate::write::spec_body_start(mots, k);
    let m = mots[k];
    let h = spec_offsets_of(mots, k);
    let f = crate::write::spec_write_all(mots);
    let body = crate::write::spec_body_bytes(m, start);
    lemma_offsets_in_file(mots, k);
    lemma_write_all_len(mots);
    lemma_file_body_suffix(mots, k);
    let after = crate::write::spec_bodies_bytes(mots.skip(k + 1), start + body.len());
    lemma_motion_regions(m, start, after);
    let ba = body + after;
    assert(f.skip(start) == ba);
    let cnt16 = m.sets.len() as u16;
    let tagb = spec_tag_bytes(m.sets);
    let pad = crate::write::spec_tag_pad(m, start);
    let so = crate::write::spec_sets_off(m, start);
    let bo = crate::write::spec_bones_off(m, start);
    let tracksb = spec_tracks_bytes(m.sets, so);
    let bonesb = spec_bones_bytes(m.bones);
    lemma_u16s_bytes_len(m.bones);
    assert(f.len() == start + ba.len());
    // the info word
    let rest_info = tagb + (zeros(pad) + (tracksb + (bonesb + after)));
    lemma_pair_of_bytes(cnt16, m.frames, rest_info);
    assert(cnt16 & 0x3FFF == cnt16) by (bit_vector)
        requires
            cnt16 < 0x4000,
    ;
    // the packed tag array
    assert(tagb.len() == (m.sets.len() + 3) / 4);
    lemma_skip_skip(f, start, 4);
    assert(f.skip(start + 4) == rest_info);
    assert(f.subrange(start + 4, start + 4 + tagb.len()) =~= f.skip(start + 4).take(
        tagb.len() as int,
    ));
    assert(f.subrange(start + 4, start + 4 + tagb.len()) == tagb);
    let tags = spec_tags(tagb);
    lemma_spec_tags_len(tagb);
    assert(4 * ((m.sets.len() as int + 3) / 4) >= m.sets.len() as int) by (nonlinear_arith);
    assert forall|t: int| 0 <= t < m.sets.len() implies tags[t] == view_tag(
        #[trigger] m.sets[t],
    ) by {
        lemma_tags_of_tag_bytes(m.sets, t);
    }
    // the tracks
    lemma_skip_skip(f, start, so - start);
    assert(f.skip(so) == tracksb + (bonesb + after));
    lemma_pos_plus_mod4_even(start + 4 + tagb.len());
    assert(so % 2 == 0);
    assert(f.len() == so + tracksb.len() + (bonesb + after).len());
    assert(m.sets.skip(0) =~= m.sets);
    lemma_tracks_of_bytes(m.sets, 0, so, bonesb + after, tags, f.len());
    // the bone list
    lemma_skip_skip(f, start, bo - start);
    assert(f.skip(bo) == bonesb + after);
    lemma_bones_of_bytes(m.bones, after);
    assert(m =~= (crate::RawMotionView { sets: m.sets, bones: m.bones, frames: m.frames }));
}

/// Every motion of a written file parses back, from record `k` on.
proof fn lemma_read_motions_of_file(
    mots: Seq<crate::RawMotionView>,
    hs: Seq<HeaderOffsets>,
    k: int,
)
    requires
        0 <= k <= mots.len(),
        hs.len() == mots.len(),
        forall|t: int| 0 <= t < mots.len() ==> hs[t] == spec_offsets_of(mots, t),
        wf_motions(mots),
        forall|t: int| 0 <= t < mots.len() ==> count_val((#[trigger] mots[t]).bones, 0) == 1,
        crate::write::spec_write_all(mots).len() <= 0xFFFF_FFFF,
        crate::write::spec_write_all(mots).len() % 4 == 0 || plain_motions(mots),
    ensures
        spec_read_motions(crate::write::spec_write_all(mots), hs, k as nat) == Ok::<
            Seq<crate::RawMotionView>,
            RawMotionError,
        >(mots.skip(k)),
    decreases mots.len() - k,
{
    if k == mots.len() {
        assert(mots.skip(k) =~= Seq::<crate::RawMotionView>::empty());
    } else {
        lemma_parse_motion_of_file(mots, k);
        lemma_read_motions_of_file(mots, hs, k + 1);
        assert(seq![mots[k]] + mots.skip(k + 1) =~= mots.skip(k));
    }
}

/// Round trip: parsing a written motion file yields exactly the motions
/// that were written. This holds for every representable motion list whose
/// bone lists carry exactly one zero id (the id the sentinel convention
/// needs), provided the file length is a multiple of four or no track
/// carries alignment padding.
pub proof fn lemma_write_read_round_trip(mots: Seq<crate::RawMotionView>)
    requires
        wf_motions(mots),
        forall|t: int| 0 <= t < mots.len() ==> count_val((#[trigger] mots[t]).bones, 0) == 1,
        crate::write::spec_write_all(mots).len() <= 0xFFFF_FFFF,
        crate::write::spec_write_all(mots).len() % 4 == 0 || plain_motions(mots),
    ensures
        spec_read(crate::write::spec_write_all(mots)) == Ok::<
            Seq<crate::RawMotionView>,
            RawMotionError,
        >(mots),
{
    let n = mots.len() as int;
    let f = crate::write::spec_write_all(mots);
    lemma_parse_header_table(mots, 0);
    let hs = Seq::new(mots.len(), |t: int| spec_offsets_of(mots, t));
    assert(Seq::new((mots.len() - 0) as nat, |t: int| spec_offsets_of(mots, 0 + t)) =~= hs);
    lemma_read_motions_of_file(mots, hs, 0);
    assert(mots.skip(0) =~= mots);
}

/// A header table consisting only of the all-zero terminator record yields
/// zero motions, whatever follows it.
pub proof fn lemma_terminator_only_reads_no_motions(b: Seq<u8>)
    requires
        b.len() >= 16,
        forall|i: int| 0 <= i < 16 ==> b[i] == 0,
    ensures
        spec_read(b) == Ok::<Seq<crate::RawMotionView>, RawMotionError>(Seq::empty()),
{
    assert(b =~= zeros(16) + b.skip(16));
    lemma_parse_header_terminator(b.skip(16));
}

/// The kind that bone `t` of the id list resolves to; meaningful only
/// where resolution succeeds.
pub open spec fn kind_at(
    bones: Seq<u16>,
    mdb: Seq<Seq<u8>>,
    skel: Seq<(Seq<u8>, crate::qualify::BoneKind)>,
    t: int,
) -> crate::qualify::BoneKind {
    match crate::qualify::resolve_kind(skel, mdb[bones[t] as int]) {
        Some(k) => k,
        None => crate::qualify::BoneKind::Rotation,
    }
}

/// How many tracks the first `t` bones of the id list consume.
pub open spec fn consumed_before(
    bones: Seq<u16>,
    mdb: Seq<Seq<u8>>,
    skel: Seq<(Seq<u8>, crate::qualify::BoneKind)>,
    t: int,
) -> int
    decreases t,
{
    if t <= 0 {
        0
    } else {
        consumed_before(bones, mdb, skel, t - 1) + 3 * crate::qualify::group_count(
            kind_at(bones, mdb, skel, t - 1),
        )
    }
}

/// Consumption grows with the bone index.
proof fn lemma_consumed_mono(
    bones: Seq<u16>,
    mdb: Seq<Seq<u8>>,
    skel: Seq<(Seq<u8>, crate::qualify::BoneKind)>,
    a: int,
    b: int,
)
    requires
        a <= b,
    ensures
        consumed_before(bones, mdb, skel, a) <= consumed_before(bones, mdb, skel, b),
    decreases b - a,
{
    if a < b {
        lemma_consumed_mono(bones, mdb, skel, a, b - 1);
    }
}

/// The entry that qualification builds for bone `t` of the id list.
pub open spec fn entry_at(
    bones: Seq<u16>,
    mdb: Seq<Seq<u8>>,
    skel: Seq<(Seq<u8>, crate::qualify::BoneKind)>,
    sets: Seq<FrameDataView>,
    t: int,
) -> (Seq<u8>, Option<crate::BoneAnimView>) {
    (
        mdb[bones[t] as int],
        Some(
            crate::qualify::anim_of(
                kind_at(bones, mdb, skel, t),
                sets,
                consumed_before(bones, mdb, skel, t),
            ),
        ),
    )
}

/// Inserting a name that orders after every present name appends.
proof fn lemma_insert_anim_append(
    anims: Seq<(Seq<u8>, Option<crate::BoneAnimView>)>,
    name: Seq<u8>,
    a: Option<crate::BoneAnimView>,
)
    requires
        forall|x: int| 0 <= x < anims.len() ==> crate::qualify::lex_lt((#[trigger] anims[x]).0, name),
    ensures
        crate::qualify::insert_anim(anims, name, a) == anims.push((name, a)),
    decreases anims.len(),
{
    if anims.len() == 0 {
        assert(crate::qualify::insert_anim(anims, name, a) =~= anims.push((name, a)));
    } else {
        crate::qualify::lemma_lex_lt_asymmetric(anims[0].0, name);
        lemma_insert_anim_append(anims.skip(1), name, a);
        assert(forall|x: int|
            0 <= x < anims.skip(1).len() ==> (#[trigger] anims.skip(1)[x]) == anims[x + 1]);
        assert(seq![anims[0]] + anims.skip(1).push((name, a)) =~= anims.push((name, a)));
    }
}

/// Under the stability conditions, qualification from bone `i` on appends
/// one entry per bone and consumes the tracks exactly.
proof fn lemma_from_raw_suffix(
    bones: Seq<u16>,
    mdb: Seq<Seq<u8>>,
    skel: Seq<(Seq<u8>, crate::qualify::BoneKind)>,
    sets: Seq<FrameDataView>,
    i: int,
    anims: Seq<(Seq<u8>, Option<crate::BoneAnimView>)>,
)
    requires
        0 <= i <= bones.len(),
        forall|t: int| i <= t < bones.len() ==> (#[trigger] bones[t]) < mdb.len(),
        forall|t: int|
            i <= t < bones.len() ==> crate::qualify::resolve_kind(
                skel,
                mdb[(#[trigger] bones[t]) as int],
            ) is Some,
        forall|x: int, t: int|
            0 <= x < anims.len() && i <= t < bones.len() ==> crate::qualify::lex_lt(
                (#[trigger] anims[x]).0,
                mdb[(#[trigger] bones[t]) as int],
            ),
        forall|t1: int, t2: int|
            i <= t1 < t2 < bones.len() ==> crate::qualify::lex_lt(
                mdb[(#[trigger] bones[t1]) as int],
                mdb[(#[trigger] bones[t2]) as int],
            ),
        sets.len() == consumed_before(bones, mdb, skel, bones.len() as int),
    ensures
        crate::qualify::spec_from_raw_rec(
            bones,
            i,
            consumed_before(bones, mdb, skel, i),
            anims,
            sets,
            mdb,
            skel,
        ) == Ok::<
            (Seq<(Seq<u8>, Option<crate::BoneAnimView>)>, int),
            crate::qualify::MotionQualifyError,
        >(
            (
                anims + Seq::new(
                    (bones.len() - i) as nat,
                    |t: int| entry_at(bones, mdb, skel, sets, i + t),
                ),
                consumed_before(bones, mdb, skel, bones.len() as int),
            ),
        ),
    decreases bones.len() - i,
{
    let n = bones.len() as int;
    let q = consumed_before(bones, mdb, skel, i);
    lemma_consumed_mono(bones, mdb, skel, 0, i);
    lemma_consumed_mono(bones, mdb, skel, i, n);
    if i == n {
        assert(anims + Seq::new(0, |t: int| entry_at(bones, mdb, skel, sets, i + t)) =~= anims);
    } else {
        let id = bones[i];
        let name = mdb[id as int];
        let k = kind_at(bones, mdb, skel, i);
        let need = 3 * crate::qualify::group_count(k);
        lemma_consumed_mono(bones, mdb, skel, i + 1, n);
        assert(q + need == consumed_before(bones, mdb, skel, i + 1));
        assert(q + need <= sets.len());
        let e = entry_at(bones, mdb, skel, sets, i);
        lemma_insert_anim_append(anims, name, Some(crate::qualify::anim_of(k, sets, q)));
        lemma_from_raw_suffix(bones, mdb, skel, sets, i + 1, anims.push(e));
        assert(anims.push(e) + Seq::new(
            (n - i - 1) as nat,
            |t: int| entry_at(bones, mdb, skel, sets, i + 1 + t),
        ) =~= anims + Seq::new((n - i) as nat, |t: int| entry_at(bones, mdb, skel, sets, i + t)));
    }
}

/// A name that stands in the schema has a first index there.
proof fn lemma_index_of_name_present(mdb: Seq<Seq<u8>>, i: int)
    requires
        0 <= i < mdb.len(),
    ensures
        crate::qualify::index_of_name(mdb, mdb[i]) is Some,
    decreases i,
{
    if mdb[0] != mdb[i] {
        assert(i > 0);
        lemma_index_of_name_present(mdb.skip(1), i - 1);
        assert(mdb.skip(1)[i - 1] == mdb[i]);
    }
}

/// The flat tracks of the animation built at queue position `q` are exactly
/// the tracks it consumed.
proof fn lemma_flatten_anim_of(k: crate::qualify::BoneKind, sets: Seq<FrameDataView>, q: int)
    requires
        0 <= q,
        q + 3 * crate::qualify::group_count(k) <= sets.len(),
    ensures
        crate::qualify::flatten_anim(crate::qualify::anim_of(k, sets, q)) == sets.subrange(
            q,
            q + 3 * crate::qualify::group_count(k),
        ),
{
    assert(crate::qualify::flatten_anim(crate::qualify::anim_of(k, sets, q)) =~= sets.subrange(
        q,
        q + 3 * crate::qualify::group_count(k),
    ));
}

/// Unqualifying the entries from bone `j` on gives back exactly the tracks
/// those bones consumed.
proof fn lemma_to_raw_suffix(
    bones: Seq<u16>,
    mdb: Seq<Seq<u8>>,
    skel: Seq<(Seq<u8>, crate::qualify::BoneKind)>,
    sets: Seq<FrameDataView>,
    j: int,
)
    requires
        0 <= j <= bones.len(),
        forall|t: int| 0 <= t < bones.len() ==> (#[trigger] bones[t]) < mdb.len(),
        sets.len() == consumed_before(bones, mdb, skel, bones.len() as int),
    ensures
        ({
            let entries = Seq::new(
                bones.len(),
                |t: int| entry_at(bones, mdb, skel, sets, t),
            );
            match crate::qualify::spec_to_raw_rec(entries, j, mdb) {
                Ok((ids, ds)) => ds == sets.subrange(
                    consumed_before(bones, mdb, skel, j),
                    sets.len() as int,
                ),
                Err(_) => false,
            }
        }),
    decreases bones.len() - j,
{
    let n = bones.len() as int;
    let entries = Seq::new(bones.len(), |t: int| entry_at(bones, mdb, skel, sets, t));
    let qj = consumed_before(bones, mdb, skel, j);
    lemma_consumed_mono(bones, mdb, skel, 0, j);
    lemma_consumed_mono(bones, mdb, skel, j, n);
    if j == n {
        assert(sets.subrange(qj, sets.len() as int) =~= Seq::<FrameDataView>::empty());
    } else {
        let k = kind_at(bones, mdb, skel, j);
        let need = 3 * crate::qualify::group_count(k);
        lemma_consumed_mono(bones, mdb, skel, j + 1, n);
        assert(qj + need == consumed_before(bones, mdb, skel, j + 1));
        lemma_index_of_name_present(mdb, bones[j] as int);
        lemma_to_raw_suffix(bones, mdb, skel, sets, j + 1);
        lemma_flatten_anim_of(k, sets, qj);
        assert(sets.subrange(qj, qj + need) + sets.subrange(qj + need, sets.len() as int)
            =~= sets.subrange(qj, sets.len() as int));
    }
}

/// Qualify/unqualify stability: for a raw motion whose bone ids all resolve
/// in both schemas, listed in strictly increasing name order, and whose
/// tracks divide exactly among its bones, unqualifying the qualified motion
/// gives the original track list (and frame count) back.
pub proof fn lemma_qualify_unqualify_stable(
    r: crate::RawMotionView,
    mdb: Seq<Seq<u8>>,
    skels: Seq<Seq<(Seq<u8>, crate::qualify::BoneKind)>>,
)
    requires
        skels.len() > 0,
        forall|t: int| 0 <= t < r.bones.len() ==> (#[trigger] r.bones[t]) < mdb.len(),
        forall|t: int|
            0 <= t < r.bones.len() ==> crate::qualify::resolve_kind(
                skels[0],
                mdb[(#[trigger] r.bones[t]) as int],
            ) is Some,
        forall|t1: int, t2: int|
            0 <= t1 < t2 < r.bones.len() ==> crate::qualify::lex_lt(
                mdb[(#[trigger] r.bones[t1]) as int],
                mdb[(#[trigger] r.bones[t2]) as int],
            ),
        r.sets.len() == consumed_before(r.bones, mdb, skels[0], r.bones.len() as int),
    ensures
        ({
            match crate::qualify::spec_from_raw(r, mdb, skels) {
                Ok(m) => match crate::qualify::spec_to_raw(m, mdb) {
                    Ok(raw2) => raw2.sets == r.sets && raw2.frames == r.frames,
                    Err(_) => false,
                },
                Err(_) => false,
            }
        }),
{
    let skel = skels[0];
    let n = r.bones.len() as int;
    lemma_from_raw_suffix(r.bones, mdb, skel, r.sets, 0, Seq::empty());
    let entries = Seq::new(r.bones.len(), |t: int| entry_at(r.bones, mdb, skel, r.sets, t));
    assert(Seq::<(Seq<u8>, Option<crate::BoneAnimView>)>::empty() + Seq::new(
        (r.bones.len() - 0) as nat,
        |t: int| entry_at(r.bones, mdb, skel, r.sets, 0 + t),
    ) =~= entries);
    lemma_to_raw_suffix(r.bones, mdb, skel, r.sets, 0);
    match crate::qualify::spec_to_raw_rec(entries, 0, mdb) {
        Ok((ids, ds)) => {
            assert(ds == r.sets.subrange(0, r.sets.len() as int));
            assert(r.sets.subrange(0, r.sets.len() as int) =~= r.sets);
        },
        Err(_) => {},
    }
}

/// A constant-pose track always occupies exactly four bytes, whatever
/// stands around it: parsing consumes four, and the writer emits four.
pub proof fn lemma_pose_track_shape(b: Seq<u8>, v: u32, pos: int)
    requires
        b.len() >= 4,
    ensures
        spec_parse_track(b, SetType::Pose) == Ok::<(Seq<u8>, FrameDataView), OutOfRange>(
            (b.skip(4), FrameDataView::Pose(u32_of(b[0], b[1], b[2], b[3]))),
        ),
        spec_track_bytes(FrameDataView::Pose(v), pos).len() == 4,
{
}

/// A keyframe track with count zero consumes exactly its two count bytes
/// plus the alignment skip, and yields an empty keyframe list.
pub proof fn lemma_empty_keyframe_track_shape(b: Seq<u8>)
    requires
        b.len() >= 2,
        u16_of(b[0], b[1]) == 0,
    ensures
        spec_parse_track(b, SetType::CatmullRom) == Ok::<(Seq<u8>, FrameDataView), OutOfRange>(
            (b.skip(2).skip((b.len() - 2) % 4), FrameDataView::CatmulRom(Seq::empty())),
        ),
        spec_parse_track(b, SetType::Hermite) == Ok::<(Seq<u8>, FrameDataView), OutOfRange>(
            (b.skip(2).skip((b.len() - 2) % 4), FrameDataView::Hermite(Seq::empty())),
        ),
{
    let b1 = b.skip(2);
    let b2 = b1.skip(b1.len() as int % 4);
    assert(spec_count_u16(b1, 0) == Ok::<(Seq<u8>, Seq<u16>), OutOfRange>((b1, Seq::empty())));
    assert(spec_count_u32(b2, 0) == Ok::<(Seq<u8>, Seq<u32>), OutOfRange>((b2, Seq::empty())));
    assert(spec_count_u32_pairs(b2, 0) == Ok::<(Seq<u8>, Seq<(u32, u32)>), OutOfRange>(
        (b2, Seq::empty()),
    ));
    assert(Seq::new(0, |k: int| Keyframe { frame: 0u16, value: 0u32, interpolation: () })
        =~= Seq::<Keyframe<()>>::empty());
    match spec_parse_keyframes(b) {
        Ok((r, ks)) => {
            assert(ks =~= Seq::<Keyframe<()>>::empty());
        },
        Err(_) => {},
    }
    match spec_parse_keyframes_hermite(b) {
        Ok((r, ks)) => {
            assert(ks =~= Seq::<Keyframe<u32>>::empty());
        },
        Err(_) => {},
    }
}

} // verus!
