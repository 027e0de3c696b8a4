//! The read direction of the motion codec: the pointer-table (header)
//! parser, the packed 2-bit track-type tags, the variable-length keyframe
//! tracks, and the assembly of whole [`RawMotion`] records. Every parser is
//! mirrored by a spec function over byte sequences, and the executable code
//! is proved to return exactly what the spec function says.

use vstd::prelude::*;

use crate::util::{
    le_u16, le_u32, pair, count, count_u32s, count_u32_pairs, many_till_nth, read_at, OutOfRange,
    OobPointer, ReadAtError, spec_le_u16, spec_le_u32, spec_pair_u16, spec_count_u16,
    spec_count_u32, spec_count_u32_pairs, spec_many_till_nth, lemma_spec_count_u16_len,
    lemma_spec_count_u32_len, lemma_spec_count_u32_pairs_len,
};
use crate::{FrameData, FrameDataView, Keyframe, RawMotion, RawMotionView};

verus! {

/// Everything that can go wrong while reading a motion file.
#[derive(Clone, Copy, PartialEq, Eq, Debug)]
pub enum RawMotionError {
    /// A read at an absolute offset failed (the motion info or bone list).
    ReadAtError(ReadAtError),
    /// The header table was truncated.
    OutOfRange(OutOfRange),
    /// A sub-stream offset pointed outside the buffer.
    OobPointer(OobPointer),
    /// Not enough bytes to read the packed track-type tags.
    SetTypeReadError(ReadAtError),
    /// Failed to read frame data: track index, absolute byte offset of the
    /// track, and the underlying short read.
    FrameReadError(usize, usize, OutOfRange),
}

/// The 2-bit on-disk type tag of one track.
#[derive(Clone, Copy, PartialEq, Eq, Debug)]
pub enum SetType {
    Empty,
    Pose,
    CatmullRom,
    Hermite,
}

/// The tag encoded by a 2-bit value; meaningful for inputs below 4.
pub open spec fn tag_from_bits(b: u8) -> SetType {
    if b == 0 {
        SetType::Empty
    } else if b == 1 {
        SetType::Pose
    } else if b == 2 {
        SetType::CatmullRom
    } else {
        SetType::Hermite
    }
}

/// The 2-bit value of a tag.
pub open spec fn tag_bits(t: SetType) -> u8 {
    match t {
        SetType::Empty => 0,
        SetType::Pose => 1,
        SetType::CatmullRom => 2,
        SetType::Hermite => 3,
    }
}

/// The four tags packed into one byte, least significant pair first.
pub open spec fn spec_tags_of_byte(b: u8) -> Seq<SetType> {
    seq![
        tag_from_bits(b & 3),
        tag_from_bits((b >> 2) & 3),
        tag_from_bits((b >> 4) & 3),
        tag_from_bits((b >> 6) & 3),
    ]
}

/// The tag sequence encoded by a whole tag region, four tags per byte.
pub open spec fn spec_tags(bytes: Seq<u8>) -> Seq<SetType>
    decreases bytes.len(),
{
    if bytes.len() == 0 {
        Seq::empty()
    } else {
        spec_tags_of_byte(bytes[0]) + spec_tags(bytes.skip(1))
    }
}

impl SetType {
    /// Decode a 2-bit tag value; values 4 and above encode nothing.
    pub fn from_bits(i: u8) -> (r: Option<SetType>)
        ensures
            i < 4 ==> r == Some(tag_from_bits(i)),
            i >= 4 ==> r is None,
    {
        match i {
            0 => Some(SetType::Empty),
            1 => Some(SetType::Pose),
            2 => Some(SetType::CatmullRom),
            3 => Some(SetType::Hermite),
            _ => Option::None,
        }
    }

    /// Unpack the four tags of one byte, least significant pair first.
    pub fn parse(i: u8) -> (r: [SetType; 4])
        ensures
            r@ == spec_tags_of_byte(i),
    {
        let i0 = i & 0b0000_0011;
        let i1 = (i & 0b0000_1100) >> 2;
        let i2 = (i & 0b0011_0000) >> 4;
        let i3 = (i & 0b1100_0000) >> 6;
        proof {
            assert(i0 == i & 3 && i0 < 4) by (bit_vector)
                requires
                    i0 == i & 0b0000_0011,
            ;
            assert(i1 == (i >> 2) & 3 && i1 < 4) by (bit_vector)
                requires
                    i1 == (i & 0b0000_1100) >> 2,
            ;
            assert(i2 == (i >> 4) & 3 && i2 < 4) by (bit_vector)
                requires
                    i2 == (i & 0b0011_0000) >> 4,
            ;
            assert(i3 == (i >> 6) & 3 && i3 < 4) by (bit_vector)
                requires
                    i3 == (i & 0b1100_0000) >> 6,
            ;
        }
        let v0 = match SetType::from_bits(i0) {
            Some(v) => v,
            Option::None => SetType::Empty,
        };
        let v1 = match SetType::from_bits(i1) {
            Some(v) => v,
            Option::None => SetType::Empty,
        };
        let v2 = match SetType::from_bits(i2) {
            Some(v) => v,
            Option::None => SetType::Empty,
        };
        let v3 = match SetType::from_bits(i3) {
            Some(v) => v,
            Option::None => SetType::Empty,
        };
        let r = [v0, v1, v2, v3];
        proof {
            assert(r@ =~= spec_tags_of_byte(i));
        }
        r
    }
}

/// Decode a whole tag region: four tags per byte, in byte order.
pub fn parse_tags(bytes: &[u8]) -> (r: Vec<SetType>)
    ensures
        r@ == spec_tags(bytes@),
{
    let mut res: Vec<SetType> = Vec::new();
    let mut k: usize = 0;
    proof {
        assert(res@ =~= spec_tags(bytes@.take(0)));
    }
    while k < bytes.len()
        invariant
            k <= bytes@.len(),
            res@ == spec_tags(bytes@.take(k as int)),
        decreases bytes@.len() - k,
    {
        let four = SetType::parse(bytes[k]);
        res.push(four[0]);
        res.push(four[1]);
        res.push(four[2]);
        res.push(four[3]);
        proof {
            lemma_spec_tags_snoc(bytes@, (k + 1) as int);
            assert(res@ =~= spec_tags(bytes@.take(k as int)) + spec_tags_of_byte(bytes@[k as int]));
        }
        k = k + 1;
    }
    proof {
        assert(bytes@.take(bytes@.len() as int) =~= bytes@);
    }
    res
}

/// Splitting the last byte off a tag region splits its tag sequence.
proof fn lemma_spec_tags_snoc(bytes: Seq<u8>, k: int)
    requires
        0 < k <= bytes.len(),
    ensures
        spec_tags(bytes.take(k)) == spec_tags(bytes.take(k - 1)) + spec_tags_of_byte(
            bytes[k - 1],
        ),
    decreases k,
{
    if k == 1 {
        let a = bytes.take(1);
        assert(a[0] == bytes[0]);
        assert(a.skip(1) =~= Seq::<u8>::empty());
        assert(bytes.take(0) =~= Seq::<u8>::empty());
        assert(spec_tags(a) == spec_tags_of_byte(a[0]) + spec_tags(a.skip(1)));
        assert(spec_tags(a) =~= spec_tags(bytes.take(0)) + spec_tags_of_byte(bytes[0]));
    } else {
        let a = bytes.take(k);
        let b = bytes.take(k - 1);
        assert(a.skip(1) =~= bytes.skip(1).take(k - 1));
        assert(b.skip(1) =~= bytes.skip(1).take(k - 2));
        assert(a[0] == bytes[0] && b[0] == bytes[0]);
        lemma_spec_tags_snoc(bytes.skip(1), k - 1);
        assert(bytes.skip(1)[k - 2] == bytes[k - 1]);
        assert(spec_tags(a) == spec_tags_of_byte(bytes[0]) + spec_tags(bytes.skip(1).take(k - 1)));
        assert(spec_tags_of_byte(bytes[0]) + (spec_tags(bytes.skip(1).take(k - 2))
            + spec_tags_of_byte(bytes[k - 1])) =~= (spec_tags_of_byte(bytes[0]) + spec_tags(
            bytes.skip(1).take(k - 2),
        )) + spec_tags_of_byte(bytes[k - 1]));
    }
}

/// The number of tags a region of `n` bytes encodes.
pub proof fn lemma_spec_tags_len(bytes: Seq<u8>)
    ensures
        spec_tags(bytes).len() == 4 * bytes.len(),
    decreases bytes.len(),
{
    if bytes.len() > 0 {
        lemma_spec_tags_len(bytes.skip(1));
    }
}

/// The four absolute byte offsets locating one motion's sub-streams.
#[derive(Clone, Copy, PartialEq, Eq, Debug)]
pub struct HeaderOffsets {
    pub info: usize,
    pub set_types: usize,
    pub sets: usize,
    pub bones: usize,
}

/// What [`HeaderOffsets::parse`] returns: `None` stands for the all-zero
/// terminator record.
pub open spec fn spec_header_parse(b: Seq<u8>) -> Result<
    (Seq<u8>, Option<HeaderOffsets>),
    OutOfRange,
> {
    match spec_le_u32(b) {
        Err(e) => Err(e),
        Ok((b1, info)) => match spec_le_u32(b1) {
            Err(e) => Err(e),
            Ok((b2, set_types)) => match spec_le_u32(b2) {
                Err(e) => Err(e),
                Ok((b3, sets)) => match spec_le_u32(b3) {
                    Err(e) => Err(e),
                    Ok((b4, bones)) => if info == 0 && set_types == 0 && sets == 0 && bones == 0 {
                        Ok((b4, Option::None))
                    } else {
                        Ok(
                            (
                                b4,
                                Some(
                                    HeaderOffsets {
                                        info: info as usize,
                                        set_types: set_types as usize,
                                        sets: sets as usize,
                                        bones: bones as usize,
                                    },
                                ),
                            ),
                        )
                    },
                },
            },
        },
    }
}

impl HeaderOffsets {
    /// Parse one 16-byte header record; the all-zero record is the table
    /// terminator and comes back as `None`.
    pub fn parse(i: &[u8]) -> (r: Result<(&[u8], Option<HeaderOffsets>), OutOfRange>)
        ensures
            match r {
                Ok((rest, h)) => spec_header_parse(i@) == Ok::<
                    (Seq<u8>, Option<HeaderOffsets>),
                    OutOfRange,
                >((rest@, h)),
                Err(e) => spec_header_parse(i@) == Err::<
                    (Seq<u8>, Option<HeaderOffsets>),
                    OutOfRange,
                >(e),
            },
    {
        let (i1, info) = match le_u32(i) {
            Ok(v) => v,
            Err(e) => {
                return Err(e);
            },
        };
        let (i2, set_types) = match le_u32(i1) {
            Ok(v) => v,
            Err(e) => {
                return Err(e);
            },
        };
        let (i3, sets) = match le_u32(i2) {
            Ok(v) => v,
            Err(e) => {
                return Err(e);
            },
        };
        let (i4, bones) = match le_u32(i3) {
            Ok(v) => v,
            Err(e) => {
                return Err(e);
            },
        };
        if info == 0 && set_types == 0 && sets == 0 && bones == 0 {
            return Ok((i4, Option::None));
        }
        Ok(
            (
                i4,
                Some(
                    HeaderOffsets {
                        info: info as usize,
                        set_types: set_types as usize,
                        sets: sets as usize,
                        bones: bones as usize,
                    },
                ),
            ),
        )
    }
}

/// What [`Keyframe::<()>::parse`] returns: a count, that many `u16` frame
/// indices, an alignment skip of `remaining length mod 4` bytes, then that
/// many `f32` values (kept as `u32` bit patterns).
pub open spec fn spec_parse_keyframes(b: Seq<u8>) -> Result<
    (Seq<u8>, Seq<Keyframe<()>>),
    OutOfRange,
> {
    match spec_le_u16(b) {
        Err(e) => Err(e),
        Ok((b1, cnt)) => match spec_count_u16(b1, cnt as nat) {
            Err(e) => Err(e),
            Ok((b2, frames)) => {
                let b3 = b2.skip(b2.len() as int % 4);
                match spec_count_u32(b3, cnt as nat) {
                    Err(e) => Err(e),
                    Ok(
                        (b4, values),
                    ) => Ok(
                        (
                            b4,
                            Seq::new(
                                cnt as nat,
                                |k: int| Keyframe { frame: frames[k], value: values[k], interpolation: () },
                            ),
                        ),
                    ),
                }
            },
        },
    }
}

/// What [`Keyframe::<u32>::parse`] returns: as [`spec_parse_keyframes`],
/// but each value is a pair of (`f32` value, `f32` tangent) bit patterns.
pub open spec fn spec_parse_keyframes_hermite(b: Seq<u8>) -> Result<
    (Seq<u8>, Seq<Keyframe<u32>>),
    OutOfRange,
> {
    match spec_le_u16(b) {
        Err(e) => Err(e),
        Ok((b1, cnt)) => match spec_count_u16(b1, cnt as nat) {
            Err(e) => Err(e),
            Ok((b2, frames)) => {
                let b3 = b2.skip(b2.len() as int % 4);
                match spec_count_u32_pairs(b3, cnt as nat) {
                    Err(e) => Err(e),
                    Ok(
                        (b4, values),
                    ) => Ok(
                        (
                            b4,
                            Seq::new(
                                cnt as nat,
                                |k: int|
                                    Keyframe {
                                        frame: frames[k],
                                        value: values[k].0,
                                        interpolation: values[k].1,
                                    },
                            ),
                        ),
                    ),
                }
            },
        },
    }
}

impl Keyframe<()> {
    /// Parse a keyframe list without tangents: count, frame indices, the
    /// alignment skip, then one `f32` bit pattern per key.
    pub fn parse(i0: &[u8]) -> (r: Result<(&[u8], Vec<Keyframe<()>>), OutOfRange>)
        ensures
            match r {
                Ok((rest, ks)) => spec_parse_keyframes(i0@) == Ok::<
                    (Seq<u8>, Seq<Keyframe<()>>),
                    OutOfRange,
                >((rest@, ks@)),
                Err(e) => spec_parse_keyframes(i0@) == Err::<
                    (Seq<u8>, Seq<Keyframe<()>>),
                    OutOfRange,
                >(e),
            },
    {
        let (i1, cnt) = match le_u16(i0) {
            Ok(v) => v,
            Err(e) => {
                return Err(e);
            },
        };
        let (i2, frames) = match count(i1, cnt as usize) {
            Ok(v) => v,
            Err(e) => {
                return Err(e);
            },
        };
        proof {
            lemma_spec_count_u16_len(i1@, cnt as nat);
        }
        let skip_n = i2.len() % 4;
        let i3 = &i2[skip_n..i2.len()];
        proof {
            assert(i3@ =~= i2@.skip(i2@.len() as int % 4));
        }
        let (i4, values) = match count_u32s(i3, cnt as usize) {
            Ok(v) => v,
            Err(e) => {
                return Err(e);
            },
        };
        proof {
            lemma_spec_count_u32_len(i3@, cnt as nat);
        }
        let mut ks: Vec<Keyframe<()>> = Vec::new();
        let mut j: usize = 0;
        while j < cnt as usize
            invariant
                j <= cnt,
                frames@.len() == cnt,
                values@.len() == cnt,
                ks@.len() == j,
                forall|t: int|
                    0 <= t < j ==> ks@[t] == (Keyframe {
                        frame: frames@[t],
                        value: values@[t],
                        interpolation: (),
                    }),
            decreases cnt - j,
        {
            ks.push(Keyframe { frame: frames[j], value: values[j], interpolation: () });
            j = j + 1;
        }
        proof {
            assert(ks@ =~= Seq::new(
                cnt as nat,
                |k: int| Keyframe { frame: frames@[k], value: values@[k], interpolation: () },
            ));
        }
        Ok((i4, ks))
    }
}

impl Keyframe<u32> {
    /// Parse a keyframe list with tangents: count, frame indices, the
    /// alignment skip, then one (value, tangent) pair of `f32` bit patterns
    /// per key.
    pub fn parse(i0: &[u8]) -> (r: Result<(&[u8], Vec<Keyframe<u32>>), OutOfRange>)
        ensures
            match r {
                Ok((rest, ks)) => spec_parse_keyframes_hermite(i0@) == Ok::<
                    (Seq<u8>, Seq<Keyframe<u32>>),
                    OutOfRange,
                >((rest@, ks@)),
                Err(e) => spec_parse_keyframes_hermite(i0@) == Err::<
                    (Seq<u8>, Seq<Keyframe<u32>>),
                    OutOfRange,
                >(e),
            },
    {
        let (i1, cnt) = match le_u16(i0) {
            Ok(v) => v,
            Err(e) => {
                return Err(e);
            },
        };
        let (i2, frames) = match count(i1, cnt as usize) {
            Ok(v) => v,
            Err(e) => {
                return Err(e);
            },
        };
        proof {
            lemma_spec_count_u16_len(i1@, cnt as nat);
        }
        let skip_n = i2.len() % 4;
        let i3 = &i2[skip_n..i2.len()];
        proof {
            assert(i3@ =~= i2@.skip(i2@.len() as int % 4));
        }
        let (i4, values) = match count_u32_pairs(i3, cnt as usize) {
            Ok(v) => v,
            Err(e) => {
                return Err(e);
            },
        };
        proof {
            lemma_spec_count_u32_pairs_len(i3@, cnt as nat);
        }
        let mut ks: Vec<Keyframe<u32>> = Vec::new();
        let mut j: usize = 0;
        while j < cnt as usize
            invariant
                j <= cnt,
                frames@.len() == cnt,
                values@.len() == cnt,
                ks@.len() == j,
                forall|t: int|
                    0 <= t < j ==> ks@[t] == (Keyframe {
                        frame: frames@[t],
                        value: values@[t].0,
                        interpolation: values@[t].1,
                    }),
            decreases cnt - j,
        {
            let v = values[j];
            ks.push(Keyframe { frame: frames[j], value: v.0, interpolation: v.1 });
            j = j + 1;
        }
        proof {
            assert(ks@ =~= Seq::new(
                cnt as nat,
                |k: int|
                    Keyframe {
                        frame: frames@[k],
                        value: values@[k].0,
                        interpolation: values@[k].1,
                    },
            ));
        }
        Ok((i4, ks))
    }
}

/// What [`FrameData::parse`] returns for one track of type `ty`.
pub open spec fn spec_parse_track(b: Seq<u8>, ty: SetType) -> Result<
    (Seq<u8>, FrameDataView),
    OutOfRange,
> {
    match ty {
        SetType::Empty => Ok((b, FrameDataView::Empty)),
        SetType::Pose => match spec_le_u32(b) {
            Err(e) => Err(e),
            Ok((r, v)) => Ok((r, FrameDataView::Pose(v))),
        },
        SetType::CatmullRom => match spec_parse_keyframes(b) {
            Err(e) => Err(e),
            Ok((r, ks)) => Ok((r, FrameDataView::CatmulRom(ks))),
        },
        SetType::Hermite => match spec_parse_keyframes_hermite(b) {
            Err(e) => Err(e),
            Ok((r, ks)) => Ok((r, FrameDataView::Hermite(ks))),
        },
    }
}

impl FrameData {
    /// Parse one track; the 2-bit tag `ty` chooses the track's shape.
    pub fn parse(ty: SetType, i: &[u8]) -> (r: Result<(&[u8], FrameData), OutOfRange>)
        ensures
            match r {
                Ok((rest, d)) => spec_parse_track(i@, ty) == Ok::<
                    (Seq<u8>, FrameDataView),
                    OutOfRange,
                >((rest@, d@)),
                Err(e) => spec_parse_track(i@, ty) == Err::<(Seq<u8>, FrameDataView), OutOfRange>(
                    e,
                ),
            },
    {
        match ty {
            SetType::Empty => Ok((i, FrameData::Empty)),
            SetType::Pose => match le_u32(i) {
                Err(e) => Err(e),
                Ok((r, v)) => Ok((r, FrameData::Pose(v))),
            },
            SetType::CatmullRom => match Keyframe::<()>::parse(i) {
                Err(e) => Err(e),
                Ok((r, ks)) => Ok((r, FrameData::CatmulRom(ks))),
            },
            SetType::Hermite => match Keyframe::<u32>::parse(i) {
                Err(e) => Err(e),
                Ok((r, ks)) => Ok((r, FrameData::Hermite(ks))),
            },
        }
    }
}

/// The views of a list of tracks.
pub open spec fn views_of(s: Seq<FrameData>) -> Seq<FrameDataView> {
    s.map_values(|d: FrameData| d@)
}

/// A successful header-record parse consumed exactly 16 bytes.
pub proof fn lemma_header_parse_ok_len(b: Seq<u8>)
    ensures
        match spec_header_parse(b) {
            Ok((r, _)) => b.len() >= 16 && r == b.skip(16),
            Err(_) => true,
        },
{
    match spec_header_parse(b) {
        Ok((r, _)) => {
            assert(b.skip(4).skip(4).skip(4).skip(4) =~= b.skip(16));
        },
        Err(_) => {},
    }
}

/// What the header-table loop of [`RawMotion::read`] collects: one record
/// per motion, stopping before the all-zero terminator record.
pub open spec fn spec_parse_headers(b: Seq<u8>) -> Result<Seq<HeaderOffsets>, OutOfRange>
    decreases b.len(),
{
    match spec_header_parse(b) {
        Err(e) => Err(e),
        Ok((r, hopt)) => match hopt {
            Option::None => Ok(Seq::empty()),
            Some(h) => if b.len() >= 16 {
                match spec_parse_headers(b.skip(16)) {
                    Err(e) => Err(e),
                    Ok(hs) => Ok(seq![h] + hs),
                }
            } else {
                // a successful non-terminator record always consumed 16 bytes,
                // so this branch is never taken
                Ok(seq![h])
            },
        },
    }
}

/// What the track loop of [`RawMotion::parse`] returns when started on
/// `cur` with track index `j`, reading up to `n` tracks in total; `total`
/// is the whole buffer's length, used to report absolute positions.
pub open spec fn spec_parse_tracks(
    cur: Seq<u8>,
    tags: Seq<SetType>,
    j: nat,
    n: nat,
    total: nat,
) -> Result<(Seq<u8>, Seq<FrameDataView>), RawMotionError>
    decreases n - j,
{
    if j >= n {
        Ok((cur, Seq::empty()))
    } else {
        match spec_parse_track(cur, tags[j as int]) {
            Err(e) => Err(
                RawMotionError::FrameReadError(j as usize, (total - cur.len()) as usize, e),
            ),
            Ok((r, d)) => match spec_parse_tracks(r, tags, j + 1, n, total) {
                Err(e) => Err(e),
                Ok((r2, ds)) => Ok((r2, seq![d] + ds)),
            },
        }
    }
}

/// Helper shape for the loop invariant of the track loop.
pub open spec fn prepend_tracks_result(
    done: Seq<FrameDataView>,
    out: Result<(Seq<u8>, Seq<FrameDataView>), RawMotionError>,
) -> Result<(Seq<u8>, Seq<FrameDataView>), RawMotionError> {
    match out {
        Err(e) => Err(e),
        Ok((r, ds)) => Ok((r, done + ds)),
    }
}

/// What [`RawMotion::parse`] returns for the motion located by `h` inside
/// the whole buffer `b`: the info word (track count and frame count), the
/// packed tag array, the tracks, and the sentinel-terminated bone-id list.
pub open spec fn spec_parse_motion(b: Seq<u8>, h: HeaderOffsets) -> Result<
    RawMotionView,
    RawMotionError,
> {
    if h.info > b.len() {
        Err(RawMotionError::ReadAtError(ReadAtError::OutOfRange(h.info, b.len() as usize)))
    } else {
        match spec_pair_u16(b.skip(h.info as int)) {
            Err(e) => Err(RawMotionError::ReadAtError(ReadAtError::InternalParserError(e))),
            Ok((_, (info, frames))) => {
                let cnt = (info & 0x3FFF) as nat;
                let cnt1 = ((cnt + 3) / 4) as int;
                if h.set_types > b.len() {
                    Err(
                        RawMotionError::SetTypeReadError(
                            ReadAtError::OutOfRange(h.set_types, b.len() as usize),
                        ),
                    )
                } else if b.len() - h.set_types < cnt1 {
                    Err(
                        RawMotionError::SetTypeReadError(
                            ReadAtError::InternalParserError(OutOfRange { want: 1, left: 0 }),
                        ),
                    )
                } else {
                    let tags = spec_tags(b.subrange(h.set_types as int, h.set_types + cnt1));
                    if h.sets > b.len() {
                        Err(RawMotionError::OobPointer(OobPointer { at: h.sets, len: b.len() as usize }))
                    } else {
                        match spec_parse_tracks(b.skip(h.sets as int), tags, 0, cnt, b.len()) {
                            Err(e) => Err(e),
                            Ok((_, sets)) => if h.bones > b.len() {
                                Err(
                                    RawMotionError::ReadAtError(
                                        ReadAtError::OutOfRange(h.bones, b.len() as usize),
                                    ),
                                )
                            } else {
                                match spec_many_till_nth(b.skip(h.bones as int), 0, 1) {
                                    Err(e) => Err(
                                        RawMotionError::ReadAtError(
                                            ReadAtError::InternalParserError(e),
                                        ),
                                    ),
                                    Ok(bones) => Ok(RawMotionView { sets, bones, frames }),
                                }
                            },
                        }
                    }
                }
            },
        }
    }
}

/// What [`RawMotion::read`] returns from header record `k` on.
pub open spec fn spec_read_motions(b: Seq<u8>, hs: Seq<HeaderOffsets>, k: nat) -> Result<
    Seq<RawMotionView>,
    RawMotionError,
>
    decreases hs.len() - k,
{
    if k >= hs.len() {
        Ok(Seq::empty())
    } else {
        match spec_parse_motion(b, hs[k as int]) {
            Err(e) => Err(e),
            Ok(m) => match spec_read_motions(b, hs, k + 1) {
                Err(e) => Err(e),
                Ok(ms) => Ok(seq![m] + ms),
            },
        }
    }
}

/// What [`RawMotion::read`] returns: every motion located by the header
/// table, in table order.
pub open spec fn spec_read(b: Seq<u8>) -> Result<Seq<RawMotionView>, RawMotionError> {
    match spec_parse_headers(b) {
        Err(e) => Err(RawMotionError::OutOfRange(e)),
        Ok(hs) => spec_read_motions(b, hs, 0),
    }
}

/// Helper shape for the loop invariants of [`RawMotion::read`].
pub open spec fn prepend_headers_result(
    done: Seq<HeaderOffsets>,
    out: Result<Seq<HeaderOffsets>, OutOfRange>,
) -> Result<Seq<HeaderOffsets>, OutOfRange> {
    match out {
        Err(e) => Err(e),
        Ok(hs) => Ok(done + hs),
    }
}

/// Helper shape for the motion loop invariant of [`RawMotion::read`].
pub open spec fn prepend_motions_result(
    done: Seq<RawMotionView>,
    out: Result<Seq<RawMotionView>, RawMotionError>,
) -> Result<Seq<RawMotionView>, RawMotionError> {
    match out {
        Err(e) => Err(e),
        Ok(ms) => Ok(done + ms),
    }
}

impl RawMotion {
    /// Parse the one motion located by `offsets` inside the whole buffer
    /// `i0`. The returned rest is the suffix at the bone-list offset, the
    /// last region this parser visits.
    #[verifier::loop_isolation(false)]
    pub fn parse(i0: &[u8], offsets: HeaderOffsets) -> (r: Result<
        (&[u8], RawMotion),
        RawMotionError,
    >)
        ensures
            match r {
                Ok((rest, m)) => spec_parse_motion(i0@, offsets) == Ok::<
                    RawMotionView,
                    RawMotionError,
                >(m@) && rest@ == i0@.skip(offsets.bones as int),
                Err(e) => spec_parse_motion(i0@, offsets) == Err::<RawMotionView, RawMotionError>(
                    e,
                ),
            },
    {
        let info_suffix = match read_at(i0, offsets.info) {
            Ok(s) => s,
            Err(e) => {
                return Err(RawMotionError::ReadAtError(e));
            },
        };
        let (info, frames) = match pair(info_suffix) {
            Ok((_, v)) => v,
            Err(e) => {
                return Err(RawMotionError::ReadAtError(ReadAtError::InternalParserError(e)));
            },
        };
        let cnt = (info & 0x3FFF) as usize;
        // one byte holds four 2-bit tags
        let cnt1 = (cnt + 3) / 4;
        let types_suffix = match read_at(i0, offsets.set_types) {
            Ok(s) => s,
            Err(e) => {
                return Err(RawMotionError::SetTypeReadError(e));
            },
        };
        if types_suffix.len() < cnt1 {
            return Err(
                RawMotionError::SetTypeReadError(
                    ReadAtError::InternalParserError(OutOfRange { want: 1, left: 0 }),
                ),
            );
        }
        let tag_region = &types_suffix[0..cnt1];
        proof {
            assert(tag_region@ =~= i0@.subrange(
                offsets.set_types as int,
                offsets.set_types + ((cnt + 3) / 4) as int,
            ));
        }
        let tags = parse_tags(tag_region);
        proof {
            lemma_spec_tags_len(tag_region@);
            assert(cnt <= 4 * cnt1);
        }
        let sets_start = match read_at(i0, offsets.sets) {
            Ok(s) => s,
            Err(_) => {
                return Err(
                    RawMotionError::OobPointer(OobPointer { at: offsets.sets, len: i0.len() }),
                );
            },
        };
        let ghost total: nat = i0@.len();
        let mut cur: &[u8] = sets_start;
        let mut sets_v: Vec<FrameData> = Vec::new();
        let mut j: usize = 0;
        proof {
            match spec_parse_tracks(sets_start@, tags@, 0, cnt as nat, total) {
                Ok((rr, ds)) => {
                    assert(Seq::<FrameDataView>::empty() + ds =~= ds);
                    assert(views_of(sets_v@) =~= Seq::<FrameDataView>::empty());
                },
                Err(_) => {
                    assert(views_of(sets_v@) =~= Seq::<FrameDataView>::empty());
                },
            }
        }
        while j < cnt
            invariant
                j <= cnt,
                cnt <= tags@.len(),
                cur@.len() <= i0@.len(),
                total == i0@.len(),
                spec_parse_tracks(sets_start@, tags@, 0, cnt as nat, total)
                    == prepend_tracks_result(
                    views_of(sets_v@),
                    spec_parse_tracks(cur@, tags@, j as nat, cnt as nat, total),
                ),
            decreases cnt - j,
        {
            let ty = tags[j];
            match FrameData::parse(ty, cur) {
                Err(e) => {
                    return Err(RawMotionError::FrameReadError(j, i0.len() - cur.len(), e));
                },
                Ok((r, d)) => {
                    proof {
                        match spec_parse_tracks(r@, tags@, (j + 1) as nat, cnt as nat, total) {
                            Ok((rr, ds)) => {
                                assert(views_of(sets_v@) + (seq![d@] + ds) =~= views_of(sets_v@).push(
                                    d@,
                                ) + ds);
                                assert(views_of(sets_v@.push(d)) =~= views_of(sets_v@).push(d@));
                            },
                            Err(_) => {
                                assert(views_of(sets_v@.push(d)) =~= views_of(sets_v@).push(d@));
                            },
                        }
                        // parsing a track never grows the remaining input
                        lemma_parse_track_rest_len(cur@, tags@[j as int]);
                    }
                    sets_v.push(d);
                    cur = r;
                    j = j + 1;
                },
            }
        }
        proof {
            assert(views_of(sets_v@) + Seq::<FrameDataView>::empty() =~= views_of(sets_v@));
        }
        let bones_suffix = match read_at(i0, offsets.bones) {
            Ok(s) => s,
            Err(e) => {
                return Err(RawMotionError::ReadAtError(e));
            },
        };
        let (rest, bones) = match many_till_nth(bones_suffix, 0, 1) {
            Ok(v) => v,
            Err(e) => {
                return Err(RawMotionError::ReadAtError(ReadAtError::InternalParserError(e)));
            },
        };
        let m = RawMotion { sets: sets_v, bones, frames };
        proof {
            assert(m@.sets =~= views_of(m.sets@));
            assert(m@ =~= (RawMotionView { sets: views_of(m.sets@), bones: m.bones@, frames }));
        }
        Ok((rest, m))
    }

    /// Parse a whole motion file: the header table locates one motion per
    /// record, each of which is parsed in table order.
    pub fn read(i0: &[u8]) -> (r: Result<Vec<RawMotion>, RawMotionError>)
        ensures
            match r {
                Ok(v) => spec_read(i0@) == Ok::<Seq<RawMotionView>, RawMotionError>(
                    v@.map_values(|m: RawMotion| m@),
                ),
                Err(e) => spec_read(i0@) == Err::<Seq<RawMotionView>, RawMotionError>(e),
            },
    {
        let mut headers: Vec<HeaderOffsets> = Vec::new();
        let mut cur: &[u8] = i0;
        proof {
            match spec_parse_headers(i0@) {
                Ok(hs) => {
                    assert(Seq::<HeaderOffsets>::empty() + hs =~= hs);
                },
                Err(_) => {},
            }
        }
        loop
            invariant
                spec_parse_headers(i0@) == prepend_headers_result(
                    headers@,
                    spec_parse_headers(cur@),
                ),
            ensures
                spec_parse_headers(i0@) == Ok::<Seq<HeaderOffsets>, OutOfRange>(headers@),
            decreases cur@.len(),
        {
            match HeaderOffsets::parse(cur) {
                Err(e) => {
                    return Err(RawMotionError::OutOfRange(e));
                },
                Ok((r, hopt)) => {
                    proof {
                        lemma_header_parse_ok_len(cur@);
                    }
                    match hopt {
                        Option::None => {
                            proof {
                                assert(headers@ + Seq::<HeaderOffsets>::empty() =~= headers@);
                            }
                            break;
                        },
                        Some(h) => {
                            proof {
                                match spec_parse_headers(r@) {
                                    Ok(hs) => {
                                        assert(headers@ + (seq![h] + hs) =~= headers@.push(h) + hs);
                                    },
                                    Err(_) => {},
                                }
                            }
                            headers.push(h);
                            cur = r;
                        },
                    }
                },
            }
        }
        let ghost hs = match spec_parse_headers(i0@) {
            Ok(hs) => hs,
            Err(_) => Seq::empty(),
        };
        proof {
            assert(hs == headers@);
        }
        let mut vec: Vec<RawMotion> = Vec::new();
        let mut k: usize = 0;
        proof {
            match spec_read_motions(i0@, hs, 0) {
                Ok(ms) => {
                    assert(Seq::<RawMotionView>::empty() + ms =~= ms);
                    assert(vec@.map_values(|m: RawMotion| m@) =~= Seq::<RawMotionView>::empty());
                },
                Err(_) => {
                    assert(vec@.map_values(|m: RawMotion| m@) =~= Seq::<RawMotionView>::empty());
                },
            }
        }
        while k < headers.len()
            invariant
                k <= headers@.len(),
                hs == headers@,
                spec_parse_headers(i0@) == Ok::<Seq<HeaderOffsets>, OutOfRange>(hs),
                spec_read_motions(i0@, hs, 0) == prepend_motions_result(
                    vec@.map_values(|m: RawMotion| m@),
                    spec_read_motions(i0@, hs, k as nat),
                ),
            decreases headers@.len() - k,
        {
            let h = headers[k];
            match RawMotion::parse(i0, h) {
                Err(e) => {
                    return Err(e);
                },
                Ok((_, m)) => {
                    proof {
                        let done = vec@.map_values(|mm: RawMotion| mm@);
                        match spec_read_motions(i0@, hs, (k + 1) as nat) {
                            Ok(ms) => {
                                assert(done + (seq![m@] + ms) =~= done.push(m@) + ms);
                                assert(vec@.push(m).map_values(|mm: RawMotion| mm@) =~= done.push(
                                    m@,
                                ));
                            },
                            Err(_) => {
                                assert(vec@.push(m).map_values(|mm: RawMotion| mm@) =~= done.push(
                                    m@,
                                ));
                            },
                        }
                    }
                    vec.push(m);
                    k = k + 1;
                },
            }
        }
        proof {
            assert(vec@.map_values(|m: RawMotion| m@) + Seq::<RawMotionView>::empty()
                =~= vec@.map_values(|m: RawMotion| m@));
        }
        Ok(vec)
    }
}

/// A successful track parse never grows the remaining input.
pub proof fn lemma_parse_track_rest_len(b: Seq<u8>, ty: SetType)
    ensures
        match spec_parse_track(b, ty) {
            Ok((r, _)) => r.len() <= b.len(),
            Err(_) => true,
        },
{
    match ty {
        SetType::Empty => {},
        SetType::Pose => {},
        SetType::CatmullRom => {
            match spec_le_u16(b) {
                Ok((b1, cnt)) => {
                    lemma_spec_count_u16_len(b1, cnt as nat);
                    match spec_count_u16(b1, cnt as nat) {
                        Ok((b2, _)) => {
                            lemma_spec_count_u32_len(b2.skip(b2.len() as int % 4), cnt as nat);
                        },
                        Err(_) => {},
                    }
                },
                Err(_) => {},
            }
        },
        SetType::Hermite => {
            match spec_le_u16(b) {
                Ok((b1, cnt)) => {
                    lemma_spec_count_u16_len(b1, cnt as nat);
                    match spec_count_u16(b1, cnt as nat) {
                        Ok((b2, _)) => {
                            lemma_spec_count_u32_pairs_len(
                                b2.skip(b2.len() as int % 4),
                                cnt as nat,
                            );
                        },
                        Err(_) => {},
                    }
                },
                Err(_) => {},
            }
        },
    }
}

} // verus!
