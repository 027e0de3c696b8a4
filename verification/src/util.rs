//! Bounds-checked little-endian primitive readers over a byte slice, and the
//! small parsing utilities the motion codec is built from. Every reader
//! either consumes exactly the bytes its contract says or reports how many
//! bytes it wanted and how many were left; nothing reads past the end.

use vstd::prelude::*;

verus! {

/// Too few bytes remained: the reader wanted `want` bytes but only `left`
/// were available.
#[derive(Clone, Copy, PartialEq, Eq, Debug)]
pub struct OutOfRange {
    pub want: usize,
    pub left: usize,
}

/// An absolute offset pointed outside the buffer.
#[derive(Clone, Copy, PartialEq, Eq, Debug)]
pub struct OobPointer {
    pub at: usize,
    pub len: usize,
}

/// Failure of a read performed at an absolute offset: either the offset
/// itself was out of range, or the reader run at that offset failed.
#[derive(Clone, Copy, PartialEq, Eq, Debug)]
pub enum ReadAtError {
    OutOfRange(usize, usize),
    InternalParserError(OutOfRange),
}

/// The `u16` encoded little-endian by the bytes `b0` (low) and `b1` (high).
pub open spec fn u16_of(b0: u8, b1: u8) -> u16 {
    (b0 + b1 * 0x100) as u16
}

/// The `u32` encoded little-endian by four bytes, least significant first.
pub open spec fn u32_of(b0: u8, b1: u8, b2: u8, b3: u8) -> u32 {
    (b0 + b1 * 0x100 + b2 * 0x10000 + b3 * 0x1000000) as u32
}

/// The two little-endian bytes of a `u16`, least significant first.
pub open spec fn u16_le_bytes(v: u16) -> Seq<u8> {
    seq![(v & 0xFF) as u8, ((v >> 8) & 0xFF) as u8]
}

/// The four little-endian bytes of a `u32`, least significant first.
pub open spec fn u32_le_bytes(v: u32) -> Seq<u8> {
    seq![
        (v & 0xFF) as u8,
        ((v >> 8) & 0xFF) as u8,
        ((v >> 16) & 0xFF) as u8,
        ((v >> 24) & 0xFF) as u8,
    ]
}

/// Decoding the two little-endian bytes of a `u16` gives the value back.
pub proof fn lemma_u16_le_round_trip(v: u16)
    ensures
        u16_of((v & 0xFF) as u8, ((v >> 8) & 0xFF) as u8) == v,
{
    assert(((v & 0xFF) as u8) + (((v >> 8) & 0xFF) as u8) * 0x100 == v) by (bit_vector);
}

/// Decoding the four little-endian bytes of a `u32` gives the value back.
pub proof fn lemma_u32_le_round_trip(v: u32)
    ensures
        u32_of(
            (v & 0xFF) as u8,
            ((v >> 8) & 0xFF) as u8,
            ((v >> 16) & 0xFF) as u8,
            ((v >> 24) & 0xFF) as u8,
        ) == v,
{
    assert(((v & 0xFF) as u8) + (((v >> 8) & 0xFF) as u8) * 0x100 + (((v >> 16) & 0xFF) as u8)
        * 0x10000 + (((v >> 24) & 0xFF) as u8) * 0x1000000 == v) by (bit_vector);
}

/// What [`le_u16`] returns: on success, the rest of the input and the value
/// of the first two bytes.
pub open spec fn spec_le_u16(b: Seq<u8>) -> Result<(Seq<u8>, u16), OutOfRange> {
    if b.len() >= 2 {
        Ok((b.skip(2), u16_of(b[0], b[1])))
    } else {
        Err(OutOfRange { want: 2, left: b.len() as usize })
    }
}

/// What [`le_u32`] returns.
pub open spec fn spec_le_u32(b: Seq<u8>) -> Result<(Seq<u8>, u32), OutOfRange> {
    if b.len() >= 4 {
        Ok((b.skip(4), u32_of(b[0], b[1], b[2], b[3])))
    } else {
        Err(OutOfRange { want: 4, left: b.len() as usize })
    }
}

/// Read a little-endian `u16` from the front of `i`.
pub fn le_u16(i: &[u8]) -> (r: Result<(&[u8], u16), OutOfRange>)
    ensures
        match r {
            Ok((rest, v)) => spec_le_u16(i@) == Ok::<(Seq<u8>, u16), OutOfRange>((rest@, v)),
            Err(e) => spec_le_u16(i@) == Err::<(Seq<u8>, u16), OutOfRange>(e),
        },
{
    if i.len() >= 2 {
        let b0 = i[0];
        let b1 = i[1];
        let rest = &i[2..i.len()];
        assert(rest@ =~= i@.skip(2));
        Ok((rest, b0 as u16 + (b1 as u16) * 0x100))
    } else {
        Err(OutOfRange { want: 2, left: i.len() })
    }
}

/// Read a little-endian `u32` from the front of `i`.
pub fn le_u32(i: &[u8]) -> (r: Result<(&[u8], u32), OutOfRange>)
    ensures
        match r {
            Ok((rest, v)) => spec_le_u32(i@) == Ok::<(Seq<u8>, u32), OutOfRange>((rest@, v)),
            Err(e) => spec_le_u32(i@) == Err::<(Seq<u8>, u32), OutOfRange>(e),
        },
{
    if i.len() >= 4 {
        let b0 = i[0];
        let b1 = i[1];
        let b2 = i[2];
        let b3 = i[3];
        let rest = &i[4..i.len()];
        assert(rest@ =~= i@.skip(4));
        Ok((rest, b0 as u32 + (b1 as u32) * 0x100 + (b2 as u32) * 0x10000 + (b3 as u32)
            * 0x1000000))
    } else {
        Err(OutOfRange { want: 4, left: i.len() })
    }
}

/// What [`pair`] returns: two consecutive little-endian `u16` values.
pub open spec fn spec_pair_u16(b: Seq<u8>) -> Result<(Seq<u8>, (u16, u16)), OutOfRange> {
    match spec_le_u16(b) {
        Err(e) => Err(e),
        Ok((r, v1)) => match spec_le_u16(r) {
            Err(e) => Err(e),
            Ok((r2, v2)) => Ok((r2, (v1, v2))),
        },
    }
}

/// Read two consecutive little-endian `u16` values.
pub fn pair(i: &[u8]) -> (r: Result<(&[u8], (u16, u16)), OutOfRange>)
    ensures
        match r {
            Ok((rest, v)) => spec_pair_u16(i@) == Ok::<(Seq<u8>, (u16, u16)), OutOfRange>(
                (rest@, v),
            ),
            Err(e) => spec_pair_u16(i@) == Err::<(Seq<u8>, (u16, u16)), OutOfRange>(e),
        },
{
    match le_u16(i) {
        Err(e) => Err(e),
        Ok((r, v1)) => match le_u16(r) {
            Err(e) => Err(e),
            Ok((r2, v2)) => Ok((r2, (v1, v2))),
        },
    }
}

/// What [`count`] returns: `n` consecutive little-endian `u16` values.
pub open spec fn spec_count_u16(b: Seq<u8>, n: nat) -> Result<(Seq<u8>, Seq<u16>), OutOfRange>
    decreases n,
{
    if n == 0 {
        Ok((b, Seq::empty()))
    } else {
        match spec_le_u16(b) {
            Err(e) => Err(e),
            Ok((r, v)) => match spec_count_u16(r, (n - 1) as nat) {
                Err(e) => Err(e),
                Ok((r2, vs)) => Ok((r2, seq![v] + vs)),
            },
        }
    }
}

/// Helper shape for the loop invariant of [`count`]: prefix a partial result
/// onto the outcome of parsing the remaining elements.
pub open spec fn prepend_count_result(
    done: Seq<u16>,
    out: Result<(Seq<u8>, Seq<u16>), OutOfRange>,
) -> Result<(Seq<u8>, Seq<u16>), OutOfRange> {
    match out {
        Err(e) => Err(e),
        Ok((r, vs)) => Ok((r, done + vs)),
    }
}

/// Read `n` consecutive little-endian `u16` values.
pub fn count(i: &[u8], n: usize) -> (r: Result<(&[u8], Vec<u16>), OutOfRange>)
    ensures
        match r {
            Ok((rest, vs)) => spec_count_u16(i@, n as nat) == Ok::<
                (Seq<u8>, Seq<u16>),
                OutOfRange,
            >((rest@, vs@)),
            Err(e) => spec_count_u16(i@, n as nat) == Err::<(Seq<u8>, Seq<u16>), OutOfRange>(e),
        },
{
    let mut res: Vec<u16> = Vec::new();
    let mut cur: &[u8] = i;
    let mut k: usize = 0;
    proof {
        match spec_count_u16(i@, n as nat) {
            Ok((rr, vs)) => {
                assert(Seq::<u16>::empty() + vs =~= vs);
            },
            Err(_) => {},
        }
    }
    while k < n
        invariant
            k <= n,
            spec_count_u16(i@, n as nat) == prepend_count_result(
                res@,
                spec_count_u16(cur@, (n - k) as nat),
            ),
        decreases n - k,
    {
        match le_u16(cur) {
            Err(e) => {
                return Err(e);
            },
            Ok((r, v)) => {
                proof {
                    match spec_count_u16(r@, (n - k - 1) as nat) {
                        Ok((rr, vs)) => {
                            assert(res@ + (seq![v] + vs) =~= res@.push(v) + vs);
                        },
                        Err(_) => {},
                    }
                }
                res.push(v);
                cur = r;
                k = k + 1;
            },
        }
    }
    proof {
        assert(res@ + Seq::<u16>::empty() =~= res@);
    }
    Ok((cur, res))
}

/// What [`many_till_nth`] collects: `u16` values up to, but not including,
/// the occurrence number `nth` (counting from zero) of the sentinel `c`.
/// Earlier occurrences of `c` are kept as ordinary values; the terminating
/// occurrence is discarded.
pub open spec fn spec_many_till_nth(b: Seq<u8>, c: u16, nth: nat) -> Result<Seq<u16>, OutOfRange>
    decreases b.len(),
{
    match spec_le_u16(b) {
        Err(e) => Err(e),
        Ok((r, v)) => if v == c && nth == 0 {
            Ok(Seq::empty())
        } else {
            let rec = spec_many_till_nth(r, c, if v == c { (nth - 1) as nat } else { nth });
            match rec {
                Err(e) => Err(e),
                Ok(vs) => Ok(seq![v] + vs),
            }
        },
    }
}

/// What [`count_u32s`] returns: `n` consecutive little-endian `u32` values.
pub open spec fn spec_count_u32(b: Seq<u8>, n: nat) -> Result<(Seq<u8>, Seq<u32>), OutOfRange>
    decreases n,
{
    if n == 0 {
        Ok((b, Seq::empty()))
    } else {
        match spec_le_u32(b) {
            Err(e) => Err(e),
            Ok((r, v)) => match spec_count_u32(r, (n - 1) as nat) {
                Err(e) => Err(e),
                Ok((r2, vs)) => Ok((r2, seq![v] + vs)),
            },
        }
    }
}

/// Helper shape for the loop invariant of [`count_u32s`].
pub open spec fn prepend_count_u32_result(
    done: Seq<u32>,
    out: Result<(Seq<u8>, Seq<u32>), OutOfRange>,
) -> Result<(Seq<u8>, Seq<u32>), OutOfRange> {
    match out {
        Err(e) => Err(e),
        Ok((r, vs)) => Ok((r, done + vs)),
    }
}

/// Read `n` consecutive little-endian `u32` values.
pub fn count_u32s(i: &[u8], n: usize) -> (r: Result<(&[u8], Vec<u32>), OutOfRange>)
    ensures
        match r {
            Ok((rest, vs)) => spec_count_u32(i@, n as nat) == Ok::<
                (Seq<u8>, Seq<u32>),
                OutOfRange,
            >((rest@, vs@)),
            Err(e) => spec_count_u32(i@, n as nat) == Err::<(Seq<u8>, Seq<u32>), OutOfRange>(e),
        },
{
    let mut res: Vec<u32> = Vec::new();
    let mut cur: &[u8] = i;
    let mut k: usize = 0;
    proof {
        match spec_count_u32(i@, n as nat) {
            Ok((rr, vs)) => {
                assert(Seq::<u32>::empty() + vs =~= vs);
            },
            Err(_) => {},
        }
    }
    while k < n
        invariant
            k <= n,
            spec_count_u32(i@, n as nat) == prepend_count_u32_result(
                res@,
                spec_count_u32(cur@, (n - k) as nat),
            ),
        decreases n - k,
    {
        match le_u32(cur) {
            Err(e) => {
                return Err(e);
            },
            Ok((r, v)) => {
                proof {
                    match spec_count_u32(r@, (n - k - 1) as nat) {
                        Ok((rr, vs)) => {
                            assert(res@ + (seq![v] + vs) =~= res@.push(v) + vs);
                        },
                        Err(_) => {},
                    }
                }
                res.push(v);
                cur = r;
                k = k + 1;
            },
        }
    }
    proof {
        assert(res@ + Seq::<u32>::empty() =~= res@);
    }
    Ok((cur, res))
}

/// What [`count_u32_pairs`] returns: `n` consecutive pairs of little-endian
/// `u32` values.
pub open spec fn spec_count_u32_pairs(b: Seq<u8>, n: nat) -> Result<
    (Seq<u8>, Seq<(u32, u32)>),
    OutOfRange,
>
    decreases n,
{
    if n == 0 {
        Ok((b, Seq::empty()))
    } else {
        match spec_le_u32(b) {
            Err(e) => Err(e),
            Ok((r, v1)) => match spec_le_u32(r) {
                Err(e) => Err(e),
                Ok((r1, v2)) => match spec_count_u32_pairs(r1, (n - 1) as nat) {
                    Err(e) => Err(e),
                    Ok((r2, vs)) => Ok((r2, seq![(v1, v2)] + vs)),
                },
            },
        }
    }
}

/// Helper shape for the loop invariant of [`count_u32_pairs`].
pub open spec fn prepend_count_pair_result(
    done: Seq<(u32, u32)>,
    out: Result<(Seq<u8>, Seq<(u32, u32)>), OutOfRange>,
) -> Result<(Seq<u8>, Seq<(u32, u32)>), OutOfRange> {
    match out {
        Err(e) => Err(e),
        Ok((r, vs)) => Ok((r, done + vs)),
    }
}

/// Read `n` consecutive pairs of little-endian `u32` values.
pub fn count_u32_pairs(i: &[u8], n: usize) -> (r: Result<(&[u8], Vec<(u32, u32)>), OutOfRange>)
    ensures
        match r {
            Ok((rest, vs)) => spec_count_u32_pairs(i@, n as nat) == Ok::<
                (Seq<u8>, Seq<(u32, u32)>),
                OutOfRange,
            >((rest@, vs@)),
            Err(e) => spec_count_u32_pairs(i@, n as nat) == Err::<
                (Seq<u8>, Seq<(u32, u32)>),
                OutOfRange,
            >(e),
        },
{
    let mut res: Vec<(u32, u32)> = Vec::new();
    let mut cur: &[u8] = i;
    let mut k: usize = 0;
    proof {
        match spec_count_u32_pairs(i@, n as nat) {
            Ok((rr, vs)) => {
                assert(Seq::<(u32, u32)>::empty() + vs =~= vs);
            },
            Err(_) => {},
        }
    }
    while k < n
        invariant
            k <= n,
            spec_count_u32_pairs(i@, n as nat) == prepend_count_pair_result(
                res@,
                spec_count_u32_pairs(cur@, (n - k) as nat),
            ),
        decreases n - k,
    {
        match le_u32(cur) {
            Err(e) => {
                return Err(e);
            },
            Ok((r, v1)) => {
                match le_u32(r) {
                    Err(e) => {
                        return Err(e);
                    },
                    Ok((r1, v2)) => {
                        proof {
                            match spec_count_u32_pairs(r1@, (n - k - 1) as nat) {
                                Ok((rr, vs)) => {
                                    assert(res@ + (seq![(v1, v2)] + vs) =~= res@.push((v1, v2))
                                        + vs);
                                },
                                Err(_) => {},
                            }
                        }
                        res.push((v1, v2));
                        cur = r1;
                        k = k + 1;
                    },
                }
            },
        }
    }
    proof {
        assert(res@ + Seq::<(u32, u32)>::empty() =~= res@);
    }
    Ok((cur, res))
}

/// A successful [`spec_count_u16`] yields `n` values and consumes `2 * n`
/// bytes.
pub proof fn lemma_spec_count_u16_len(b: Seq<u8>, n: nat)
    ensures
        match spec_count_u16(b, n) {
            Ok((r, vs)) => vs.len() == n && r == b.skip((2 * n) as int) && 2 * n <= b.len(),
            Err(_) => true,
        },
    decreases n,
{
    if n > 0 {
        match spec_le_u16(b) {
            Ok((r1, v)) => {
                lemma_spec_count_u16_len(r1, (n - 1) as nat);
                match spec_count_u16(r1, (n - 1) as nat) {
                    Ok((r2, vs)) => {
                        assert(r1.skip((2 * (n - 1)) as int) =~= b.skip((2 * n) as int));
                    },
                    Err(_) => {},
                }
            },
            Err(_) => {},
        }
    } else {
        assert(b.skip(0) =~= b);
    }
}

/// A successful [`spec_count_u32`] yields `n` values and consumes `4 * n`
/// bytes.
pub proof fn lemma_spec_count_u32_len(b: Seq<u8>, n: nat)
    ensures
        match spec_count_u32(b, n) {
            Ok((r, vs)) => vs.len() == n && r == b.skip((4 * n) as int) && 4 * n <= b.len(),
            Err(_) => true,
        },
    decreases n,
{
    if n > 0 {
        match spec_le_u32(b) {
            Ok((r1, v)) => {
                lemma_spec_count_u32_len(r1, (n - 1) as nat);
                match spec_count_u32(r1, (n - 1) as nat) {
                    Ok((r2, vs)) => {
                        assert(r1.skip((4 * (n - 1)) as int) =~= b.skip((4 * n) as int));
                    },
                    Err(_) => {},
                }
            },
            Err(_) => {},
        }
    } else {
        assert(b.skip(0) =~= b);
    }
}

/// A successful [`spec_count_u32_pairs`] yields `n` pairs and consumes
/// `8 * n` bytes.
pub proof fn lemma_spec_count_u32_pairs_len(b: Seq<u8>, n: nat)
    ensures
        match spec_count_u32_pairs(b, n) {
            Ok((r, vs)) => vs.len() == n && r == b.skip((8 * n) as int) && 8 * n <= b.len(),
            Err(_) => true,
        },
    decreases n,
{
    if n > 0 {
        match spec_le_u32(b) {
            Ok((r1, v1)) => {
                match spec_le_u32(r1) {
                    Ok((r2, v2)) => {
                        lemma_spec_count_u32_pairs_len(r2, (n - 1) as nat);
                        match spec_count_u32_pairs(r2, (n - 1) as nat) {
                            Ok((r3, vs)) => {
                                assert(r2.skip((8 * (n - 1)) as int) =~= b.skip((8 * n) as int));
                            },
                            Err(_) => {},
                        }
                    },
                    Err(_) => {},
                }
            },
            Err(_) => {},
        }
    } else {
        assert(b.skip(0) =~= b);
    }
}

/// Helper shape for the loop invariant of [`many_till_nth`].
pub open spec fn prepend_till_result(
    done: Seq<u16>,
    out: Result<Seq<u16>, OutOfRange>,
) -> Result<Seq<u16>, OutOfRange> {
    match out {
        Err(e) => Err(e),
        Ok(vs) => Ok(done + vs),
    }
}

/// Read `u16` values until occurrence number `nth` (counting from zero) of
/// the sentinel `c`; that terminating occurrence is discarded. The returned
/// rest is the whole input unchanged: callers locate what follows by
/// offset, never by this scan's end.
pub fn many_till_nth(i: &[u8], c: u16, nth: usize) -> (r: Result<(&[u8], Vec<u16>), OutOfRange>)
    ensures
        match r {
            Ok((rest, vs)) => rest@ == i@ && spec_many_till_nth(i@, c, nth as nat) == Ok::<
                Seq<u16>,
                OutOfRange,
            >(vs@),
            Err(e) => spec_many_till_nth(i@, c, nth as nat) == Err::<Seq<u16>, OutOfRange>(e),
        },
{
    let mut res: Vec<u16> = Vec::new();
    let mut cur: &[u8] = i;
    let mut occ: usize = nth;
    proof {
        match spec_many_till_nth(i@, c, nth as nat) {
            Ok(vs) => {
                assert(Seq::<u16>::empty() + vs =~= vs);
            },
            Err(_) => {},
        }
    }
    loop
        invariant
            spec_many_till_nth(i@, c, nth as nat) == prepend_till_result(
                res@,
                spec_many_till_nth(cur@, c, occ as nat),
            ),
        decreases cur@.len(),
    {
        match le_u16(cur) {
            Err(e) => {
                return Err(e);
            },
            Ok((r, v)) => {
                if v == c && occ == 0 {
                    proof {
                        assert(res@ + Seq::<u16>::empty() =~= res@);
                    }
                    return Ok((i, res));
                }
                let ghost next_occ: nat = if v == c { (occ - 1) as nat } else { occ as nat };
                proof {
                    match spec_many_till_nth(r@, c, next_occ) {
                        Ok(vs) => {
                            assert(res@ + (seq![v] + vs) =~= res@.push(v) + vs);
                        },
                        Err(_) => {},
                    }
                }
                if v == c {
                    occ = occ - 1;
                }
                res.push(v);
                cur = r;
            },
        }
    }
}

/// The suffix of `i` beginning at absolute offset `off`, or the error that
/// a read at that offset reports when the offset lies outside the buffer.
pub fn read_at(i: &[u8], off: usize) -> (r: Result<&[u8], ReadAtError>)
    ensures
        match r {
            Ok(rest) => off <= i@.len() && rest@ == i@.skip(off as int),
            Err(e) => off > i@.len() && e == ReadAtError::OutOfRange(off, i@.len() as usize),
        },
{
    if off <= i.len() {
        let rest = &i[off..i.len()];
        assert(rest@ =~= i@.skip(off as int));
        Ok(rest)
    } else {
        Err(ReadAtError::OutOfRange(off, i.len()))
    }
}

} // verus!
