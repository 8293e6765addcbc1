//! The XTC coordinate compression codec and the per-frame record format.
//!
//! A frame is serialized as a fixed header (magic tag, atom count, step,
//! time), the nine box cells, and a compact variable-length coordinate
//! block. The block records the effective precision, the minimum scaled
//! component, and the per-frame byte width that the component range needs;
//! every component then travels as its offset from the minimum in that many
//! big-endian bytes. Parsing is the exact inverse, and the precision used
//! at compression time is recovered from the block itself.
//!
//! A note on interchange: the frame header follows the classic XTC layout
//! (magic tag 1995, then count, step, time and box as canonical big-endian
//! scalars), but the coordinate block is this crate's own fixed-width
//! offset packing, not the legacy bit-level compression scheme, which is a
//! closed format specified separately. Streams written here keep the
//! behavioral contract of that format — the lossiness model, the recorded
//! precision, the error signaling — yet are not byte-compatible with
//! files produced or read by tooling that implements the legacy block.

use vstd::prelude::*;

use crate::xdrfile::XDRFILE;
use crate::xdrfile::XDRStatus;
use crate::xdrfile::be_bytes;
use crate::xdrfile::be_val;
use crate::xdrfile::lemma_be_bytes_len;
use crate::xdrfile::lemma_be_roundtrip;
use crate::xdrfile::lemma_be_val_bound;
use crate::xdrfile::lemma_sign_roundtrip;
use crate::xdrfile::lemma_pow256_unfold;
use crate::xdrfile::matrix;
use crate::xdrfile::pow256;
use crate::xdrfile::rvec;
use crate::xdrfile::s_of_u;
use crate::xdrfile::u_of_s;

verus! {

/// The tag that opens every frame of the container format.
pub const XTC_MAGIC: u32 = 1995;

/// IEEE-754 bit pattern of the default precision factor, 1000.0, which
/// stands in whenever a caller supplies a precision of zero or below.
pub const DEFAULT_PREC_BITS: u32 = 0x447A_0000;

/// Whether a 32-bit float bit pattern stands for a value less than or
/// equal to zero: positive zero, or any negative non-NaN pattern (sign bit
/// set, at or below negative infinity's pattern).
pub open spec fn f32_bits_le_zero(p: u32) -> bool {
    p == 0 || (0x8000_0000 <= p && p <= 0xFF80_0000)
}

/// The precision actually recorded by the compressor: the caller's value,
/// or the default wherever the caller's value is at or below zero.
pub open spec fn eff_prec(p: u32) -> u32 {
    if f32_bits_le_zero(p) {
        DEFAULT_PREC_BITS
    } else {
        p
    }
}

/// The smaller of two integers.
pub open spec fn imin(a: int, b: int) -> int {
    if a <= b {
        a
    } else {
        b
    }
}

/// The larger of two integers.
pub open spec fn imax(a: int, b: int) -> int {
    if a >= b {
        a
    } else {
        b
    }
}

/// The smallest component of one scaled triplet.
pub open spec fn rmin(r: rvec) -> int {
    imin(r.0[0] as int, imin(r.0[1] as int, r.0[2] as int))
}

/// The largest component of one scaled triplet.
pub open spec fn rmax(r: rvec) -> int {
    imax(r.0[0] as int, imax(r.0[1] as int, r.0[2] as int))
}

/// The smallest scaled component over a whole coordinate array.
pub open spec fn cmin(x: Seq<rvec>) -> int
    decreases x.len(),
{
    if x.len() <= 1 {
        rmin(x[0])
    } else {
        imin(cmin(x.drop_last()), rmin(x.last()))
    }
}

/// The largest scaled component over a whole coordinate array.
pub open spec fn cmax(x: Seq<rvec>) -> int
    decreases x.len(),
{
    if x.len() <= 1 {
        rmax(x[0])
    } else {
        imax(cmax(x.drop_last()), rmax(x.last()))
    }
}

/// How many bytes the compressor spends per component for a given
/// component range.
pub open spec fn nbytes_for(range: int) -> nat {
    if range < 0x100 {
        1
    } else if range < 0x1_0000 {
        2
    } else if range < 0x100_0000 {
        3
    } else {
        4
    }
}

/// Whether a value fits a signed 32-bit integer.
pub open spec fn in_i32(v: int) -> bool {
    -0x8000_0000 <= v && v < 0x8000_0000
}

/// Canonical four bytes of a 32-bit unsigned integer.
pub open spec fn enc_u32(v: u32) -> Seq<u8> {
    be_bytes(v as int, 4)
}

/// Canonical four bytes of a 32-bit signed integer, two's complement.
pub open spec fn enc_i32(v: i32) -> Seq<u8> {
    be_bytes(u_of_s(v as int), 4)
}

/// The nine box cells in row-major order.
pub open spec fn mat_view(m: matrix) -> Seq<u32> {
    seq![
        m.0[0][0],
        m.0[0][1],
        m.0[0][2],
        m.0[1][0],
        m.0[1][1],
        m.0[1][2],
        m.0[2][0],
        m.0[2][1],
        m.0[2][2],
    ]
}

/// Canonical bytes of the box matrix: the nine cells in row-major order.
pub open spec fn enc_box(m: matrix) -> Seq<u8> {
    enc_u32(m.0[0][0]) + enc_u32(m.0[0][1]) + enc_u32(m.0[0][2]) + enc_u32(m.0[1][0]) + enc_u32(
        m.0[1][1],
    ) + enc_u32(m.0[1][2]) + enc_u32(m.0[2][0]) + enc_u32(m.0[2][1]) + enc_u32(m.0[2][2])
}

/// The fixed frame header: magic tag, atom count, step, time bits.
pub open spec fn enc_header(natoms: u32, step: i32, time: u32) -> Seq<u8> {
    enc_u32(XTC_MAGIC) + enc_u32(natoms) + enc_i32(step) + enc_u32(time)
}

/// One triplet's components as a flat run of three integers.
pub open spec fn triple_flat(r: rvec) -> Seq<int> {
    seq![r.0[0] as int, r.0[1] as int, r.0[2] as int]
}

/// All scaled components of a coordinate array, flattened in order.
pub open spec fn flat_of(x: Seq<rvec>) -> Seq<int>
    decreases x.len(),
{
    if x.len() == 0 {
        Seq::empty()
    } else {
        flat_of(x.drop_last()) + triple_flat(x.last())
    }
}

/// One triplet's three offsets from the frame minimum, each in `nb` bytes.
pub open spec fn enc_triple(r: rvec, lo: int, nb: nat) -> Seq<u8> {
    be_bytes(r.0[0] - lo, nb) + be_bytes(r.0[1] - lo, nb) + be_bytes(r.0[2] - lo, nb)
}

/// The packed offsets of a whole coordinate array.
pub open spec fn enc_deltas(x: Seq<rvec>, lo: int, nb: nat) -> Seq<u8>
    decreases x.len(),
{
    if x.len() == 0 {
        Seq::empty()
    } else {
        enc_deltas(x.drop_last(), lo, nb) + enc_triple(x.last(), lo, nb)
    }
}

/// The whole compressed coordinate block: triplet count, recorded
/// precision bits, and — when any triplets are present — the minimum
/// component, the per-component byte width, and the packed offsets.
pub open spec fn enc_coord_block(x: Seq<rvec>, prec: u32) -> Seq<u8> {
    be_bytes(x.len() as int, 4) + enc_u32(prec) + if x.len() == 0 {
        Seq::<u8>::empty()
    } else {
        let lo = cmin(x);
        let nb = nbytes_for(cmax(x) - lo);
        be_bytes(u_of_s(lo), 4) + seq![nb as u8] + enc_deltas(x, lo, nb)
    }
}

/// One whole serialized frame.
pub open spec fn enc_frame(step: i32, time: u32, m: matrix, x: Seq<rvec>, prec: u32) -> Seq<u8> {
    enc_header(x.len() as u32, step, time) + enc_box(m) + enc_coord_block(x, prec)
}

/// Outcome of reading a frame header from a byte string.
pub enum HeaderParse {
    Hdr { natoms: u32, step: i32, time: u32 },
    Fail { status: XDRStatus },
}

/// Reads the fixed frame header off the front of a byte string. A string
/// too short to even hold the magic tag is the clean end of the stream;
/// one truncated inside the count or step integers fails as an integer
/// read, one truncated inside the time field as a float read.
pub open spec fn parse_header(s: Seq<u8>) -> HeaderParse {
    if s.len() < 4 {
        HeaderParse::Fail { status: XDRStatus::exdrENDOFFILE }
    } else if be_val(s.subrange(0, 4)) != XTC_MAGIC {
        HeaderParse::Fail { status: XDRStatus::exdrMAGIC }
    } else if s.len() < 12 {
        HeaderParse::Fail { status: XDRStatus::exdrINT }
    } else if s.len() < 16 {
        HeaderParse::Fail { status: XDRStatus::exdrFLOAT }
    } else {
        HeaderParse::Hdr {
            natoms: be_val(s.subrange(4, 8)) as u32,
            step: s_of_u(be_val(s.subrange(8, 12))) as i32,
            time: be_val(s.subrange(12, 16)) as u32,
        }
    }
}

/// Unpacks `n` triplets of `nb`-byte offsets from the front of a byte
/// string, adding back the frame minimum. `None` marks a component that
/// does not fit a signed 32-bit integer.
pub open spec fn parse_deltas(s: Seq<u8>, n: nat, lo: int, nb: nat) -> Option<Seq<int>>
    decreases n,
{
    if n == 0 {
        Some(Seq::empty())
    } else {
        let v0 = lo + be_val(s.subrange(0, nb as int));
        let v1 = lo + be_val(s.subrange(nb as int, 2 * nb as int));
        let v2 = lo + be_val(s.subrange(2 * nb as int, 3 * nb as int));
        if !(in_i32(v0) && in_i32(v1) && in_i32(v2)) {
            None
        } else {
            match parse_deltas(s.skip(3 * nb as int), (n - 1) as nat, lo, nb) {
                None => None,
                Some(r) => Some(seq![v0, v1, v2] + r),
            }
        }
    }
}

/// Outcome of reading a compressed coordinate block from a byte string.
pub enum BlockParse {
    Block { count: u32, prec: u32, coords: Seq<int>, used: int },
    Fail { status: XDRStatus },
}

/// Reads a compressed coordinate block off the front of a byte string.
/// `max` bounds the receiving buffer: a block holding more triplets than
/// `max` is an unrecoverable error for this call.
pub open spec fn parse_coord_block(s: Seq<u8>, max: int) -> BlockParse {
    if s.len() < 8 {
        BlockParse::Fail { status: XDRStatus::exdr3DX }
    } else {
        let cnt = be_val(s.subrange(0, 4));
        let prec = be_val(s.subrange(4, 8)) as u32;
        if cnt > 0x7FFF_FFFF {
            BlockParse::Fail { status: XDRStatus::exdrUINT }
        } else if cnt > max {
            BlockParse::Fail { status: XDRStatus::exdr3DX }
        } else if cnt == 0 {
            BlockParse::Block { count: 0, prec: prec, coords: Seq::empty(), used: 8 }
        } else if s.len() < 13 {
            BlockParse::Fail { status: XDRStatus::exdr3DX }
        } else {
            let lo = s_of_u(be_val(s.subrange(8, 12)));
            let nb = s[12] as int;
            if nb < 1 || nb > 4 {
                BlockParse::Fail { status: XDRStatus::exdr3DX }
            } else if s.len() < 13 + 3 * cnt * nb {
                BlockParse::Fail { status: XDRStatus::exdr3DX }
            } else {
                match parse_deltas(s.subrange(13, 13 + 3 * cnt * nb), cnt as nat, lo, nb as nat) {
                    None => BlockParse::Fail { status: XDRStatus::exdr3DX },
                    Some(c) => BlockParse::Block {
                        count: cnt as u32,
                        prec: prec,
                        coords: c,
                        used: 13 + 3 * cnt * nb,
                    },
                }
            }
        }
    }
}

/// Outcome of reading one whole frame from a byte string.
pub enum FrameParse {
    Frame { step: i32, time: u32, sim_box: Seq<u32>, prec: u32, coords: Seq<int>, used: int },
    Fail { status: XDRStatus },
}

/// The nine box cells read from a serialized frame.
pub open spec fn parse_box(s: Seq<u8>) -> Seq<u32> {
    Seq::new(9, |i: int| be_val(s.subrange(16 + 4 * i, 20 + 4 * i)) as u32)
}

/// Reads one whole frame off the front of a byte string, for a caller
/// expecting `natoms` triplets. A frame carrying any other atom count is a
/// protocol error, not silently tolerated.
pub open spec fn parse_frame(s: Seq<u8>, natoms: u32) -> FrameParse {
    match parse_header(s) {
        HeaderParse::Fail { status } => FrameParse::Fail { status },
        HeaderParse::Hdr { natoms: n0, step, time } => {
            if n0 != natoms {
                FrameParse::Fail { status: XDRStatus::exdrHEADER }
            } else if s.len() < 52 {
                FrameParse::Fail { status: XDRStatus::exdrFLOAT }
            } else {
                match parse_coord_block(s.skip(52), natoms as int) {
                    BlockParse::Fail { status } => FrameParse::Fail { status },
                    BlockParse::Block { count, prec, coords, used } => {
                        if count != natoms {
                            FrameParse::Fail { status: XDRStatus::exdrHEADER }
                        } else {
                            FrameParse::Frame {
                                step,
                                time,
                                sim_box: parse_box(s),
                                prec: prec,
                                coords,
                                used: 52 + used,
                            }
                        }
                    },
                }
            }
        },
    }
}

/// The frame minimum and maximum bound every component, are ordered, and
/// fit a signed 32-bit integer.
pub proof fn lemma_cminmax(x: Seq<rvec>)
    requires
        x.len() >= 1,
    ensures
        in_i32(cmin(x)),
        in_i32(cmax(x)),
        cmin(x) <= cmax(x),
        forall|i: int|
            0 <= i < x.len() ==> cmin(x) <= rmin(#[trigger] x[i]) && rmax(x[i]) <= cmax(x),
    decreases x.len(),
{
    if x.len() > 1 {
        lemma_cminmax(x.drop_last());
        assert forall|i: int|
            0 <= i < x.len() implies cmin(x) <= rmin(#[trigger] x[i]) && rmax(x[i]) <= cmax(
            x,
        ) by {
            if i < x.len() - 1 {
                assert(x.drop_last()[i] == x[i]);
            } else {
                assert(x.last() == x[i]);
            }
        }
    }
}

/// Appending one triplet appends its three components.
pub proof fn lemma_flat_snoc(x: Seq<rvec>, r: rvec)
    ensures
        flat_of(x.push(r)) == flat_of(x) + triple_flat(r),
{
    assert(x.push(r).drop_last() =~= x);
    assert(x.push(r).last() == r);
}

/// The packed offsets occupy exactly `3 * nb` bytes per triplet.
pub proof fn lemma_enc_deltas_len(x: Seq<rvec>, lo: int, nb: nat)
    ensures
        enc_deltas(x, lo, nb).len() == 3 * nb * x.len(),
    decreases x.len(),
{
    if x.len() > 0 {
        lemma_enc_deltas_len(x.drop_last(), lo, nb);
        lemma_be_bytes_len(x.last().0[0] - lo, nb);
        lemma_be_bytes_len(x.last().0[1] - lo, nb);
        lemma_be_bytes_len(x.last().0[2] - lo, nb);
        let m = x.len() as int;
        assert(3 * nb * (m - 1) + 3 * nb == 3 * nb * m) by (nonlinear_arith);
    }
}

/// Exec mirror of `rmin`.
fn rvec_min(r: rvec) -> (v: i32)
    ensures
        v as int == rmin(r),
{
    let mut m = r.0[0];
    if r.0[1] < m {
        m = r.0[1];
    }
    if r.0[2] < m {
        m = r.0[2];
    }
    m
}

/// Exec mirror of `rmax`.
fn rvec_max(r: rvec) -> (v: i32)
    ensures
        v as int == rmax(r),
{
    let mut m = r.0[0];
    if r.0[1] > m {
        m = r.0[1];
    }
    if r.0[2] > m {
        m = r.0[2];
    }
    m
}

/// Exec mirror of `nbytes_for`, with the width's capacity bound.
fn nbytes_of(range: u64) -> (nb: usize)
    requires
        range < 0x1_0000_0000,
    ensures
        nb as nat == nbytes_for(range as int),
        1 <= nb <= 4,
        range < pow256(nb as nat),
{
    proof {
        lemma_pow256_unfold();
    }
    if range < 0x100 {
        1
    } else if range < 0x1_0000 {
        2
    } else if range < 0x100_0000 {
        3
    } else {
        4
    }
}

/// Exec mirror of `eff_prec`.
pub fn effective_prec(p: u32) -> (r: u32)
    ensures
        r == eff_prec(p),
{
    if p == 0 || (p >= 0x8000_0000 && p <= 0xFF80_0000) {
        DEFAULT_PREC_BITS
    } else {
        p
    }
}

/// Compress a coordinate array onto the stream.
///
/// On success the stream grows by exactly the canonical coordinate block
/// for these triplets and the effective precision. A triplet count that
/// does not fit the codec's signed 32-bit count type is rejected before
/// anything is written.
pub fn compress_coords(file: &mut XDRFILE, x: &Vec<rvec>, prec: u32) -> (r: Result<
    (),
    XDRStatus,
>)
    requires
        old(file).at_end(),
    ensures
        x@.len() > 0x7FFF_FFFF ==> r == Err::<(), XDRStatus>(XDRStatus::exdrUINT) && *final(file)
            == *old(file),
        x@.len() <= 0x7FFF_FFFF ==> r == Ok::<(), XDRStatus>(()) && final(file).data@ == old(
            file,
        ).data@ + enc_coord_block(x@, eff_prec(prec)) && final(file).at_end(),
{
    let n = x.len();
    if n > 0x7FFF_FFFF {
        return Err(XDRStatus::exdrUINT);
    }
    let ghost data0 = file.data@;
    proof {
        lemma_pow256_unfold();
    }
    file.write_uint(n as u32);
    let ep = effective_prec(prec);
    file.write_uint(ep);
    if n == 0 {
        proof {
            assert(file.data@ =~= data0 + enc_coord_block(x@, eff_prec(prec)));
        }
        return Ok(());
    }
    let mut lo = rvec_min(x[0]);
    let mut hi = rvec_max(x[0]);
    proof {
        assert(x@.take(1)[0] == x@[0]);
    }
    let mut k: usize = 1;
    while k < n
        invariant
            1 <= k <= n,
            n == x@.len(),
            lo as int == cmin(x@.take(k as int)),
            hi as int == cmax(x@.take(k as int)),
        decreases n - k,
    {
        let l = rvec_min(x[k]);
        let h = rvec_max(x[k]);
        proof {
            assert(x@.take(k as int + 1).drop_last() =~= x@.take(k as int));
            assert(x@.take(k as int + 1).last() == x@[k as int]);
        }
        if l < lo {
            lo = l;
        }
        if h > hi {
            hi = h;
        }
        k = k + 1;
    }
    proof {
        assert(x@.take(n as int) =~= x@);
        lemma_cminmax(x@);
    }
    let range = ((hi as i64) - (lo as i64)) as u64;
    let nb = nbytes_of(range);
    file.write_int(lo);
    file.write_byte(nb as u8);
    let ghost base = file.data@;
    let mut i: usize = 0;
    while i < n
        invariant
            0 <= i <= n,
            n == x@.len(),
            n <= 0x7FFF_FFFF,
            file.at_end(),
            lo as int == cmin(x@),
            hi as int == cmax(x@),
            1 <= nb <= 4,
            (hi as int - lo as int) < pow256(nb as nat),
            file.data@ == base + enc_deltas(x@.take(i as int), lo as int, nb as nat),
        decreases n - i,
    {
        proof {
            lemma_cminmax(x@);
        }
        let r = x[i];
        let d0 = ((r.0[0] as i64) - (lo as i64)) as u64;
        let d1 = ((r.0[1] as i64) - (lo as i64)) as u64;
        let d2 = ((r.0[2] as i64) - (lo as i64)) as u64;
        file.write_be(d0, nb);
        file.write_be(d1, nb);
        file.write_be(d2, nb);
        proof {
            assert(x@.take(i as int + 1).drop_last() =~= x@.take(i as int));
            assert(x@.take(i as int + 1).last() == x@[i as int]);
            assert(file.data@ =~= base + enc_deltas(x@.take(i as int + 1), lo as int, nb as nat));
        }
        i = i + 1;
    }
    proof {
        assert(x@.take(n as int) =~= x@);
        assert(file.data@ =~= data0 + enc_coord_block(x@, eff_prec(prec)));
    }
    Ok(())
}

/// Prepends an already-unpacked run to the outcome of unpacking the rest.
pub open spec fn opt_cat(p: Seq<int>, o: Option<Seq<int>>) -> Option<Seq<int>> {
    match o {
        None => None,
        Some(r) => Some(p + r),
    }
}

/// Decompress a coordinate block from the stream into `out`.
///
/// `max` bounds the receiving buffer; a block holding more triplets is an
/// unrecoverable error for this call, so callers should learn the atom
/// count in advance and size the buffer accordingly. On success `out`
/// holds exactly the block's triplets and the precision recorded at
/// compression time is returned; on failure `out` is left empty, so no
/// stale triplet from an earlier call can be mistaken for fresh data.
#[verifier::loop_isolation(false)]
#[verifier::rlimit(100)]
pub fn decompress_coords(file: &mut XDRFILE, max: usize, out: &mut Vec<rvec>) -> (r: Result<
    (usize, u32),
    XDRStatus,
>)
    requires
        old(file).wf(),
    ensures
        final(file).data@ == old(file).data@,
        final(file).wf(),
        match parse_coord_block(old(file).rem(), max as int) {
            BlockParse::Block { count, prec, coords, used } => {
                &&& r == Ok::<(usize, u32), XDRStatus>((count as usize, prec))
                &&& flat_of(final(out)@) == coords
                &&& final(out)@.len() == count
                &&& final(file).pos == old(file).pos + used
            },
            BlockParse::Fail { status } => {
                &&& r == Err::<(usize, u32), XDRStatus>(status)
                &&& final(out)@.len() == 0
            },
        },
{
    let ghost s = old(file).rem();
    let ghost pos0 = old(file).pos as int;
    let ghost data = old(file).data@;
    out.clear();
    let cnt32 = match file.read_uint() {
        None => { return Err(XDRStatus::exdr3DX); },
        Some(c) => c,
    };
    let prec = match file.read_uint() {
        None => { return Err(XDRStatus::exdr3DX); },
        Some(p) => p,
    };
    proof {
        assert(s.subrange(0, 4) =~= data.subrange(pos0, pos0 + 4));
        assert(s.subrange(4, 8) =~= data.subrange(pos0 + 4, pos0 + 8));
    }
    if cnt32 > 0x7FFF_FFFFu32 {
        return Err(XDRStatus::exdrUINT);
    }
    let cnt = cnt32 as usize;
    if cnt > max {
        return Err(XDRStatus::exdr3DX);
    }
    if cnt == 0 {
        return Ok((0, prec));
    }
    let lo = match file.read_int() {
        None => { return Err(XDRStatus::exdr3DX); },
        Some(v) => v,
    };
    proof {
        assert(s.subrange(8, 12) =~= data.subrange(pos0 + 8, pos0 + 12));
    }
    let nb8 = match file.read_byte() {
        None => { return Err(XDRStatus::exdr3DX); },
        Some(b) => b,
    };
    proof {
        assert(s[12] == data[pos0 + 12]);
    }
    if nb8 < 1 || nb8 > 4 {
        return Err(XDRStatus::exdr3DX);
    }
    let nb = nb8 as usize;
    proof {
        assert(3 * (cnt as int) * (nb as int) <= 3 * 0x7FFF_FFFF * 4) by (nonlinear_arith)
            requires
                0 <= cnt as int <= 0x7FFF_FFFF,
                1 <= nb as int <= 4,
        ;
        assert(3 * (cnt as int) * (nb as int) >= 0) by (nonlinear_arith)
            requires
                0 <= cnt as int,
                1 <= nb as int,
        ;
    }
    let needed: u64 = 3u64 * (cnt as u64) * (nb as u64);
    let avail: u64 = (file.data.len() - file.pos) as u64;
    if avail < needed {
        proof {
            assert(s.len() < 13 + 3 * (cnt32 as int) * (nb as int));
        }
        return Err(XDRStatus::exdr3DX);
    }
    let ghost cnt_i = cnt32 as int;
    let ghost nb_i = nb as int;
    let ghost sd = s.subrange(13, 13 + 3 * cnt_i * nb_i);
    proof {
        assert(s.len() >= 13 + 3 * cnt_i * nb_i);
        lemma_pow256_unfold();
        assert(3 * (0 as int) * nb_i == 0) by (nonlinear_arith);
        assert(sd.skip(0) =~= sd);
        assert(flat_of(out@) =~= Seq::<int>::empty());
        let pd = parse_deltas(sd, cnt_i as nat, lo as int, nb_i as nat);
        if pd is Some {
            assert(Seq::<int>::empty() + pd->0 =~= pd->0);
        }
    }
    let lo64 = lo as i64;
    let mut k: usize = 0;
    while k < cnt
        invariant
            0 <= k <= cnt,
            cnt == cnt_i,
            1 <= nb <= 4,
            nb == nb_i,
            file.data@ == data,
            file.pos == pos0 + 13 + 3 * (k as int) * nb_i,
            pos0 + 13 + 3 * cnt_i * nb_i <= data.len(),
            lo64 == lo as i64,
            out@.len() == k,
            sd == s.subrange(13, 13 + 3 * cnt_i * nb_i),
            s == data.skip(pos0),
            parse_deltas(sd, cnt_i as nat, lo as int, nb_i as nat) == opt_cat(
                flat_of(out@),
                parse_deltas(
                    sd.skip(3 * (k as int) * nb_i),
                    (cnt_i - k) as nat,
                    lo as int,
                    nb_i as nat,
                ),
            ),
        decreases cnt - k,
    {
        proof {
            assert(3 * ((k + 1) as int) * nb_i == 3 * (k as int) * nb_i + 3 * nb_i)
                by (nonlinear_arith);
            assert(3 * ((k + 1) as int) * nb_i <= 3 * cnt_i * nb_i) by (nonlinear_arith)
                requires
                    (k + 1) as int <= cnt_i,
                    nb_i >= 1,
            ;
            assert(3 * (k as int) * nb_i >= 0) by (nonlinear_arith)
                requires
                    k as int >= 0,
                    nb_i >= 1,
            ;
        }
        let ghost off = 3 * (k as int) * nb_i;
        let ghost tail = sd.skip(off);
        proof {
            assert(sd =~= data.subrange(pos0 + 13, pos0 + 13 + 3 * cnt_i * nb_i));
            assert(tail =~= data.subrange(pos0 + 13 + off, pos0 + 13 + 3 * cnt_i * nb_i));
        }
        let d0 = file.read_be(nb);
        let d1 = file.read_be(nb);
        let d2 = file.read_be(nb);
        proof {
            assert(tail.subrange(0, nb_i) =~= data.subrange(
                pos0 + 13 + off,
                pos0 + 13 + off + nb_i,
            ));
            assert(tail.subrange(nb_i, 2 * nb_i) =~= data.subrange(
                pos0 + 13 + off + nb_i,
                pos0 + 13 + off + 2 * nb_i,
            ));
            assert(tail.subrange(2 * nb_i, 3 * nb_i) =~= data.subrange(
                pos0 + 13 + off + 2 * nb_i,
                pos0 + 13 + off + 3 * nb_i,
            ));
            lemma_be_val_bound(tail.subrange(0, nb_i));
            lemma_be_val_bound(tail.subrange(nb_i, 2 * nb_i));
            lemma_be_val_bound(tail.subrange(2 * nb_i, 3 * nb_i));
            lemma_pow256_unfold();
        }
        let v0 = lo64 + (d0 as i64);
        let v1 = lo64 + (d1 as i64);
        let v2 = lo64 + (d2 as i64);
        proof {
            assert(v0 as int == lo as int + be_val(tail.subrange(0, nb_i)));
            assert(v1 as int == lo as int + be_val(tail.subrange(nb_i, 2 * nb_i)));
            assert(v2 as int == lo as int + be_val(tail.subrange(2 * nb_i, 3 * nb_i)));
        }
        if v0 < -0x8000_0000i64 || v0 > 0x7FFF_FFFFi64 || v1 < -0x8000_0000i64 || v1
            > 0x7FFF_FFFFi64 || v2 < -0x8000_0000i64 || v2 > 0x7FFF_FFFFi64 {
            proof {
                assert(parse_deltas(tail, (cnt_i - k) as nat, lo as int, nb_i as nat) is None);
            }
            out.clear();
            return Err(XDRStatus::exdr3DX);
        }
        let ghost outg = out@;
        out.push(rvec([v0 as i32, v1 as i32, v2 as i32]));
        proof {
            let rv = rvec([v0 as i32, v1 as i32, v2 as i32]);
            lemma_flat_snoc(outg, rv);
            assert(triple_flat(rv) =~= seq![v0 as int, v1 as int, v2 as int]);
            assert(tail.skip(3 * nb_i) =~= sd.skip(3 * ((k + 1) as int) * nb_i));
            let pd2 = parse_deltas(
                sd.skip(3 * ((k + 1) as int) * nb_i),
                (cnt_i - (k + 1)) as nat,
                lo as int,
                nb_i as nat,
            );
            if pd2 is Some {
                assert(parse_deltas(tail, (cnt_i - k) as nat, lo as int, nb_i as nat) == Some(
                    seq![v0 as int, v1 as int, v2 as int] + pd2->0,
                ));
                assert(flat_of(outg) + (seq![v0 as int, v1 as int, v2 as int] + pd2->0) =~= (
                flat_of(outg) + seq![v0 as int, v1 as int, v2 as int]) + pd2->0);
            }
        }
        k = k + 1;
    }
    proof {
        assert(sd.skip(3 * cnt_i * nb_i) =~= Seq::<u8>::empty());
        assert(flat_of(out@) + Seq::<int>::empty() =~= flat_of(out@));
    }
    Ok((cnt, prec))
}

/// The packed offsets unfold from the front: first triplet, then the rest.
proof fn lemma_enc_deltas_first(x: Seq<rvec>, lo: int, nb: nat)
    requires
        x.len() > 0,
    ensures
        enc_deltas(x, lo, nb) == enc_triple(x[0], lo, nb) + enc_deltas(x.skip(1), lo, nb),
    decreases x.len(),
{
    if x.len() == 1 {
        assert(x.last() == x[0]);
        assert(x.drop_last().len() == 0);
        assert(enc_deltas(x.drop_last(), lo, nb) == Seq::<u8>::empty());
        assert(x.skip(1).len() == 0);
        assert(enc_deltas(x.skip(1), lo, nb) == Seq::<u8>::empty());
        assert(Seq::<u8>::empty() + enc_triple(x[0], lo, nb) =~= enc_triple(x[0], lo, nb)
            + Seq::<u8>::empty());
    } else {
        lemma_enc_deltas_first(x.drop_last(), lo, nb);
        assert(x.drop_last()[0] == x[0]);
        assert(x.drop_last().skip(1) =~= x.skip(1).drop_last());
        assert(x.skip(1).last() == x.last());
        let t0 = enc_triple(x[0], lo, nb);
        let tl = enc_triple(x.last(), lo, nb);
        let mid = enc_deltas(x.skip(1).drop_last(), lo, nb);
        assert(enc_deltas(x, lo, nb) == enc_deltas(x.drop_last(), lo, nb) + tl);
        assert(enc_deltas(x.drop_last(), lo, nb) == t0 + mid);
        assert(enc_deltas(x.skip(1), lo, nb) == mid + tl);
        assert((t0 + mid) + tl =~= t0 + (mid + tl));
    }
}

/// A flattened coordinate array unfolds from the front: first triplet's
/// components, then the rest.
proof fn lemma_flat_first(x: Seq<rvec>)
    requires
        x.len() > 0,
    ensures
        flat_of(x) == triple_flat(x[0]) + flat_of(x.skip(1)),
    decreases x.len(),
{
    if x.len() == 1 {
        assert(x.last() == x[0]);
        assert(x.drop_last().len() == 0);
        assert(flat_of(x.drop_last()) == Seq::<int>::empty());
        assert(x.skip(1).len() == 0);
        assert(flat_of(x.skip(1)) == Seq::<int>::empty());
        assert(Seq::<int>::empty() + triple_flat(x[0]) =~= triple_flat(x[0])
            + Seq::<int>::empty());
    } else {
        lemma_flat_first(x.drop_last());
        assert(x.drop_last()[0] == x[0]);
        assert(x.drop_last().skip(1) =~= x.skip(1).drop_last());
        assert(x.skip(1).last() == x.last());
        let t0 = triple_flat(x[0]);
        let tl = triple_flat(x.last());
        let mid = flat_of(x.skip(1).drop_last());
        assert(flat_of(x) == flat_of(x.drop_last()) + tl);
        assert(flat_of(x.drop_last()) == t0 + mid);
        assert(flat_of(x.skip(1)) == mid + tl);
        assert((t0 + mid) + tl =~= t0 + (mid + tl));
    }
}

/// Unpacking inverts packing: offsets written for components that fit the
/// chosen byte width come back as exactly the original components.
#[verifier::rlimit(100)]
proof fn lemma_parse_deltas_of_enc(x: Seq<rvec>, lo: int, nb: nat)
    requires
        1 <= nb <= 4,
        in_i32(lo),
        forall|i: int|
            0 <= i < x.len() ==> lo <= rmin(#[trigger] x[i]) && (rmax(x[i]) - lo) < pow256(nb),
    ensures
        parse_deltas(enc_deltas(x, lo, nb), x.len(), lo, nb) == Some(flat_of(x)),
    decreases x.len(),
{
    lemma_enc_deltas_len(x, lo, nb);
    if x.len() == 0 {
        assert(flat_of(x) =~= Seq::<int>::empty());
    } else {
        lemma_enc_deltas_first(x, lo, nb);
        lemma_flat_first(x);
        let e = enc_deltas(x, lo, nb);
        let r0 = x[0];
        lemma_be_bytes_len(r0.0[0] - lo, nb);
        lemma_be_bytes_len(r0.0[1] - lo, nb);
        lemma_be_bytes_len(r0.0[2] - lo, nb);
        lemma_enc_deltas_len(x.skip(1), lo, nb);
        assert(e.subrange(0, nb as int) =~= be_bytes(r0.0[0] - lo, nb));
        assert(e.subrange(nb as int, 2 * nb as int) =~= be_bytes(r0.0[1] - lo, nb));
        assert(e.subrange(2 * nb as int, 3 * nb as int) =~= be_bytes(r0.0[2] - lo, nb));
        lemma_be_roundtrip(r0.0[0] - lo, nb);
        lemma_be_roundtrip(r0.0[1] - lo, nb);
        lemma_be_roundtrip(r0.0[2] - lo, nb);
        assert(e.skip(3 * nb as int) =~= enc_deltas(x.skip(1), lo, nb));
        assert(forall|i: int| 0 <= i < x.skip(1).len() ==> x.skip(1)[i] == x[i + 1]);
        lemma_parse_deltas_of_enc(x.skip(1), lo, nb);
        assert(triple_flat(r0) =~= seq![r0.0[0] as int, r0.0[1] as int, r0.0[2] as int]);
        assert(parse_deltas(e, x.len(), lo, nb) == Some(flat_of(x)));
    }
}

/// Decompression inverts compression: a coordinate block written for any
/// triplet array that the codec's count type can carry parses back to
/// exactly the same scaled components and the same recorded precision,
/// consuming exactly the block's bytes, whatever follows on the stream.
pub proof fn lemma_block_roundtrip(x: Seq<rvec>, prec: u32, tail: Seq<u8>, max: int)
    requires
        x.len() <= 0x7FFF_FFFF,
        x.len() <= max,
    ensures
        parse_coord_block(enc_coord_block(x, prec) + tail, max) == (BlockParse::Block {
            count: x.len() as u32,
            prec: prec,
            coords: flat_of(x),
            used: enc_coord_block(x, prec).len() as int,
        }),
{
    let e = enc_coord_block(x, prec);
    let s = e + tail;
    lemma_pow256_unfold();
    lemma_be_bytes_len(x.len() as int, 4);
    lemma_be_bytes_len(prec as int, 4);
    lemma_be_roundtrip(x.len() as int, 4);
    lemma_be_roundtrip(prec as int, 4);
    if x.len() == 0 {
        assert(e.len() == 8);
        assert(s.subrange(0, 4) =~= be_bytes(x.len() as int, 4));
        assert(s.subrange(4, 8) =~= be_bytes(prec as int, 4));
        assert(flat_of(x) =~= Seq::<int>::empty());
    } else {
        lemma_cminmax(x);
        let lo = cmin(x);
        let nb = nbytes_for(cmax(x) - lo);
        lemma_sign_roundtrip(lo);
        lemma_be_bytes_len(u_of_s(lo), 4);
        lemma_be_roundtrip(u_of_s(lo), 4);
        lemma_enc_deltas_len(x, lo, nb);
        let n = x.len() as int;
        assert(3 * (nb as int) * n == 3 * n * (nb as int)) by (nonlinear_arith);
        assert(e.len() == 13 + 3 * n * (nb as int));
        assert(s.subrange(0, 4) =~= be_bytes(x.len() as int, 4));
        assert(s.subrange(4, 8) =~= be_bytes(prec as int, 4));
        assert(s.subrange(8, 12) =~= be_bytes(u_of_s(lo), 4));
        assert(s[12] == nb as u8);
        assert(1 <= nb <= 4);
        assert(s.subrange(13, 13 + 3 * n * (nb as int)) =~= enc_deltas(x, lo, nb));
        assert forall|i: int|
            0 <= i < x.len() implies lo <= rmin(#[trigger] x[i]) && (rmax(x[i]) - lo) < pow256(
            nb,
        ) by {
            assert(cmin(x) <= rmin(x[i]) && rmax(x[i]) <= cmax(x));
        }
        lemma_parse_deltas_of_enc(x, lo, nb);
    }
}

/// Round-trip of one frame: writing a frame with any atom count the codec
/// can carry, any step, time, box, and any recorded precision, then
/// parsing the stream, recovers the step, time bits, box bits and
/// precision bits bit-for-bit and every scaled coordinate exactly,
/// consuming exactly the frame's bytes, whatever follows on the stream.
#[verifier::rlimit(100)]
pub proof fn lemma_frame_roundtrip(
    step: i32,
    time: u32,
    m: matrix,
    x: Seq<rvec>,
    p: u32,
    tail: Seq<u8>,
)
    requires
        x.len() <= 0x7FFF_FFFF,
    ensures
        parse_frame(enc_frame(step, time, m, x, p) + tail, x.len() as u32) == (FrameParse::Frame {
            step: step,
            time: time,
            sim_box: mat_view(m),
            prec: p,
            coords: flat_of(x),
            used: enc_frame(step, time, m, x, p).len() as int,
        }),
{
    let e = enc_frame(step, time, m, x, p);
    let s = e + tail;
    let eb = enc_coord_block(x, p);
    lemma_pow256_unfold();
    lemma_be_bytes_len(XTC_MAGIC as int, 4);
    lemma_be_bytes_len(x.len() as int, 4);
    lemma_be_bytes_len(u_of_s(step as int), 4);
    lemma_be_bytes_len(time as int, 4);
    lemma_be_roundtrip(XTC_MAGIC as int, 4);
    lemma_be_roundtrip(x.len() as int, 4);
    lemma_sign_roundtrip(step as int);
    lemma_be_roundtrip(u_of_s(step as int), 4);
    lemma_be_roundtrip(time as int, 4);
    assert(s.subrange(0, 4) =~= be_bytes(XTC_MAGIC as int, 4));
    assert(s.subrange(4, 8) =~= be_bytes(x.len() as int, 4));
    assert(s.subrange(8, 12) =~= be_bytes(u_of_s(step as int), 4));
    assert(s.subrange(12, 16) =~= be_bytes(time as int, 4));
    let bx = mat_view(m);
    assert(bx.len() == 9);
    lemma_be_bytes_len(bx[0] as int, 4);
    lemma_be_bytes_len(bx[1] as int, 4);
    lemma_be_bytes_len(bx[2] as int, 4);
    lemma_be_bytes_len(bx[3] as int, 4);
    lemma_be_bytes_len(bx[4] as int, 4);
    lemma_be_bytes_len(bx[5] as int, 4);
    lemma_be_bytes_len(bx[6] as int, 4);
    lemma_be_bytes_len(bx[7] as int, 4);
    lemma_be_bytes_len(bx[8] as int, 4);
    assert(s.subrange(16, 20) =~= be_bytes(bx[0] as int, 4));
    assert(s.subrange(20, 24) =~= be_bytes(bx[1] as int, 4));
    assert(s.subrange(24, 28) =~= be_bytes(bx[2] as int, 4));
    assert(s.subrange(28, 32) =~= be_bytes(bx[3] as int, 4));
    assert(s.subrange(32, 36) =~= be_bytes(bx[4] as int, 4));
    assert(s.subrange(36, 40) =~= be_bytes(bx[5] as int, 4));
    assert(s.subrange(40, 44) =~= be_bytes(bx[6] as int, 4));
    assert(s.subrange(44, 48) =~= be_bytes(bx[7] as int, 4));
    assert(s.subrange(48, 52) =~= be_bytes(bx[8] as int, 4));
    lemma_be_roundtrip(bx[0] as int, 4);
    lemma_be_roundtrip(bx[1] as int, 4);
    lemma_be_roundtrip(bx[2] as int, 4);
    lemma_be_roundtrip(bx[3] as int, 4);
    lemma_be_roundtrip(bx[4] as int, 4);
    lemma_be_roundtrip(bx[5] as int, 4);
    lemma_be_roundtrip(bx[6] as int, 4);
    lemma_be_roundtrip(bx[7] as int, 4);
    lemma_be_roundtrip(bx[8] as int, 4);
    assert(parse_box(s) =~= bx);
    assert(s.skip(52) =~= eb + tail);
    lemma_block_roundtrip(x, p, tail, x.len() as int);
    assert(e.len() == 52 + eb.len());
}

/// One frame's data as handed to the writer, with the precision already
/// the recorded (effective) value.
pub struct FrameRec {
    pub step: i32,
    pub time: u32,
    pub sim_box: matrix,
    pub x: Seq<rvec>,
    pub prec: u32,
}

/// The canonical bytes of a run of frames, in order.
pub open spec fn enc_frames(fs: Seq<FrameRec>) -> Seq<u8>
    decreases fs.len(),
{
    if fs.len() == 0 {
        Seq::empty()
    } else {
        enc_frame(fs[0].step, fs[0].time, fs[0].sim_box, fs[0].x, fs[0].prec) + enc_frames(
            fs.skip(1),
        )
    }
}

/// Multi-frame ordering: on a stream holding a run of frames, parsing
/// returns the first frame exactly and leaves precisely the encoding of
/// the remaining run, so sequential reads recover the frames in the order
/// they were written; and parsing an exhausted stream yields the
/// end-of-stream signal, not a fault.
pub proof fn lemma_stream_roundtrip(fs: Seq<FrameRec>, natoms: u32)
    requires
        natoms <= 0x7FFF_FFFF,
        forall|k: int| 0 <= k < fs.len() ==> (#[trigger] fs[k]).x.len() == natoms,
    ensures
        fs.len() == 0 ==> parse_frame(enc_frames(fs), natoms) == (FrameParse::Fail {
            status: XDRStatus::exdrENDOFFILE,
        }),
        fs.len() > 0 ==> parse_frame(enc_frames(fs), natoms) == (FrameParse::Frame {
            step: fs[0].step,
            time: fs[0].time,
            sim_box: mat_view(fs[0].sim_box),
            prec: fs[0].prec,
            coords: flat_of(fs[0].x),
            used: enc_frame(fs[0].step, fs[0].time, fs[0].sim_box, fs[0].x, fs[0].prec).len() as int,
        }) && enc_frames(fs).skip(
            enc_frame(fs[0].step, fs[0].time, fs[0].sim_box, fs[0].x, fs[0].prec).len() as int,
        ) == enc_frames(fs.skip(1)),
{
    if fs.len() > 0 {
        let f0 = fs[0];
        let e0 = enc_frame(f0.step, f0.time, f0.sim_box, f0.x, f0.prec);
        lemma_frame_roundtrip(f0.step, f0.time, f0.sim_box, f0.x, f0.prec, enc_frames(fs.skip(1)));
        assert(enc_frames(fs).skip(e0.len() as int) =~= enc_frames(fs.skip(1)));
    }
}

/// Read the fixed header of the frame ahead of the cursor: atom count,
/// step, and time bits. A stream already at its end is the expected
/// end-of-stream signal, not a fault.
pub fn read_xtc_header(file: &mut XDRFILE) -> (r: Result<(u32, i32, u32), XDRStatus>)
    requires
        old(file).wf(),
    ensures
        final(file).data@ == old(file).data@,
        final(file).wf(),
        match parse_header(old(file).rem()) {
            HeaderParse::Hdr { natoms, step, time } => {
                &&& r == Ok::<(u32, i32, u32), XDRStatus>((natoms, step, time))
                &&& final(file).pos == old(file).pos + 16
            },
            HeaderParse::Fail { status } => r == Err::<(u32, i32, u32), XDRStatus>(status),
        },
{
    let ghost s = old(file).rem();
    let ghost pos0 = old(file).pos as int;
    let ghost data = old(file).data@;
    if file.data.len() - file.pos < 4 {
        return Err(XDRStatus::exdrENDOFFILE);
    }
    let magic = file.read_uint().unwrap();
    proof {
        assert(s.subrange(0, 4) =~= data.subrange(pos0, pos0 + 4));
    }
    if magic != XTC_MAGIC {
        return Err(XDRStatus::exdrMAGIC);
    }
    if file.data.len() - file.pos < 8 {
        return Err(XDRStatus::exdrINT);
    }
    if file.data.len() - file.pos < 12 {
        return Err(XDRStatus::exdrFLOAT);
    }
    let natoms = file.read_uint().unwrap();
    let step = file.read_int().unwrap();
    let time = file.read_uint().unwrap();
    proof {
        assert(s.subrange(4, 8) =~= data.subrange(pos0 + 4, pos0 + 8));
        assert(s.subrange(8, 12) =~= data.subrange(pos0 + 8, pos0 + 12));
        assert(s.subrange(12, 16) =~= data.subrange(pos0 + 12, pos0 + 16));
        lemma_be_val_bound(s.subrange(8, 12));
        lemma_pow256_unfold();
    }
    Ok((natoms, step, time))
}

/// Serialize one whole frame onto the stream: header, box, compressed
/// coordinates.
///
/// On success the stream grows by exactly the frame's canonical bytes; a
/// coordinate count that the codec's signed 32-bit count type cannot
/// carry is rejected with nothing written, so no truncated frame ever
/// reaches the stream.
pub fn write_xtc_frame(
    file: &mut XDRFILE,
    step: i32,
    time: u32,
    sim_box: &matrix,
    x: &Vec<rvec>,
    prec: u32,
) -> (r: Result<(), XDRStatus>)
    requires
        old(file).at_end(),
    ensures
        x@.len() > 0x7FFF_FFFF ==> r == Err::<(), XDRStatus>(XDRStatus::exdrUINT) && *final(file)
            == *old(file),
        x@.len() <= 0x7FFF_FFFF ==> r == Ok::<(), XDRStatus>(()) && final(file).data@ == old(
            file,
        ).data@ + enc_frame(step, time, *sim_box, x@, eff_prec(prec)) && final(file).at_end(),
{
    let n = x.len();
    if n > 0x7FFF_FFFF {
        return Err(XDRStatus::exdrUINT);
    }
    let ghost data0 = file.data@;
    file.write_uint(XTC_MAGIC);
    file.write_uint(n as u32);
    file.write_int(step);
    file.write_uint(time);
    file.write_uint(sim_box.0[0][0]);
    file.write_uint(sim_box.0[0][1]);
    file.write_uint(sim_box.0[0][2]);
    file.write_uint(sim_box.0[1][0]);
    file.write_uint(sim_box.0[1][1]);
    file.write_uint(sim_box.0[1][2]);
    file.write_uint(sim_box.0[2][0]);
    file.write_uint(sim_box.0[2][1]);
    file.write_uint(sim_box.0[2][2]);
    let ghost with_hdr = file.data@;
    proof {
        assert(with_hdr =~= data0 + enc_header(x@.len() as u32, step, time) + enc_box(*sim_box));
    }
    match compress_coords(file, x, prec) {
        Err(e) => {
            proof {
                assert(false);
            }
            Err(e)
        },
        Ok(()) => {
            proof {
                assert(file.data@ =~= data0 + enc_frame(step, time, *sim_box, x@, eff_prec(prec)));
            }
            Ok(())
        },
    }
}

} // verus!
