//! The canonical primitive encoder/decoder: an in-memory XDR-style stream.
//!
//! Every multi-byte scalar is serialized big-endian, independent of the
//! host. The stream is a byte buffer with a cursor; writers append at the
//! end, readers advance the cursor and report a short read as a failure
//! rather than padding it.

use vstd::prelude::*;

verus! {

/// Status and error codes of the codec, mirroring the classic XDR file
/// taxonomy. `exdrENDOFFILE` is the expected terminal signal of sequential
/// reading, not a fault.
#[allow(non_camel_case_types)]
#[derive(Debug, Copy, Clone, Eq, PartialEq, Structural)]
pub enum XDRStatus {
    exdrOK,
    exdrHEADER,
    exdrSTRING,
    exdrDOUBLE,
    exdrINT,
    exdrFLOAT,
    exdrUINT,
    exdr3DX,
    exdrCLOSE,
    exdrMAGIC,
    exdrNOMEM,
    exdrENDOFFILE,
    exdrFILENOTFOUND,
    exdrNR,
}

/// Number of spatial dimensions of a coordinate triplet.
pub const DIM: usize = 3;

/// One atom's position as precision-scaled integer components: each entry
/// is the original coordinate multiplied by the precision factor and
/// rounded to the nearest integer (the lossy step of the codec, performed
/// by the caller before the triplet reaches the stream).
#[allow(non_camel_case_types)]
#[derive(Debug, Clone, Copy, PartialEq)]
pub struct rvec(pub [i32; 3]);

impl rvec {
    /// The origin triplet.
    pub fn new() -> (r: rvec)
        ensures
            r.0[0] == 0i32 && r.0[1] == 0i32 && r.0[2] == 0i32,
    {
        rvec([0i32; 3])
    }
}

/// The 3x3 periodic-box matrix, row-major, each cell carried as the IEEE-754
/// bit pattern of a 32-bit float. The codec stores and returns the cells
/// bit-for-bit and never interprets them numerically.
#[allow(non_camel_case_types)]
#[derive(Debug, Clone, Copy, PartialEq)]
pub struct matrix(pub [[u32; 3]; 3]);

impl matrix {
    /// The all-zero matrix.
    pub fn new() -> (m: matrix)
        ensures
            forall|i: int, j: int| 0 <= i < 3 && 0 <= j < 3 ==> m.0[i][j] == 0u32,
    {
        matrix([[0u32; 3]; 3])
    }
}

/// 256 to the `n`th power: the number of values `n` bytes can carry.
pub open spec fn pow256(n: nat) -> int
    decreases n,
{
    if n == 0 {
        1
    } else {
        256 * pow256((n - 1) as nat)
    }
}

/// The big-endian encoding of `v` in `n` bytes (most significant first).
pub open spec fn be_bytes(v: int, n: nat) -> Seq<u8>
    decreases n,
{
    if n == 0 {
        Seq::empty()
    } else {
        be_bytes(v / 256, (n - 1) as nat).push((v % 256) as u8)
    }
}

/// The value a big-endian byte string stands for.
pub open spec fn be_val(s: Seq<u8>) -> int
    decreases s.len(),
{
    if s.len() == 0 {
        0
    } else {
        256 * be_val(s.drop_last()) + s.last()
    }
}

/// The unsigned 32-bit pattern that carries a signed 32-bit value in two's
/// complement.
pub open spec fn u_of_s(v: int) -> int {
    if v >= 0 {
        v
    } else {
        v + 0x1_0000_0000
    }
}

/// The signed 32-bit value a two's-complement 32-bit pattern stands for.
pub open spec fn s_of_u(u: int) -> int {
    if u < 0x8000_0000 {
        u
    } else {
        u - 0x1_0000_0000
    }
}

/// What reading a terminator-delimited string yields from the bytes ahead
/// of the cursor: the content and the number of bytes consumed. At most
/// `maxlen - 1` content bytes are taken; a terminator within the bound is
/// consumed, reaching the bound truncates, and exhausting the bytes before
/// either is a short read (`None`).
pub open spec fn str_scan(rem: Seq<u8>, maxlen: nat) -> Option<(Seq<u8>, nat)>
    decreases maxlen,
{
    if maxlen <= 1 {
        Some((Seq::empty(), 0))
    } else if rem.len() == 0 {
        None
    } else if rem[0] == 0 {
        Some((Seq::empty(), 1))
    } else {
        match str_scan(rem.skip(1), (maxlen - 1) as nat) {
            None => None,
            Some(p) => Some((seq![rem[0]] + p.0, (p.1 + 1) as nat)),
        }
    }
}

/// Reading inverts writing for strings: a terminator-free content string
/// written with its explicit terminator is read back whole, consuming the
/// terminator, whenever the caller's bound leaves it room — whatever
/// follows on the stream.
pub proof fn lemma_string_roundtrip(s: Seq<u8>, rest: Seq<u8>, maxlen: nat)
    requires
        forall|i: int| 0 <= i < s.len() ==> s[i] != 0,
        maxlen >= s.len() + 2,
    ensures
        str_scan(s + seq![0u8] + rest, maxlen) == Some((s, (s.len() + 1) as nat)),
    decreases s.len(),
{
    let w = s + seq![0u8] + rest;
    if s.len() == 0 {
        assert(w[0] == 0);
        assert(s =~= Seq::<u8>::empty());
    } else {
        assert(w[0] == s[0]);
        assert(w.skip(1) =~= s.skip(1) + seq![0u8] + rest);
        assert(forall|i: int| 0 <= i < s.skip(1).len() ==> s.skip(1)[i] == s[i + 1]);
        lemma_string_roundtrip(s.skip(1), rest, (maxlen - 1) as nat);
        assert(seq![s[0]] + s.skip(1) =~= s);
    }
}

pub proof fn lemma_pow256_pos(n: nat)
    ensures
        pow256(n) >= 1,
    decreases n,
{
    if n > 0 {
        lemma_pow256_pos((n - 1) as nat);
    }
}

pub proof fn lemma_pow256_unfold()
    ensures
        pow256(0) == 1,
        pow256(1) == 0x100,
        pow256(2) == 0x1_0000,
        pow256(3) == 0x100_0000,
        pow256(4) == 0x1_0000_0000,
        pow256(8) == 0x1_0000_0000_0000_0000,
{
    assert(pow256(0) == 1);
    assert(pow256(1) == 0x100);
    assert(pow256(2) == 0x1_0000);
    assert(pow256(3) == 0x100_0000);
    assert(pow256(4) == 0x1_0000_0000);
    assert(pow256(5) == 0x100_0000_0000);
    assert(pow256(6) == 0x1_0000_0000_0000);
    assert(pow256(7) == 0x100_0000_0000_0000);
    assert(pow256(8) == 0x1_0000_0000_0000_0000);
}

pub proof fn lemma_be_bytes_len(v: int, n: nat)
    ensures
        be_bytes(v, n).len() == n,
    decreases n,
{
    if n > 0 {
        lemma_be_bytes_len(v / 256, (n - 1) as nat);
    }
}

pub proof fn lemma_be_val_bound(s: Seq<u8>)
    ensures
        0 <= be_val(s) < pow256(s.len()),
    decreases s.len(),
{
    if s.len() > 0 {
        lemma_be_val_bound(s.drop_last());
    }
}

/// Dividing by 256 stays under `p` whenever the value is under `256 * p`.
proof fn lemma_div256_bound(v: int, p: int)
    requires
        0 <= v < 256 * p,
    ensures
        0 <= v / 256 < p,
{
    if v / 256 >= p {
        assert(v == 256 * (v / 256) + v % 256);
        assert(256 * (v / 256) >= 256 * p) by (nonlinear_arith)
            requires
                v / 256 >= p,
        ;
    }
}

/// Decoding inverts encoding: a value written big-endian in `n` bytes is
/// read back unchanged.
pub proof fn lemma_be_roundtrip(v: int, n: nat)
    requires
        0 <= v < pow256(n),
    ensures
        be_val(be_bytes(v, n)) == v,
    decreases n,
{
    if n > 0 {
        lemma_div256_bound(v, pow256((n - 1) as nat));
        lemma_be_roundtrip(v / 256, (n - 1) as nat);
        let pre = be_bytes(v / 256, (n - 1) as nat);
        assert(be_bytes(v, n) == pre.push((v % 256) as u8));
        assert(pre.push((v % 256) as u8).drop_last() =~= pre);
    }
}

pub proof fn lemma_sign_roundtrip(v: int)
    requires
        -0x8000_0000 <= v < 0x8000_0000,
    ensures
        s_of_u(u_of_s(v)) == v,
        0 <= u_of_s(v) < 0x1_0000_0000,
{
}

/// One open in-memory XDR stream: the canonical bytes plus the cursor the
/// next read or write starts from.
#[allow(non_camel_case_types)]
#[derive(Debug, Clone, PartialEq)]
pub struct XDRFILE {
    pub data: Vec<u8>,
    pub pos: usize,
}

impl XDRFILE {
    /// The cursor never runs past the end of the stream.
    pub open spec fn wf(&self) -> bool {
        self.pos <= self.data@.len()
    }

    /// True when the cursor sits at the end of the stream, where writers
    /// append.
    pub open spec fn at_end(&self) -> bool {
        self.pos == self.data@.len()
    }

    /// The bytes still ahead of the cursor.
    pub open spec fn rem(&self) -> Seq<u8> {
        self.data@.skip(self.pos as int)
    }

    /// Open a stream over the given bytes, cursor at the start.
    pub fn from_bytes(data: Vec<u8>) -> (f: XDRFILE)
        ensures
            f.data@ == data@,
            f.pos == 0,
            f.wf(),
    {
        XDRFILE { data, pos: 0 }
    }

    /// The current cursor position.
    pub fn tell(&self) -> (p: usize)
        ensures
            p == self.pos,
    {
        self.pos
    }

    /// Move the cursor to an absolute position from the start of the
    /// stream. Succeeds exactly when the position is within the stream;
    /// the bytes are never touched.
    pub fn seek_set(&mut self, p: usize) -> (r: Result<(), XDRStatus>)
        ensures
            final(self).data@ == old(self).data@,
            p <= old(self).data@.len() ==> r == Ok::<(), XDRStatus>(()) && final(self).pos == p,
            p > old(self).data@.len() ==> r == Err::<(), XDRStatus>(XDRStatus::exdrNR) && *final(self)
                == *old(self),
    {
        if p <= self.data.len() {
            self.pos = p;
            Ok(())
        } else {
            Err(XDRStatus::exdrNR)
        }
    }

    /// Append one byte at the end of the stream.
    pub fn write_byte(&mut self, b: u8)
        requires
            old(self).at_end(),
        ensures
            final(self).data@ == old(self).data@.push(b),
            final(self).at_end(),
    {
        self.data.push(b);
        self.pos = self.data.len();
    }

    /// Append `n` big-endian bytes carrying `v`.
    pub fn write_be(&mut self, v: u64, n: usize)
        requires
            old(self).at_end(),
            n <= 8,
            v < pow256(n as nat),
        ensures
            final(self).data@ == old(self).data@ + be_bytes(v as int, n as nat),
            final(self).at_end(),
        decreases n,
    {
        if n == 0 {
            proof {
                assert(self.data@ =~= self.data@ + be_bytes(v as int, 0));
            }
        } else {
            proof {
                lemma_pow256_pos((n - 1) as nat);
                lemma_div256_bound(v as int, pow256((n - 1) as nat));
            }
            self.write_be(v / 256, n - 1);
            self.write_byte((v % 256) as u8);
            proof {
                assert(be_bytes(v as int, n as nat) == be_bytes(v as int / 256, (n - 1) as nat).push(
                    (v as int % 256) as u8,
                ));
                assert(final(self).data@ =~= old(self).data@ + be_bytes(v as int, n as nat));
            }
        }
    }

    /// Encode a 32-bit unsigned integer in the canonical representation.
    pub fn write_uint(&mut self, v: u32)
        requires
            old(self).at_end(),
        ensures
            final(self).data@ == old(self).data@ + be_bytes(v as int, 4),
            final(self).at_end(),
    {
        proof {
            lemma_pow256_unfold();
        }
        self.write_be(v as u64, 4);
    }

    /// Encode a 32-bit signed integer, two's complement, canonical order.
    pub fn write_int(&mut self, v: i32)
        requires
            old(self).at_end(),
        ensures
            final(self).data@ == old(self).data@ + be_bytes(u_of_s(v as int), 4),
            final(self).at_end(),
    {
        let u: u32 = if v >= 0 {
            v as u32
        } else {
            ((v as i64) + 0x1_0000_0000i64) as u32
        };
        assert(u as int == u_of_s(v as int));
        self.write_uint(u);
    }

    /// Read `n` big-endian bytes ahead of the cursor as one value.
    pub fn read_be(&mut self, n: usize) -> (v: u64)
        requires
            n <= 8,
            old(self).pos + n <= old(self).data@.len(),
        ensures
            final(self).data@ == old(self).data@,
            final(self).pos == old(self).pos + n,
            v as int == be_val(old(self).data@.subrange(old(self).pos as int, old(self).pos + n)),
        decreases n,
    {
        if n == 0 {
            proof {
                assert(self.data@.subrange(self.pos as int, self.pos as int).len() == 0);
            }
            0
        } else {
            let hi = self.read_be(n - 1);
            let b = self.data[self.pos];
            let l = self.data.len();
            assert(self.pos < l);
            self.pos = self.pos + 1;
            proof {
                let s = old(self).data@.subrange(old(self).pos as int, old(self).pos + n);
                assert(s.drop_last() =~= old(self).data@.subrange(
                    old(self).pos as int,
                    old(self).pos + n - 1,
                ));
                assert(s.last() == b);
                lemma_be_val_bound(s.drop_last());
                lemma_pow256_unfold();
                assert(pow256((n - 1) as nat) <= pow256(7)) by {
                    lemma_pow256_grows((n - 1) as nat, 7);
                }
            }
            hi * 256 + (b as u64)
        }
    }

    /// Encode a 16-bit unsigned integer in the canonical representation.
    pub fn write_short(&mut self, v: u16)
        requires
            old(self).at_end(),
        ensures
            final(self).data@ == old(self).data@ + be_bytes(v as int, 2),
            final(self).at_end(),
    {
        proof {
            lemma_pow256_unfold();
        }
        self.write_be(v as u64, 2);
    }

    /// Decode a 16-bit unsigned integer. `None` signals a short read; the
    /// stream is then left untouched.
    pub fn read_short(&mut self) -> (r: Option<u16>)
        requires
            old(self).wf(),
        ensures
            final(self).data@ == old(self).data@,
            final(self).wf(),
            old(self).pos + 2 <= old(self).data@.len() ==> {
                &&& r is Some
                &&& r->0 as int == be_val(
                    old(self).data@.subrange(old(self).pos as int, old(self).pos + 2),
                )
                &&& final(self).pos == old(self).pos + 2
            },
            old(self).pos + 2 > old(self).data@.len() ==> r is None && *final(self) == *old(self),
    {
        if self.data.len() - self.pos >= 2 {
            proof {
                lemma_be_val_bound(self.data@.subrange(self.pos as int, self.pos + 2));
                lemma_pow256_unfold();
            }
            let v = self.read_be(2);
            Some(v as u16)
        } else {
            None
        }
    }

    /// Append raw bytes with no conversion whatsoever: an opaque transfer
    /// inside the canonical container.
    pub fn write_opaque(&mut self, bytes: &Vec<u8>)
        requires
            old(self).at_end(),
        ensures
            final(self).data@ == old(self).data@ + bytes@,
            final(self).at_end(),
    {
        let ghost base = self.data@;
        let mut i: usize = 0;
        while i < bytes.len()
            invariant
                0 <= i <= bytes@.len(),
                self.at_end(),
                self.data@ == base + bytes@.take(i as int),
            decreases bytes@.len() - i,
        {
            self.write_byte(bytes[i]);
            proof {
                assert(base + bytes@.take(i as int + 1) =~= (base + bytes@.take(i as int)).push(
                    bytes@[i as int],
                ));
            }
            i = i + 1;
        }
        proof {
            assert(bytes@.take(bytes@.len() as int) =~= bytes@);
        }
    }

    /// Read `nbytes` raw bytes with no conversion. `None` signals a short
    /// read; the stream is then left untouched, never silently padded.
    #[verifier::loop_isolation(false)]
    pub fn read_opaque(&mut self, nbytes: usize) -> (r: Option<Vec<u8>>)
        requires
            old(self).wf(),
        ensures
            final(self).data@ == old(self).data@,
            final(self).wf(),
            old(self).pos + nbytes <= old(self).data@.len() ==> (r matches Some(v) && v@ == old(
                self,
            ).data@.subrange(old(self).pos as int, old(self).pos + nbytes) && final(self).pos == old(
                self,
            ).pos + nbytes),
            old(self).pos + nbytes > old(self).data@.len() ==> r is None && *final(self) == *old(
                self,
            ),
    {
        if self.data.len() - self.pos < nbytes {
            return None;
        }
        let ghost data = self.data@;
        let ghost pos0 = self.pos as int;
        let mut v: Vec<u8> = Vec::new();
        let mut i: usize = 0;
        while i < nbytes
            invariant
                0 <= i <= nbytes,
                pos0 + nbytes <= data.len(),
                self.data@ == data,
                self.pos == pos0 + i,
                v@ == data.subrange(pos0, pos0 + i),
            decreases nbytes - i,
        {
            let b = self.data[self.pos];
            let l = self.data.len();
            assert(self.pos < l);
            self.pos = self.pos + 1;
            v.push(b);
            proof {
                assert(data.subrange(pos0, pos0 + i + 1) =~= data.subrange(pos0, pos0 + i).push(
                    data[pos0 + i],
                ));
            }
            i = i + 1;
        }
        Some(v)
    }

    /// Encode a 64-bit value (such as a double's IEEE-754 bit pattern) in
    /// the canonical representation.
    pub fn write_double(&mut self, v: u64)
        requires
            old(self).at_end(),
        ensures
            final(self).data@ == old(self).data@ + be_bytes(v as int, 8),
            final(self).at_end(),
    {
        proof {
            lemma_pow256_unfold();
        }
        self.write_be(v, 8);
    }

    /// Decode a 64-bit value from the canonical representation. `None`
    /// signals a short read; the stream is then left untouched.
    pub fn read_double(&mut self) -> (r: Option<u64>)
        requires
            old(self).wf(),
        ensures
            final(self).data@ == old(self).data@,
            final(self).wf(),
            old(self).pos + 8 <= old(self).data@.len() ==> {
                &&& r is Some
                &&& r->0 as int == be_val(
                    old(self).data@.subrange(old(self).pos as int, old(self).pos + 8),
                )
                &&& final(self).pos == old(self).pos + 8
            },
            old(self).pos + 8 > old(self).data@.len() ==> r is None && *final(self) == *old(self),
    {
        if self.data.len() - self.pos >= 8 {
            let v = self.read_be(8);
            Some(v)
        } else {
            None
        }
    }

    /// Append a byte string, delimited by an explicit terminator byte.
    pub fn write_string(&mut self, s: &Vec<u8>)
        requires
            old(self).at_end(),
        ensures
            final(self).data@ == old(self).data@ + s@ + seq![0u8],
            final(self).at_end(),
    {
        self.write_opaque(s);
        self.write_byte(0);
        proof {
            assert((old(self).data@ + s@).push(0u8) =~= old(self).data@ + s@ + seq![0u8]);
        }
    }

    /// Read a terminator-delimited byte string, bounded by a caller-supplied
    /// maximum buffer size.
    ///
    /// At most `maxlen - 1` content bytes are returned. Finding the
    /// terminator within that bound consumes it; running into the bound
    /// first truncates the output, which is still returned safely
    /// terminated rather than overrunning the buffer. Running out of
    /// stream before either is a short read, reported as `None`.
    #[verifier::loop_isolation(false)]
    pub fn read_string(&mut self, maxlen: usize) -> (r: Option<Vec<u8>>)
        requires
            old(self).wf(),
        ensures
            final(self).data@ == old(self).data@,
            final(self).wf(),
            match str_scan(old(self).rem(), maxlen as nat) {
                Some(p) => r matches Some(v) && v@ == p.0 && final(self).pos == old(self).pos
                    + p.1,
                None => r is None,
            },
    {
        let ghost s0 = old(self).rem();
        let ghost pos0 = old(self).pos as int;
        let ghost data = old(self).data@;
        let mut v: Vec<u8> = Vec::new();
        let mut budget: usize = maxlen;
        while budget > 1
            invariant
                budget <= maxlen,
                self.data@ == data,
                self.wf(),
                self.pos == pos0 + v@.len(),
                v@.len() == maxlen - budget,
                str_scan(s0, maxlen as nat) == (match str_scan(
                    data.skip(self.pos as int),
                    budget as nat,
                ) {
                    None => None::<(Seq<u8>, nat)>,
                    Some(p) => Some((v@ + p.0, (v@.len() + p.1) as nat)),
                }),
            decreases budget,
        {
            let ghost cur = data.skip(self.pos as int);
            match self.read_byte() {
                None => {
                    proof {
                        assert(cur.len() == 0);
                    }
                    return None;
                },
                Some(b) => {
                    proof {
                        assert(cur[0] == b);
                    }
                    if b == 0 {
                        proof {
                            assert(v@ + Seq::<u8>::empty() =~= v@);
                        }
                        return Some(v);
                    }
                    v.push(b);
                    proof {
                        assert(cur.skip(1) =~= data.skip(self.pos as int));
                        let inner = str_scan(data.skip(self.pos as int), (budget - 1) as nat);
                        if inner is Some {
                            let p = inner->0;
                            assert(v@ + p.0 =~= v@.drop_last() + (seq![b] + p.0));
                        }
                    }
                },
            }
            budget = budget - 1;
        }
        proof {
            assert(v@ + Seq::<u8>::empty() =~= v@);
        }
        Some(v)
    }

    /// Read the single byte ahead of the cursor. `None` signals the end of
    /// the stream; the stream is then left untouched.
    pub fn read_byte(&mut self) -> (r: Option<u8>)
        requires
            old(self).wf(),
        ensures
            final(self).data@ == old(self).data@,
            final(self).wf(),
            old(self).pos < old(self).data@.len() ==> r == Some(old(self).data@[old(self).pos as int])
                && final(self).pos == old(self).pos + 1,
            old(self).pos >= old(self).data@.len() ==> r is None && *final(self) == *old(self),
    {
        if self.pos < self.data.len() {
            let b = self.data[self.pos];
            self.pos = self.pos + 1;
            Some(b)
        } else {
            None
        }
    }

    /// Decode a 32-bit unsigned integer. `None` signals a short read; the
    /// stream is then left untouched.
    pub fn read_uint(&mut self) -> (r: Option<u32>)
        requires
            old(self).wf(),
        ensures
            final(self).data@ == old(self).data@,
            final(self).wf(),
            old(self).pos + 4 <= old(self).data@.len() ==> {
                &&& r is Some
                &&& r->0 as int == be_val(
                    old(self).data@.subrange(old(self).pos as int, old(self).pos + 4),
                )
                &&& final(self).pos == old(self).pos + 4
            },
            old(self).pos + 4 > old(self).data@.len() ==> r is None && *final(self) == *old(self),
    {
        if self.data.len() - self.pos >= 4 {
            proof {
                lemma_be_val_bound(self.data@.subrange(self.pos as int, self.pos + 4));
                lemma_pow256_unfold();
            }
            let v = self.read_be(4);
            Some(v as u32)
        } else {
            None
        }
    }

    /// Decode a 32-bit signed integer from its two's-complement pattern.
    /// `None` signals a short read; the stream is then left untouched.
    pub fn read_int(&mut self) -> (r: Option<i32>)
        requires
            old(self).wf(),
        ensures
            final(self).data@ == old(self).data@,
            final(self).wf(),
            old(self).pos + 4 <= old(self).data@.len() ==> {
                &&& r is Some
                &&& r->0 as int == s_of_u(
                    be_val(old(self).data@.subrange(old(self).pos as int, old(self).pos + 4)),
                )
                &&& final(self).pos == old(self).pos + 4
            },
            old(self).pos + 4 > old(self).data@.len() ==> r is None && *final(self) == *old(self),
    {
        match self.read_uint() {
            None => None,
            Some(u) => {
                proof {
                    lemma_be_val_bound(old(self).data@.subrange(old(self).pos as int, old(self).pos + 4));
                    lemma_pow256_unfold();
                }
                if u < 0x8000_0000u32 {
                    Some(u as i32)
                } else {
                    Some(((u as i64) - 0x1_0000_0000i64) as i32)
                }
            },
        }
    }
}

/// More bytes can carry no fewer values.
pub proof fn lemma_pow256_grows(m: nat, n: nat)
    requires
        m <= n,
    ensures
        pow256(m) <= pow256(n),
    decreases n,
{
    if m < n {
        lemma_pow256_grows(m, (n - 1) as nat);
        lemma_pow256_pos((n - 1) as nat);
    }
}

} // verus!
