//! An XTC trajectory codec: a canonical big-endian (XDR-style) byte stream,
//! a lossy precision-scaled coordinate compressor, the per-frame record
//! format, and a capability-tagged handle over an in-memory stream.
//!
//! Coordinates enter the codec already scaled to integers (each position
//! component multiplied by the precision factor and rounded); the 32-bit
//! float header fields (time, box, precision) travel as their IEEE-754 bit
//! patterns, which the codec stores and returns bit-for-bit.

pub mod access_mode;
pub mod xdrfile;
pub mod xtc;

use vstd::prelude::*;

use core::marker::PhantomData;

use crate::access_mode::Writable;
use crate::access_mode::XDRAccessMode;
use crate::xdrfile::XDRFILE;
use crate::xdrfile::XDRStatus;
use crate::xdrfile::matrix;
use crate::xdrfile::rvec;
use crate::xtc::DEFAULT_PREC_BITS;
use crate::xtc::FrameParse;
use crate::xtc::HeaderParse;
use crate::xtc::eff_prec;
use crate::xtc::enc_frame;
use crate::xtc::flat_of;
use crate::xtc::mat_view;
use crate::xtc::parse_frame;
use crate::xtc::parse_header;
use crate::xtc::read_xtc_header;
use crate::xtc::write_xtc_frame;

verus! {

/// One frame of a trajectory: timestep index, simulation time bits, box
/// matrix bits, the precision bits recorded by the codec, and the scaled
/// coordinate triplets.
#[derive(Debug, Clone, PartialEq)]
pub struct XTCFrame {
    pub step: i32,
    pub time: u32,
    pub sim_box: matrix,
    pub prec: u32,
    pub x: Vec<rvec>,
}

impl XTCFrame {
    /// A frame with no coordinates, zero step and time, a zero box, and
    /// the default precision: the natural starting value for a reusable
    /// read buffer.
    pub fn empty() -> (f: XTCFrame)
        ensures
            f.step == 0i32,
            f.time == 0u32,
            f.prec == DEFAULT_PREC_BITS,
            f.x@.len() == 0,
            forall|i: int, j: int| 0 <= i < 3 && 0 <= j < 3 ==> f.sim_box.0[i][j] == 0u32,
    {
        XTCFrame {
            step: 0,
            time: 0,
            sim_box: matrix::new(),
            prec: DEFAULT_PREC_BITS,
            x: Vec::new(),
        }
    }
}

/// A capability-tagged handle over one in-memory XDR stream.
///
/// The capability is fixed at open time by the `MODE` marker: write-capable
/// handles expose only `write_xtc`, read handles only the `read_*` methods,
/// so a write through a read handle is a compile-time impossibility. The
/// handle owns its stream exclusively; `close` consumes it and hands the
/// bytes back exactly once.
pub struct XDRFile<MODE: XDRAccessMode> {
    pub file: XDRFILE,
    pub mode: PhantomData<MODE>,
}

impl<MODE: XDRAccessMode> XDRFile<MODE> {
    /// The handle's stream is well formed.
    pub open spec fn wf(&self) -> bool {
        self.file.wf()
    }

    /// Open a handle over the given bytes in this handle's access mode:
    /// writing starts from an empty stream, reading starts at the front of
    /// the given bytes, appending keeps them and continues at their end.
    pub fn open(data: Vec<u8>) -> (f: Self)
        ensures
            f.wf(),
            MODE::spec_mode() == 119u8 ==> f.file.data@ == Seq::<u8>::empty() && f.file.at_end(),
            MODE::spec_mode() == 114u8 ==> f.file.data@ == data@ && f.file.pos == 0,
            MODE::spec_mode() == 97u8 ==> f.file.data@ == data@ && f.file.at_end(),
    {
        let c = MODE::mode_char();
        if c == 119u8 {
            XDRFile { file: XDRFILE::from_bytes(Vec::new()), mode: PhantomData }
        } else if c == 97u8 {
            let mut fl = XDRFILE::from_bytes(data);
            let n = fl.data.len();
            fl.pos = n;
            XDRFile { file: fl, mode: PhantomData }
        } else {
            XDRFile { file: XDRFILE::from_bytes(data), mode: PhantomData }
        }
    }

    /// Release the handle, yielding the stream's bytes. Consuming the
    /// handle makes a second release a compile-time impossibility.
    pub fn close(self) -> (data: Vec<u8>)
        ensures
            data@ == self.file.data@,
    {
        let XDRFile { file, mode: _ } = self;
        file.data
    }
}

impl<MODE: XDRAccessMode + Writable> XDRFile<MODE> {
    /// Write one frame: step, time bits, box bits, scaled coordinates,
    /// precision bits (a precision at or below zero is replaced by the
    /// default before it is recorded).
    ///
    /// A coordinate count that cannot be represented in the codec's signed
    /// 32-bit count type is rejected with `exdrUINT` and nothing written;
    /// otherwise the stream grows by exactly the frame's canonical bytes.
    pub fn write_xtc(
        &mut self,
        step: i32,
        time: u32,
        sim_box: matrix,
        x: &Vec<rvec>,
        prec: u32,
    ) -> (r: Result<(), XDRStatus>)
        requires
            old(self).wf(),
            old(self).file.at_end(),
        ensures
            final(self).wf(),
            x@.len() > 0x7FFF_FFFF ==> r == Err::<(), XDRStatus>(XDRStatus::exdrUINT)
                && *final(self) == *old(self),
            x@.len() <= 0x7FFF_FFFF ==> r == Ok::<(), XDRStatus>(()) && final(self).file.data@
                == old(self).file.data@ + enc_frame(step, time, sim_box, x@, eff_prec(prec))
                && final(self).file.at_end(),
    {
        write_xtc_frame(&mut self.file, step, time, &sim_box, x, prec)
    }
}

impl XDRFile<crate::access_mode::Read> {
    /// Read the trajectory's atom count from the first frame's header
    /// without disturbing the read cursor: the cursor is saved, the header
    /// is read at the start of the stream, and the cursor is restored
    /// exactly, whatever the outcome. The coordinate payload is never
    /// touched.
    pub fn read_xtc_natoms(&mut self) -> (r: Result<usize, XDRStatus>)
        requires
            old(self).wf(),
        ensures
            final(self).wf(),
            final(self).file.data@ == old(self).file.data@,
            final(self).file.pos == old(self).file.pos,
            match parse_header(old(self).file.data@) {
                HeaderParse::Hdr { natoms, step, time } => {
                    &&& natoms <= 0x7FFF_FFFF ==> r == Ok::<usize, XDRStatus>(natoms as usize)
                    &&& natoms > 0x7FFF_FFFF ==> r == Err::<usize, XDRStatus>(XDRStatus::exdrUINT)
                },
                HeaderParse::Fail { status } => r == Err::<usize, XDRStatus>(status),
            },
    {
        let saved = self.file.tell();
        match self.file.seek_set(0) {
            Err(e) => {
                proof {
                    assert(false);
                }
                return Err(e);
            },
            Ok(()) => {},
        }
        proof {
            assert(self.file.rem() =~= old(self).file.data@);
        }
        let res = read_xtc_header(&mut self.file);
        match self.file.seek_set(saved) {
            Err(e) => {
                proof {
                    assert(false);
                }
                return Err(e);
            },
            Ok(()) => {},
        }
        match res {
            Err(e) => Err(e),
            Ok((natoms, _step, _time)) => {
                if natoms <= 0x7FFF_FFFFu32 {
                    Ok(natoms as usize)
                } else {
                    Err(XDRStatus::exdrUINT)
                }
            },
        }
    }

    /// Read the next frame into a caller-supplied reusable frame.
    ///
    /// An atom count the codec's signed 32-bit count type cannot carry is
    /// rejected before the frame is touched. Otherwise the coordinate
    /// buffer is cleared and re-populated: on success it holds exactly
    /// `natoms` triplets — never more, and never a stale triplet from an
    /// earlier call; on a failed read it is left empty. A stream already
    /// at its end reports `exdrENDOFFILE`, the expected terminal signal of
    /// sequential reading.
    pub fn read_xtc_reuse(&mut self, natoms: usize, frame: &mut XTCFrame) -> (r: Result<
        (),
        XDRStatus,
    >)
        requires
            old(self).wf(),
        ensures
            final(self).wf(),
            final(self).file.data@ == old(self).file.data@,
            natoms > 0x7FFF_FFFF ==> r == Err::<(), XDRStatus>(XDRStatus::exdrUINT) && *final(self)
                == *old(self) && *final(frame) == *old(frame),
            natoms <= 0x7FFF_FFFF ==> match parse_frame(old(self).file.rem(), natoms as u32) {
                FrameParse::Frame { step, time, sim_box, prec, coords, used } => {
                    &&& r == Ok::<(), XDRStatus>(())
                    &&& final(frame).step == step
                    &&& final(frame).time == time
                    &&& mat_view(final(frame).sim_box) == sim_box
                    &&& final(frame).prec == prec
                    &&& flat_of(final(frame).x@) == coords
                    &&& final(frame).x@.len() == natoms
                    &&& final(self).file.pos == old(self).file.pos + used
                },
                FrameParse::Fail { status } => {
                    &&& r == Err::<(), XDRStatus>(status)
                    &&& final(frame).x@.len() == 0
                },
            },
    {
        if natoms > 0x7FFF_FFFF {
            return Err(XDRStatus::exdrUINT);
        }
        frame.x.clear();
        frame.x.reserve(natoms);
        let nat32: u32 = natoms as u32;
        let ghost s = old(self).file.rem();
        let ghost pos0 = old(self).file.pos as int;
        let ghost data = old(self).file.data@;
        let (n0, step, time) = match read_xtc_header(&mut self.file) {
            Err(e) => {
                return Err(e);
            },
            Ok(t) => t,
        };
        if n0 != nat32 {
            return Err(XDRStatus::exdrHEADER);
        }
        if self.file.data.len() - self.file.pos < 36 {
            return Err(XDRStatus::exdrFLOAT);
        }
        let b00 = self.file.read_uint().unwrap();
        let b01 = self.file.read_uint().unwrap();
        let b02 = self.file.read_uint().unwrap();
        let b10 = self.file.read_uint().unwrap();
        let b11 = self.file.read_uint().unwrap();
        let b12 = self.file.read_uint().unwrap();
        let b20 = self.file.read_uint().unwrap();
        let b21 = self.file.read_uint().unwrap();
        let b22 = self.file.read_uint().unwrap();
        frame.sim_box = matrix([[b00, b01, b02], [b10, b11, b12], [b20, b21, b22]]);
        frame.step = step;
        frame.time = time;
        proof {
            assert(s.subrange(16, 20) =~= data.subrange(pos0 + 16, pos0 + 20));
            assert(s.subrange(20, 24) =~= data.subrange(pos0 + 20, pos0 + 24));
            assert(s.subrange(24, 28) =~= data.subrange(pos0 + 24, pos0 + 28));
            assert(s.subrange(28, 32) =~= data.subrange(pos0 + 28, pos0 + 32));
            assert(s.subrange(32, 36) =~= data.subrange(pos0 + 32, pos0 + 36));
            assert(s.subrange(36, 40) =~= data.subrange(pos0 + 36, pos0 + 40));
            assert(s.subrange(40, 44) =~= data.subrange(pos0 + 40, pos0 + 44));
            assert(s.subrange(44, 48) =~= data.subrange(pos0 + 44, pos0 + 48));
            assert(s.subrange(48, 52) =~= data.subrange(pos0 + 48, pos0 + 52));
            assert(mat_view(frame.sim_box) =~= crate::xtc::parse_box(s));
            assert(self.file.rem() =~= s.skip(52));
        }
        let (cnt, prec) = match crate::xtc::decompress_coords(
            &mut self.file,
            natoms,
            &mut frame.x,
        ) {
            Err(e) => {
                return Err(e);
            },
            Ok(t) => t,
        };
        if cnt != natoms {
            frame.x.clear();
            return Err(XDRStatus::exdrHEADER);
        }
        frame.prec = prec;
        Ok(())
    }

    /// Read the next frame into a freshly allocated frame. Same contract
    /// as `read_xtc_reuse`, with the frame returned instead of reused.
    pub fn read_xtc(&mut self, natoms: usize) -> (r: Result<XTCFrame, XDRStatus>)
        requires
            old(self).wf(),
        ensures
            final(self).wf(),
            final(self).file.data@ == old(self).file.data@,
            natoms > 0x7FFF_FFFF ==> r == Err::<XTCFrame, XDRStatus>(XDRStatus::exdrUINT)
                && *final(self) == *old(self),
            natoms <= 0x7FFF_FFFF ==> match parse_frame(old(self).file.rem(), natoms as u32) {
                FrameParse::Frame { step, time, sim_box, prec, coords, used } => {
                    &&& r matches Ok(f) && f.step == step && f.time == time && mat_view(f.sim_box)
                        == sim_box && f.prec == prec && flat_of(f.x@) == coords && f.x@.len()
                        == natoms
                    &&& final(self).file.pos == old(self).file.pos + used
                },
                FrameParse::Fail { status } => r == Err::<XTCFrame, XDRStatus>(status),
            },
    {
        let mut frame = XTCFrame::empty();
        match self.read_xtc_reuse(natoms, &mut frame) {
            Ok(()) => Ok(frame),
            Err(e) => Err(e),
        }
    }
}

} // verus!
