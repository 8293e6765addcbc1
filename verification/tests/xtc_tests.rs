use xtcio::XDRFile;
use xtcio::XTCFrame;
use xtcio::access_mode::Append;
use xtcio::access_mode::Read;
use xtcio::access_mode::Write;
use xtcio::xdrfile::DIM;
use xtcio::xdrfile::XDRFILE;
use xtcio::xdrfile::XDRStatus;
use xtcio::xdrfile::matrix;
use xtcio::xdrfile::rvec;
use xtcio::xtc::decompress_coords;
use xtcio::xtc::write_xtc_frame;

/// The lossy step of the codec, performed by the caller: scale by the
/// effective precision and round to the nearest integer.
fn scale(v: f32, prec: f32) -> i32 {
    let p = if prec <= 0.0 { 1000.0 } else { prec };
    (v * p).round() as i32
}

fn scale_triplet(v: [f32; 3], prec: f32) -> rvec {
    rvec([scale(v[0], prec), scale(v[1], prec), scale(v[2], prec)])
}

fn bits_matrix(m: [[f32; 3]; 3]) -> matrix {
    let mut out = [[0u32; 3]; 3];
    for i in 0..3 {
        for j in 0..3 {
            out[i][j] = m[i][j].to_bits();
        }
    }
    matrix(out)
}

#[test]
/// Test the safe wrapper for reading/writing xtc streams
fn test_xtc_wrapper() -> Result<(), XDRStatus> {
    let nframes = 13;
    let natoms1 = 173;
    let step1 = 1993;
    let time1 = 1097.23f32;
    let prec1 = 1000.0f32;
    let toler = 1e-3f32;

    let mut box1 = [[0.0f32; 3]; 3];
    for i in 0..DIM {
        for j in 0..DIM {
            box1[i][j] = (i + 1) as f32 * 3.7f32 + (j + 1) as f32;
        }
    }

    let mut x1f = Vec::<[f32; 3]>::with_capacity(natoms1 as usize);
    let mut x1 = Vec::<rvec>::with_capacity(natoms1 as usize);
    for i in 0..natoms1 {
        let mut v = [0.0f32; 3];
        for j in 0..DIM {
            v[j] = (i + 1) as f32 * 3.7f32 + (j + 1) as f32;
        }
        x1f.push(v);
        x1.push(scale_triplet(v, prec1));
    }

    let bytes;
    {
        println!("Opening xtc stream");
        let mut xtc_write = XDRFile::<Write>::open(Vec::new());
        println!("Writing xtc stream");
        for k in 0..nframes {
            xtc_write.write_xtc(
                step1 + k,
                (time1 + k as f32).to_bits(),
                bits_matrix(box1),
                &x1,
                prec1.to_bits(),
            )?;
        }
        bytes = xtc_write.close();
    }

    {
        println!("Reading xtc stream");
        let mut xtc_read = XDRFile::<Read>::open(bytes);
        let mut frame = XTCFrame::empty();
        let natoms2 = xtc_read.read_xtc_natoms()?;
        assert_eq!(natoms1 as usize, natoms2, "Number of atoms incorrect when reading xtc stream");

        let mut k = 0;
        while xtc_read.read_xtc_reuse(natoms2, &mut frame).is_ok() {
            assert_eq!(frame.step - step1, k, "Incorrect step on frame {}", k);
            let time2 = f32::from_bits(frame.time);
            let prec2 = f32::from_bits(frame.prec);
            assert!(
                f32::abs(time2 - time1 - k as f32) <= toler,
                "Incorrect time on frame {}",
                k
            );
            assert!(f32::abs(prec2 - prec1) <= toler, "Incorrect precision on frame {}", k);
            for i in 0..DIM {
                for j in 0..DIM {
                    let b = f32::from_bits(frame.sim_box.0[i][j]);
                    assert!(f32::abs(b - box1[i][j]) <= toler, "Incorrect box on frame {}", k);
                }
            }
            for i in 0..natoms1 as usize {
                for j in 0..DIM {
                    let c = frame.x[i].0[j] as f32 / prec2;
                    assert!(f32::abs(c - x1f[i][j]) <= toler, "Incorrect x on frame {}", k);
                }
            }

            k += 1;
        }
        assert_eq!(k, nframes, "Incorrect number of frames read back");
        assert_eq!(xtc_read.read_xtc(natoms2), Err(XDRStatus::exdrENDOFFILE));
    }

    Ok(())
}

#[test]
/// The same trajectory exercised through the stream-level frame functions
fn test_xtc() {
    let nframes: i32 = 13;
    let natoms1: i32 = 173;
    let step1: i32 = 1993;
    let time1: f32 = 1097.23;
    let prec1: f32 = 1000.0;
    let toler: f32 = 1e-3;

    println!("Testing xtc functionality:");

    let mut box1 = [[0.0f32; 3]; 3];
    for i in 0..DIM {
        for j in 0..DIM {
            box1[i][j] = (i + 1) as f32 * 3.7f32 + (j + 1) as f32;
        }
    }

    let mut x1f = Vec::<[f32; 3]>::with_capacity(natoms1 as usize);
    let mut x1 = Vec::<rvec>::with_capacity(natoms1 as usize);
    for i in 0..natoms1 {
        let mut v = [0.0f32; 3];
        for j in 0..DIM {
            v[j] = (i + 1) as f32 * 3.7f32 + (j + 1) as f32;
        }
        x1f.push(v);
        x1.push(scale_triplet(v, prec1));
    }

    let mut xd = XDRFILE::from_bytes(Vec::new());
    for k in 0..nframes {
        let result = write_xtc_frame(
            &mut xd,
            step1 + k,
            (time1 + k as f32).to_bits(),
            &bits_matrix(box1),
            &x1,
            prec1.to_bits(),
        );
        assert_eq!(result, Ok(()), "Error writing xtc stream: {:?}", result);
    }

    let mut xtc_read = XDRFile::<Read>::open(xd.data);
    let natoms2 = xtc_read.read_xtc_natoms().expect("Error reading xtc stream");
    assert_eq!(natoms1 as usize, natoms2, "Number of atoms incorrect when reading xtc stream");

    let mut box2 = matrix::new();
    let mut k = 0;
    loop {
        let frame = match xtc_read.read_xtc(natoms2) {
            Err(XDRStatus::exdrENDOFFILE) => break,
            Err(e) => panic!("Error reading frame from xtc stream: {:?}", e),
            Ok(f) => f,
        };
        box2 = frame.sim_box;
        let step2 = frame.step;
        let time2 = f32::from_bits(frame.time);
        let prec2 = f32::from_bits(frame.prec);
        assert_eq!(step2 - step1, k, "Incorrect step on frame {}", k);
        assert!(f32::abs(time2 - time1 - k as f32) <= toler, "Incorrect time on frame {}", k);
        assert!(f32::abs(prec2 - prec1) <= toler, "Incorrect precision on frame {}", k);
        for i in 0..DIM {
            for j in 0..DIM {
                let b = f32::from_bits(box2.0[i][j]);
                assert!(f32::abs(b - box1[i][j]) <= toler, "Incorrect box on frame {}", k);
            }
        }
        for i in 0..natoms1 as usize {
            for j in 0..DIM {
                let c = frame.x[i].0[j] as f32 / prec2;
                assert!(f32::abs(c - x1f[i][j]) <= toler, "Incorrect x on frame {}", k);
            }
        }

        k += 1;
    }
    assert_eq!(k, nframes, "Incorrect number of frames read back");
}

#[test]
/// Probing the atom count is cursor-neutral: probing before and after
/// reads returns the same value and leaves sequential reads undisturbed.
fn test_probe_is_cursor_neutral() {
    let bx = bits_matrix([[1.0, 0.0, 0.0], [0.0, 1.0, 0.0], [0.0, 0.0, 1.0]]);
    let coords = vec![rvec([1, 2, 3]), rvec([4, 5, 6]), rvec([-7, -8, -9])];
    let mut w = XDRFile::<Write>::open(Vec::new());
    for k in 0..4 {
        w.write_xtc(10 + k, (k as f32).to_bits(), bx, &coords, 1000.0f32.to_bits()).unwrap();
    }
    let mut r = XDRFile::<Read>::open(w.close());
    let n0 = r.read_xtc_natoms().unwrap();
    assert_eq!(n0, 3);
    let f0 = r.read_xtc(n0).unwrap();
    assert_eq!(f0.step, 10);
    let n1 = r.read_xtc_natoms().unwrap();
    assert_eq!(n1, 3);
    let f1 = r.read_xtc(n1).unwrap();
    assert_eq!(f1.step, 11, "probe disturbed the read cursor");
    let n2 = r.read_xtc_natoms().unwrap();
    assert_eq!(n2, 3);
    let f2 = r.read_xtc(n2).unwrap();
    let f3 = r.read_xtc(n2).unwrap();
    assert_eq!(f2.step, 12);
    assert_eq!(f3.step, 13);
    assert_eq!(r.read_xtc(n2), Err(XDRStatus::exdrENDOFFILE));
    let n4 = r.read_xtc_natoms().unwrap();
    assert_eq!(n4, 3, "probe must work at end of stream too");
}

#[test]
/// A coordinate count the codec's count type cannot carry is rejected
/// before anything is read and before the caller's frame is touched.
fn test_read_count_overflow() {
    let bx = bits_matrix([[0.0; 3]; 3]);
    let mut w = XDRFile::<Write>::open(Vec::new());
    w.write_xtc(0, 0, bx, &vec![rvec([0, 0, 0])], 0).unwrap();
    let mut r = XDRFile::<Read>::open(w.close());
    assert_eq!(r.read_xtc(0x8000_0000usize), Err(XDRStatus::exdrUINT));
    let mut frame = XTCFrame::empty();
    frame.step = 77;
    frame.x.push(rvec([8, 8, 8]));
    assert_eq!(r.read_xtc_reuse(0x8000_0000usize, &mut frame), Err(XDRStatus::exdrUINT));
    assert_eq!(frame.step, 77, "a rejected count must leave the frame untouched");
    assert_eq!(frame.x.len(), 1, "a rejected count must leave the frame untouched");
    assert_eq!(frame.x[0].0, [8, 8, 8]);
    let f = r.read_xtc(1).unwrap();
    assert_eq!(f.step, 0, "rejected probes must not disturb the stream");
}

#[test]
/// Reusing one frame across shrinking and growing atom counts never
/// leaves stale coordinates beyond the current frame's count.
fn test_buffer_reuse_shrink_then_grow() {
    let bx = bits_matrix([[0.0; 3]; 3]);
    let make = |n: i32| -> Vec<u8> {
        let mut w = XDRFile::<Write>::open(Vec::new());
        let coords: Vec<rvec> = (0..n).map(|i| rvec([100 + i, 200 + i, 300 + i])).collect();
        w.write_xtc(n, 0, bx, &coords, 1000.0f32.to_bits()).unwrap();
        w.close()
    };
    let mut frame = XTCFrame::empty();
    assert_eq!(rvec::new().0, [0, 0, 0]);
    for &n in &[5i32, 2, 7, 1, 6] {
        let mut r = XDRFile::<Read>::open(make(n));
        let natoms = r.read_xtc_natoms().unwrap();
        assert_eq!(natoms, n as usize);
        r.read_xtc_reuse(natoms, &mut frame).unwrap();
        assert_eq!(frame.x.len(), n as usize, "stale or missing coordinates");
        for i in 0..n {
            assert_eq!(frame.x[i as usize].0, [100 + i, 200 + i, 300 + i]);
        }
    }
}

#[test]
/// A frame with no atoms round-trips.
fn test_empty_frame_roundtrip() {
    let bx = bits_matrix([[2.5, 0.0, 0.0], [0.0, 2.5, 0.0], [0.0, 0.0, 2.5]]);
    let mut w = XDRFile::<Write>::open(Vec::new());
    w.write_xtc(7, 3.25f32.to_bits(), bx, &Vec::new(), 10.0f32.to_bits()).unwrap();
    let mut r = XDRFile::<Read>::open(w.close());
    let n = r.read_xtc_natoms().unwrap();
    assert_eq!(n, 0);
    let f = r.read_xtc(n).unwrap();
    assert_eq!(f.step, 7);
    assert_eq!(f32::from_bits(f.time), 3.25);
    assert_eq!(f32::from_bits(f.prec), 10.0);
    assert_eq!(f.x.len(), 0);
    assert_eq!(r.read_xtc(n), Err(XDRStatus::exdrENDOFFILE));
}

#[test]
/// A precision at or below zero is replaced by the default, 1000.0,
/// before it is recorded; NaN is not at or below zero and is kept.
fn test_precision_default_substitution() {
    let bx = bits_matrix([[0.0; 3]; 3]);
    let coords = vec![rvec([1, 1, 1])];
    for bad in [0.0f32, -0.0, -5.0, f32::NEG_INFINITY] {
        let mut w = XDRFile::<Write>::open(Vec::new());
        w.write_xtc(0, 0, bx, &coords, bad.to_bits()).unwrap();
        let mut r = XDRFile::<Read>::open(w.close());
        let f = r.read_xtc(1).unwrap();
        assert_eq!(f32::from_bits(f.prec), 1000.0, "precision {} not defaulted", bad);
    }
    let mut w = XDRFile::<Write>::open(Vec::new());
    w.write_xtc(0, 0, bx, &coords, 250.0f32.to_bits()).unwrap();
    let mut r = XDRFile::<Read>::open(w.close());
    assert_eq!(f32::from_bits(r.read_xtc(1).unwrap().prec), 250.0);
}

#[test]
/// Scaled integer coordinates come back exactly, over the whole signed
/// 32-bit range, and the frame's byte cost matches the component range.
fn test_scaled_coordinates_exact_and_sizes() {
    let bx = bits_matrix([[0.0; 3]; 3]);

    // all components equal: one byte per component
    let tight = vec![rvec([42, 42, 42]), rvec([42, 42, 42])];
    let mut w = XDRFile::<Write>::open(Vec::new());
    w.write_xtc(1, 0, bx, &tight, 0).unwrap();
    let bytes = w.close();
    // header 16 + box 36 + count 4 + precision 4 + minimum 4 + width 1 + 6 offsets
    assert_eq!(bytes.len(), 16 + 36 + 4 + 4 + 4 + 1 + 6);
    let mut r = XDRFile::<Read>::open(bytes);
    let f = r.read_xtc(2).unwrap();
    assert_eq!(f.x[0].0, [42, 42, 42]);
    assert_eq!(f.x[1].0, [42, 42, 42]);

    // extreme range: four bytes per component
    let wide = vec![rvec([i32::MIN, 0, i32::MAX]), rvec([17, -17, 1_000_000])];
    let mut w2 = XDRFile::<Write>::open(Vec::new());
    w2.write_xtc(2, 0, bx, &wide, 0).unwrap();
    let bytes2 = w2.close();
    assert_eq!(bytes2.len(), 16 + 36 + 4 + 4 + 4 + 1 + 6 * 4);
    let mut r2 = XDRFile::<Read>::open(bytes2);
    let f2 = r2.read_xtc(2).unwrap();
    assert_eq!(f2.x[0].0, [i32::MIN, 0, i32::MAX]);
    assert_eq!(f2.x[1].0, [17, -17, 1_000_000]);
}

#[test]
/// Each failure kind comes from the input that provokes it.
fn test_error_kinds() {
    let bx = bits_matrix([[0.0; 3]; 3]);
    let coords = vec![rvec([5, 6, 7])];
    let mut w = XDRFile::<Write>::open(Vec::new());
    w.write_xtc(3, 0, bx, &coords, 0).unwrap();
    let good = w.close();

    // empty stream: the expected end-of-stream signal
    let mut r = XDRFile::<Read>::open(Vec::new());
    assert_eq!(r.read_xtc(1), Err(XDRStatus::exdrENDOFFILE));
    assert_eq!(r.read_xtc_natoms(), Err(XDRStatus::exdrENDOFFILE));

    // corrupt magic tag
    let mut bad_magic = good.clone();
    bad_magic[0] = 0xFF;
    let mut r2 = XDRFile::<Read>::open(bad_magic);
    assert_eq!(r2.read_xtc(1), Err(XDRStatus::exdrMAGIC));

    // wrong expected atom count: a protocol error
    let mut r3 = XDRFile::<Read>::open(good.clone());
    assert_eq!(r3.read_xtc(2), Err(XDRStatus::exdrHEADER));

    // header truncated inside the count or step integers
    let mut r4 = XDRFile::<Read>::open(good[..10].to_vec());
    assert_eq!(r4.read_xtc(1), Err(XDRStatus::exdrINT));

    // header truncated inside the time float
    let mut r4b = XDRFile::<Read>::open(good[..13].to_vec());
    assert_eq!(r4b.read_xtc(1), Err(XDRStatus::exdrFLOAT));

    // box truncated
    let mut r5 = XDRFile::<Read>::open(good[..40].to_vec());
    assert_eq!(r5.read_xtc(1), Err(XDRStatus::exdrFLOAT));

    // coordinate block truncated
    let mut r6 = XDRFile::<Read>::open(good[..good.len() - 1].to_vec());
    let mut frame = XTCFrame::empty();
    frame.x.push(rvec([9, 9, 9]));
    assert_eq!(r6.read_xtc_reuse(1, &mut frame), Err(XDRStatus::exdr3DX));
    assert_eq!(frame.x.len(), 0, "a failed read must leave no stale coordinates");
}

#[test]
/// A block holding more triplets than the receiving buffer's bound is an
/// unrecoverable error for that call, and leaves the buffer empty.
fn test_decompress_bound_violation() {
    let bx = bits_matrix([[0.0; 3]; 3]);
    let coords = vec![rvec([1, 2, 3]), rvec([4, 5, 6]), rvec([7, 8, 9])];
    let mut w = XDRFile::<Write>::open(Vec::new());
    w.write_xtc(0, 0, bx, &coords, 0).unwrap();
    let bytes = w.close();

    // the coordinate block starts right after the 16-byte header and the
    // 36 box bytes
    let mut f = XDRFILE::from_bytes(bytes);
    f.seek_set(52).unwrap();
    let mut out = vec![rvec([0, 0, 0])];
    assert_eq!(decompress_coords(&mut f, 2, &mut out), Err(XDRStatus::exdr3DX));
    assert_eq!(out.len(), 0, "a refused decompression must leave no stale triplets");

    let mut g = XDRFILE::from_bytes(f.data);
    g.seek_set(52).unwrap();
    let r = decompress_coords(&mut g, 3, &mut out);
    assert_eq!(r, Ok((3, 1000.0f32.to_bits())));
    assert_eq!(out.len(), 3);
    assert_eq!(out[2].0, [7, 8, 9]);
}

#[test]
/// Appending keeps existing frames and continues at the end of the stream.
fn test_append_mode() {
    let bx = bits_matrix([[0.0; 3]; 3]);
    let coords = vec![rvec([1, 2, 3])];
    let mut w = XDRFile::<Write>::open(Vec::new());
    w.write_xtc(1, 0, bx, &coords, 0).unwrap();
    let first = w.close();

    let mut a = XDRFile::<Append>::open(first);
    a.write_xtc(2, 0, bx, &coords, 0).unwrap();
    let both = a.close();

    let mut r = XDRFile::<Read>::open(both);
    let n = r.read_xtc_natoms().unwrap();
    assert_eq!(r.read_xtc(n).unwrap().step, 1);
    assert_eq!(r.read_xtc(n).unwrap().step, 2);
    assert_eq!(r.read_xtc(n), Err(XDRStatus::exdrENDOFFILE));
}

#[test]
/// The canonical primitive encoder round-trips scalars, opaque bytes and
/// strings, and reports short reads instead of padding them.
fn test_primitives() {
    let mut f = XDRFILE::from_bytes(Vec::new());
    f.write_uint(0xDEAD_BEEF);
    f.write_int(-123456);
    f.write_short(0xBEAD);
    f.write_double(0x0123_4567_89AB_CDEF);
    f.write_opaque(&vec![1, 2, 3, 4, 5]);
    f.write_string(&vec![b'x', b't', b'c']);
    // big-endian canonical order of the first scalar
    assert_eq!(&f.data[0..4], &[0xDE, 0xAD, 0xBE, 0xEF]);

    let mut g = XDRFILE::from_bytes(f.data);
    assert_eq!(g.read_uint(), Some(0xDEAD_BEEF));
    assert_eq!(g.read_int(), Some(-123456));
    assert_eq!(g.read_short(), Some(0xBEAD));
    assert_eq!(g.read_double(), Some(0x0123_4567_89AB_CDEF));
    assert_eq!(g.read_opaque(5).as_deref(), Some(&[1u8, 2, 3, 4, 5][..]));
    assert_eq!(g.read_string(64).as_deref(), Some(&b"xtc"[..]));
    assert_eq!(g.read_uint(), None, "short read must fail, not pad");
    assert_eq!(g.read_byte(), None);

    // seeking beyond the end is refused and changes nothing
    let here = g.tell();
    assert_eq!(g.seek_set(usize::MAX), Err(XDRStatus::exdrNR));
    assert_eq!(g.tell(), here);
}

#[test]
/// A string read is bounded by the caller's buffer size: without a
/// terminator in the bound the output is truncated, never overrun.
fn test_string_truncation() {
    let mut f = XDRFILE::from_bytes(Vec::new());
    f.write_string(&vec![b'a', b'b', b'c', b'd', b'e']);
    let mut g = XDRFILE::from_bytes(f.data.clone());
    assert_eq!(g.read_string(4).as_deref(), Some(&b"abc"[..]), "truncated to maxlen - 1");
    let mut h = XDRFILE::from_bytes(f.data);
    assert_eq!(h.read_string(6).as_deref(), Some(&b"abcde"[..]));
    // stream ends before terminator and before the bound: a short read
    let mut s = XDRFILE::from_bytes(vec![b'a', b'b']);
    assert_eq!(s.read_string(16), None);
}
