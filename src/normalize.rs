//! Turning the raw bytes of a scanned frame into three-channel pixels and a
//! drawable buffer with an opaque alpha channel.
use vstd::prelude::*;
use vstd::arithmetic::div_mod::{
    lemma_div_is_ordered, lemma_fundamental_div_mod, lemma_fundamental_div_mod_converse_div,
    lemma_fundamental_div_mod_converse_mod, lemma_mod_pos_bound,
};

verus! {

/// Each element `repeated` times over, in order.
pub fn repeat_all_elements<T: Clone>(ts: Vec<T>, repeated: usize) -> (r: Vec<T>)
    requires
        ts@.len() * repeated <= usize::MAX,
    ensures
        r@.len() == ts@.len() * repeated,
        forall|i: int|
            0 <= i < r@.len() ==> #[trigger] cloned::<T>(ts@[i / repeated as int], r@[i]),
{
    let mut result: Vec<T> = Vec::new();
    let n = ts.len();
    let mut i: usize = 0;
    while i < n
        invariant
            n == ts@.len(),
            i <= n,
            n * repeated <= usize::MAX,
            result@.len() == i * repeated,
            forall|k: int|
                0 <= k < result@.len() ==> #[trigger] cloned::<T>(
                    ts@[k / repeated as int],
                    result@[k],
                ),
        decreases n - i,
    {
        proof {
            assert((i + 1) * repeated <= n * repeated) by (nonlinear_arith)
                requires
                    i < n,
            ;
            assert((i + 1) * repeated == i * repeated + repeated) by (nonlinear_arith);
        }
        let mut j: usize = 0;
        while j < repeated
            invariant
                n == ts@.len(),
                i < n,
                j <= repeated,
                (i + 1) * repeated <= usize::MAX,
                (i + 1) * repeated == i * repeated + repeated,
                result@.len() == i * repeated + j,
                forall|k: int|
                    0 <= k < result@.len() ==> #[trigger] cloned::<T>(
                        ts@[k / repeated as int],
                        result@[k],
                    ),
            decreases repeated - j,
        {
            let e = ts[i].clone();
            let ghost at = result@.len() as int;
            let ghost prev = result@;
            proof {
                lemma_fundamental_div_mod_converse_div(at, repeated as int, i as int, j as int);
            }
            result.push(e);
            proof {
                assert forall|k: int| 0 <= k < result@.len() implies #[trigger] cloned::<T>(
                    ts@[k / repeated as int],
                    result@[k],
                ) by {
                    if k < at {
                        assert(result@[k] == prev[k]);
                    }
                }
            }
            j = j + 1;
        }
        i = i + 1;
    }
    result
}

/// The elements in order, with a clone of `elem` after every `after` of them.
pub fn insert_after_every<T: Clone>(ts: Vec<T>, after: usize, elem: T) -> (r: Vec<T>)
    requires
        after > 0 || ts@.len() == 0,
        after > 0 ==> ts@.len() + (ts@.len() as int) / (after as int) <= usize::MAX,
    ensures
        ts@.len() == 0 ==> r@.len() == 0,
        after > 0 ==> r@.len() == ts@.len() + (ts@.len() as int) / (after as int),
        after > 0 ==> forall|p: int|
            0 <= p < ts@.len() ==> #[trigger] cloned::<T>(
                ts@[p],
                r@[p + p / (after as int)],
            ),
        after > 0 ==> forall|q: int|
            0 <= q < (ts@.len() as int) / (after as int) ==> #[trigger] cloned::<T>(
                elem,
                r@[(q + 1) * (after + 1) - 1],
            ),
{
    let mut result: Vec<T> = Vec::new();
    let n = ts.len();
    if n == 0 {
        return result;
    }
    let ghost a = after as int;
    let mut i: usize = 0;
    while i < n
        invariant
            n == ts@.len(),
            i <= n,
            a == after as int,
            a > 0,
            n + (n as int) / a <= usize::MAX,
            result@.len() == i + (i as int) / a,
            forall|p: int|
                0 <= p < i ==> #[trigger] cloned::<T>(ts@[p], result@[p + p / a]),
            forall|q: int|
                0 <= q < (i as int) / a ==> #[trigger] cloned::<T>(
                    elem,
                    result@[(q + 1) * (a + 1) - 1],
                ),
        decreases n - i,
    {
        let ghost ii = i as int;
        let ghost q0 = ii / a;
        let ghost rm = ii % a;
        let ghost prev = result@;
        proof {
            lemma_fundamental_div_mod(ii, a);
            lemma_mod_pos_bound(ii, a);
            lemma_div_is_ordered(ii + 1, n as int, a);
            lemma_div_is_ordered(ii, ii + 1, a);
        }
        let e = ts[i].clone();
        result.push(e);
        let ghost mid = result@;
        proof {
            assert forall|p: int| 0 <= p < ii + 1 implies #[trigger] cloned::<T>(
                ts@[p],
                result@[p + p / a],
            ) by {
                if p < ii {
                    lemma_div_is_ordered(p, ii, a);
                    assert(result@[p + p / a] == prev[p + p / a]);
                }
            }
        }
        if (i + 1) % after == 0 {
            proof {
                lemma_fundamental_div_mod(ii + 1, a);
                assert(ii + 1 == (q0 + 1) * a && (ii + 1) / a == q0 + 1) by (nonlinear_arith)
                    requires
                        ii == a * q0 + rm,
                        0 <= rm < a,
                        (ii + 1) % a == 0,
                        ii + 1 == a * ((ii + 1) / a) + (ii + 1) % a,
                        a > 0,
                ;
                assert((q0 + 1) * (a + 1) - 1 == ii + q0 + 1) by (nonlinear_arith)
                    requires
                        ii + 1 == (q0 + 1) * a,
                ;
            }
            result.push(elem.clone());
            proof {
                assert forall|p: int| 0 <= p < ii + 1 implies #[trigger] cloned::<T>(
                    ts@[p],
                    result@[p + p / a],
                ) by {
                    lemma_div_is_ordered(p, ii, a);
                    assert(result@[p + p / a] == mid[p + p / a]);
                }
                assert forall|q: int| 0 <= q < (ii + 1) / a implies #[trigger] cloned::<T>(
                    elem,
                    result@[(q + 1) * (a + 1) - 1],
                ) by {
                    if q < q0 {
                        assert(0 <= (q + 1) * (a + 1) - 1 < ii + q0) by (nonlinear_arith)
                            requires
                                0 <= q < q0,
                                ii == a * q0 + rm,
                                rm >= 0,
                                a > 0,
                        ;
                        assert(result@[(q + 1) * (a + 1) - 1] == prev[(q + 1) * (a + 1) - 1]);
                    }
                }
            }
        } else {
            proof {
                lemma_fundamental_div_mod(ii + 1, a);
                if rm + 1 == a {
                    assert(ii + 1 == (q0 + 1) * a + 0) by (nonlinear_arith)
                        requires
                            ii == a * q0 + rm,
                            rm + 1 == a,
                    ;
                    lemma_fundamental_div_mod_converse_mod(ii + 1, a, q0 + 1, 0);
                }
                assert(rm + 1 < a);
                lemma_fundamental_div_mod_converse_div(ii + 1, a, q0, rm + 1);
                assert forall|q: int| 0 <= q < (ii + 1) / a implies #[trigger] cloned::<T>(
                    elem,
                    result@[(q + 1) * (a + 1) - 1],
                ) by {
                    assert(0 <= (q + 1) * (a + 1) - 1 < ii + q0) by (nonlinear_arith)
                        requires
                            0 <= q < q0,
                            ii == a * q0 + rm,
                            rm >= 0,
                            a > 0,
                    ;
                    assert(result@[(q + 1) * (a + 1) - 1] == prev[(q + 1) * (a + 1) - 1]);
                }
            }
        }
        i = i + 1;
    }
    result
}

/// How a device lays out the samples of a frame.
#[derive(Debug, Clone, Copy, PartialEq, Eq, Structural)]
pub enum FrameFormat {
    /// One sample per pixel.
    Gray,
    /// Red, green and blue samples per pixel, interleaved.
    Rgb,
    /// The red samples alone.
    Red,
    /// The green samples alone.
    Green,
    /// The blue samples alone.
    Blue,
}

/// Why a frame's bytes do not make an image.
#[derive(Debug, Clone, Copy, PartialEq, Eq, Structural)]
pub enum FrameError {
    /// The line length is not positive, or is not whole pixels.
    BadLineLength,
    /// The bytes do not end at the end of a line.
    IncompleteLine,
}

/// The alpha of an opaque pixel.
pub const OPAQUE: u8 = 255;

/// A frame as three-channel pixels, and as four-channel pixels to draw.
#[derive(Debug)]
pub struct NormalizedFrame {
    /// Red, green and blue per pixel, row after row.
    pub pixels: Vec<u8>,
    /// `pixels` with an opaque alpha after every pixel.
    pub rgba: Vec<u8>,
    pub width: usize,
    pub height: usize,
}

/// Why a frame of `len` bytes in lines of `bpl` bytes makes no image, if it
/// does not.
pub open spec fn frame_error(len: nat, format: FrameFormat, bpl: int) -> Option<FrameError> {
    if bpl <= 0 || (format == FrameFormat::Rgb && bpl % 3 != 0) {
        Some(FrameError::BadLineLength)
    } else if len % (bpl as nat) != 0 {
        Some(FrameError::IncompleteLine)
    } else {
        None
    }
}

/// The three-channel sample at position `i` of a frame: the byte itself for a
/// colour frame, else the byte of its pixel repeated for each channel.
pub open spec fn rgb_sample(raw: Seq<u8>, format: FrameFormat, i: int) -> u8 {
    if format == FrameFormat::Rgb {
        raw[i]
    } else {
        raw[i / 3]
    }
}

/// The drawable sample at position `i`: an opaque alpha as every fourth,
/// else the three-channel samples in order.
pub open spec fn rgba_sample(pixels: Seq<u8>, i: int) -> u8 {
    if i % 4 == 3 {
        OPAQUE
    } else {
        pixels[(i / 4) * 3 + i % 4]
    }
}

/// The pixels of a frame of raw samples in lines of `bytes_per_line` bytes.
pub fn normalize_frame(raw: Vec<u8>, format: FrameFormat, bytes_per_line: i32) -> (r: Result<
    NormalizedFrame,
    FrameError,
>)
    requires
        raw@.len() * 4 <= usize::MAX,
    ensures
        match frame_error(raw@.len(), format, bytes_per_line as int) {
            Some(x) => r == Err::<NormalizedFrame, FrameError>(x),
            None => r matches Ok(f) && {
                &&& f.width == if format == FrameFormat::Rgb {
                    bytes_per_line / 3
                } else {
                    bytes_per_line as int
                }
                &&& f.height == raw@.len() / (bytes_per_line as nat)
                &&& f.pixels@.len() == f.width * f.height * 3
                &&& forall|i: int|
                    0 <= i < f.pixels@.len() ==> #[trigger] f.pixels@[i] == rgb_sample(
                        raw@,
                        format,
                        i,
                    )
                &&& f.rgba@.len() == f.width * f.height * 4
                &&& forall|i: int|
                    0 <= i < f.rgba@.len() ==> #[trigger] f.rgba@[i] == rgba_sample(f.pixels@, i)
            },
        },
{
    if bytes_per_line <= 0 || (format == FrameFormat::Rgb && bytes_per_line % 3 != 0) {
        return Err(FrameError::BadLineLength);
    }
    let bpl = bytes_per_line as usize;
    if raw.len() % bpl != 0 {
        return Err(FrameError::IncompleteLine);
    }
    let ghost raw_seq = raw@;
    let height = raw.len() / bpl;
    let rgb = format == FrameFormat::Rgb;
    let width = if rgb {
        bpl / 3
    } else {
        bpl
    };
    proof {
        lemma_fundamental_div_mod(raw_seq.len() as int, bpl as int);
        if rgb {
            lemma_fundamental_div_mod(bpl as int, 3);
        }
        assert(width * height * 3 == if rgb {
            raw_seq.len() as int
        } else {
            3 * raw_seq.len() as int
        }) by (nonlinear_arith)
            requires
                raw_seq.len() == bpl * height,
                rgb ==> bpl == 3 * width,
                !rgb ==> bpl == width,
        ;
    }
    let pixels = if rgb {
        raw
    } else {
        repeat_all_elements(raw, 3)
    };
    proof {
        assert forall|i: int| 0 <= i < pixels@.len() implies #[trigger] pixels@[i] == rgb_sample(
            raw_seq,
            format,
            i,
        ) by {
            if !rgb {
                assert(cloned::<u8>(raw_seq[i / 3], pixels@[i]));
            }
        }
    }
    let ghost px = pixels@;
    let rgba = insert_after_every(pixels.clone(), 3, OPAQUE);
    proof {
        assert(pixels@ == px);
        let n = px.len() as int;
        assert(n / 3 == width * height) by {
            lemma_fundamental_div_mod_converse_div(n, 3, width * height, 0);
        }
        assert forall|i: int| 0 <= i < rgba@.len() implies #[trigger] rgba@[i] == rgba_sample(
            px,
            i,
        ) by {
            let q = i / 4;
            let m = i % 4;
            lemma_fundamental_div_mod(i, 4);
            lemma_mod_pos_bound(i, 4);
            if m == 3 {
                assert((q + 1) * (3 + 1) - 1 == i) by (nonlinear_arith)
                    requires
                        i == 4 * q + m,
                        m == 3,
                ;
                assert(q < n / 3);
                assert(cloned::<u8>(OPAQUE, rgba@[(q + 1) * (3 + 1) - 1]));
            } else {
                let p = q * 3 + m;
                lemma_fundamental_div_mod_converse_div(p, 3, q, m);
                assert(p + p / 3 == i);
                assert(p < n);
                assert(cloned::<u8>(px[p], rgba@[p + p / 3]));
            }
        }
    }
    Ok(NormalizedFrame { pixels, rgba, width, height })
}

} // verus!
