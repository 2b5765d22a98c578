//! The decoder: scans the canvas block by block in row-major order, splits
//! the stream at the separator into a data phase and an overflow phase,
//! replays the overflow records, strips the zero padding and validates the
//! result as text.
use vstd::prelude::*;

use crate::canvas::canvas_get;
use crate::canvas::canvas_height;
use crate::canvas::canvas_height_of;
use crate::canvas::canvas_pixels;
use crate::canvas::canvas_width;
use crate::canvas::canvas_width_of;
use crate::canvas::utf8_bytes_of;
use crate::canvas::utf8_to_string;
use crate::canvas::Canvas;
use crate::model::apply_record;
use crate::model::apply_upto;
use crate::model::ceil_div;
use crate::model::diff_channel;
use crate::model::lemma_ceil_div;
use crate::model::lemma_ceil_div_unique;
use crate::model::lemma_rowmajor_split;
use crate::model::rec_target;
use crate::model::sampled_blocks;
use crate::model::sat_add;
use crate::model::scan_step;
use crate::model::scan_upto;
use crate::model::spec_decode_bytes;
use crate::model::strip_trailing_zeros;
use crate::CodecError;

verus! {

/// The decoder's two phases: collecting data blocks until the separator,
/// then collecting overflow blocks.
#[derive(Clone, Copy)]
enum DecodePhase {
    CollectingData,
    CollectingOverflow,
}

/// Decodes a canvas back into the text it encodes, using the same block size
/// and base color the encoder used. The scan samples one pixel per block; a
/// zero block size is rejected, and bytes that are not valid text are
/// reported as `InvalidEncoding`.
pub fn decode_pixels_to_string(canvas: &Canvas, pixel_size: u32, base_color: (u8, u8, u8)) -> (r:
    Result<String, CodecError>)
    ensures
        pixel_size == 0 ==> (r matches Err(e) && e == CodecError::InvalidPixelSize),
        pixel_size >= 1 ==> ({
            let decoded = spec_decode_bytes(
                sampled_blocks(
                    canvas_pixels(*canvas),
                    canvas_width_of(*canvas),
                    canvas_height_of(*canvas),
                    pixel_size,
                ),
                base_color,
            );
            &&& (r matches Ok(s) ==> utf8_bytes_of(s@) == decoded)
            &&& (r matches Ok(s) ==> forall|t: Seq<char>| decoded == utf8_bytes_of(t) ==> s@ == t)
            &&& (r matches Err(e) ==> e == CodecError::InvalidEncoding && (forall|t: Seq<char>|
                decoded != utf8_bytes_of(t)))
        }),
{
    if pixel_size == 0 {
        return Err(CodecError::InvalidPixelSize);
    }
    let w = canvas_width(canvas);
    let h = canvas_height(canvas);
    let ghost m = canvas_pixels(*canvas);
    let ghost cols = ceil_div(w as int, pixel_size as int);
    let ghost rows = ceil_div(h as int, pixel_size as int);
    let ghost blocks = sampled_blocks(m, w, h, pixel_size);
    proof {
        lemma_ceil_div(w as int, pixel_size as int);
        lemma_ceil_div(h as int, pixel_size as int);
    }
    let mut data: Vec<u8> = Vec::new();
    let mut recs: Vec<(u8, u8, u8)> = Vec::new();
    let mut phase = DecodePhase::CollectingData;
    let mut y: u64 = 0;
    let mut yi: u64 = 0;
    while y < h as u64
        invariant
            pixel_size >= 1,
            w == canvas_width_of(*canvas),
            h == canvas_height_of(*canvas),
            m == canvas_pixels(*canvas),
            cols == ceil_div(w as int, pixel_size as int),
            rows == ceil_div(h as int, pixel_size as int),
            cols >= 0,
            rows >= 0,
            cols * pixel_size >= w,
            rows * pixel_size >= h,
            w > 0 ==> (cols - 1) * pixel_size < w,
            h > 0 ==> (rows - 1) * pixel_size < h,
            blocks == sampled_blocks(m, w, h, pixel_size),
            blocks.len() == rows * cols,
            y as int == yi as int * pixel_size as int,
            yi == 0 || (yi - 1) as int * (pixel_size as int) < h as int,
            yi as int <= rows,
            (phase is CollectingOverflow) == scan_upto(blocks, base_color, yi as int * cols)
                .in_overflow,
            data@ == scan_upto(blocks, base_color, yi as int * cols).data,
            recs@ == scan_upto(blocks, base_color, yi as int * cols).recs,
        decreases rows - yi,
    {
        proof {
            if yi as int >= rows {
                assert(yi as int * pixel_size as int >= rows * pixel_size) by (nonlinear_arith)
                    requires
                        yi as int >= rows && pixel_size >= 1 && rows >= 0,
                ;
            }
        }
        let mut x: u64 = 0;
        let mut xi: u64 = 0;
        while x < w as u64
            invariant
                pixel_size >= 1,
                w == canvas_width_of(*canvas),
                h == canvas_height_of(*canvas),
                m == canvas_pixels(*canvas),
                cols == ceil_div(w as int, pixel_size as int),
                rows == ceil_div(h as int, pixel_size as int),
                cols >= 0,
                rows >= 0,
                cols * pixel_size >= w,
                w > 0 ==> (cols - 1) * pixel_size < w,
                blocks == sampled_blocks(m, w, h, pixel_size),
                blocks.len() == rows * cols,
                y < h as u64,
                y as int == yi as int * pixel_size as int,
                (yi as int) < rows,
                x as int == xi as int * pixel_size as int,
                xi == 0 || (xi - 1) as int * (pixel_size as int) < w as int,
                xi as int <= cols,
                (phase is CollectingOverflow) == scan_upto(
                    blocks,
                    base_color,
                    yi as int * cols + xi as int,
                ).in_overflow,
                data@ == scan_upto(blocks, base_color, yi as int * cols + xi as int).data,
                recs@ == scan_upto(blocks, base_color, yi as int * cols + xi as int).recs,
            decreases cols - xi,
        {
            let ghost k = yi as int * cols + xi as int;
            proof {
                if xi as int >= cols {
                    assert(xi as int * pixel_size as int >= cols * pixel_size) by (nonlinear_arith)
                        requires
                            xi as int >= cols && pixel_size >= 1 && cols >= 0,
                    ;
                }
                assert(k < rows * cols) by (nonlinear_arith)
                    requires
                        k == yi as int * cols + xi as int && yi as int <= rows - 1 && 0 <= xi as int && (xi as int) < cols,
                ;
                lemma_rowmajor_split(yi as int, xi as int, cols);
                assert(blocks[k] == m[((x as u64) as u32, (y as u64) as u32)]);
            }
            let p = canvas_get(canvas, x as u32, y as u32);
            let ghost st = scan_upto(blocks, base_color, k);
            match phase {
                DecodePhase::CollectingData => {
                    if p.0 == 0 && p.1 == 0 && p.2 == 0 && p.3 == 0 {
                        phase = DecodePhase::CollectingOverflow;
                    } else {
                        let d0 = if p.0 >= base_color.0 {
                            p.0 - base_color.0
                        } else {
                            0
                        };
                        let d1 = if p.1 >= base_color.1 {
                            p.1 - base_color.1
                        } else {
                            0
                        };
                        let d2 = if p.2 >= base_color.2 {
                            p.2 - base_color.2
                        } else {
                            0
                        };
                        data.push(d0);
                        data.push(d1);
                        data.push(d2);
                        proof {
                            assert(data@ =~= st.data + seq![
                                diff_channel(base_color.0, p.0),
                                diff_channel(base_color.1, p.1),
                                diff_channel(base_color.2, p.2),
                            ]);
                        }
                    }
                },
                DecodePhase::CollectingOverflow => {
                    if p.3 > 0 {
                        recs.push((p.0, p.1, p.2));
                    }
                },
            }
            x = x + pixel_size as u64;
            xi = xi + 1;
            proof {
                assert(xi as int * pixel_size as int == (xi - 1) as int * pixel_size as int
                    + pixel_size as int) by (nonlinear_arith);
                assert(scan_upto(blocks, base_color, k + 1) == scan_step(st, blocks[k], base_color));
            }
        }
        proof {
            lemma_ceil_div_unique(w as int, pixel_size as int, xi as int);
            assert(yi as int * cols + cols == (yi + 1) as int * cols) by (nonlinear_arith);
        }
        y = y + pixel_size as u64;
        yi = yi + 1;
        proof {
            assert(yi as int * pixel_size as int == (yi - 1) as int * pixel_size as int
                + pixel_size as int) by (nonlinear_arith);
        }
    }
    proof {
        lemma_ceil_div_unique(h as int, pixel_size as int, yi as int);
        assert(yi as int * cols == blocks.len());
    }
    let ghost st = scan_upto(blocks, base_color, blocks.len() as int);
    let ghost data0 = data@;
    let mut j: usize = 0;
    while j < recs.len()
        invariant
            j <= recs@.len(),
            recs@ == st.recs,
            data0 == st.data,
            data@ == apply_upto(data0, recs@, j as int),
        decreases recs@.len() - j,
    {
        let ghost before = data@;
        let rec = recs[j];
        if rec.1 >= 1 && rec.1 <= 3 {
            let t: usize = (rec.0 as usize) * 3 + (rec.1 as usize - 1);
            if t < data.len() {
                let s: u16 = data[t] as u16 + rec.2 as u16;
                let v: u8 = if s > 255 {
                    255
                } else {
                    s as u8
                };
                data[t] = v;
                proof {
                    assert(t as int == rec_target(rec));
                    assert(v == sat_add(before[t as int], rec.2));
                    assert(data@ == apply_record(before, rec));
                }
            }
        }
        j = j + 1;
        proof {
            assert(data@ == apply_record(before, rec));
        }
    }
    proof {
        assert(recs@.take(recs@.len() as int) =~= recs@);
    }
    let ghost corrected = apply_upto(st.data, st.recs, st.recs.len() as int);
    while data.len() > 0 && data[data.len() - 1] == 0
        invariant
            strip_trailing_zeros(data@) == strip_trailing_zeros(corrected),
        decreases data@.len(),
    {
        data.pop();
    }
    proof {
        assert(strip_trailing_zeros(data@) == data@);
        assert(data@ == spec_decode_bytes(blocks, base_color));
    }
    match utf8_to_string(data) {
        Some(s) => Ok(s),
        None => Err(CodecError::InvalidEncoding),
    }
}

} // verus!
