//! The encoder: chunks the input bytes, records the channel overflows,
//! sizes the square canvas, and writes data blocks, the separator block and
//! the overflow blocks in row-major order.
use vstd::prelude::*;

use crate::add_with_overflow;
use crate::canvas::canvas_from_raw;
use crate::canvas::canvas_height_of;
use crate::canvas::canvas_pixels;
use crate::canvas::canvas_width_of;
use crate::canvas::raw_pixel_at;
use crate::canvas::str_utf8_bytes;
use crate::canvas::utf8_bytes_of;
use crate::canvas::Canvas;
use crate::model::block_index_of;
use crate::model::blocks_of_chunks;
use crate::model::ceil_sqrt;
use crate::model::chunk_at;
use crate::model::count_overflow_upto;
use crate::model::data_block;
use crate::model::is_ceil_sqrt;
use crate::model::lemma_ceil_sqrt_is;
use crate::model::lemma_ceil_sqrt_unique;
use crate::model::lemma_records_len;
use crate::model::lemma_rowmajor_lt;
use crate::model::num_chunks;
use crate::model::records_upto;
use crate::model::separator_block;
use crate::model::spec_blocks;
use crate::model::spec_chunks;
use crate::model::spec_count_overflow;
use crate::model::spec_pixel;
use crate::model::spec_records;
use crate::model::vec_chunk_triples;
use crate::CodecError;
use crate::MAX_PIXEL_SIZE;

verus! {

/// What it means for a canvas to encode the given bytes: a square of
/// `ceil_sqrt(total blocks)` blocks of `ps` pixels each, every pixel holding
/// its block's color, unused cells at the default value.
pub open spec fn encodes(c: Canvas, bytes: Seq<u8>, ps: u32, base: (u8, u8, u8)) -> bool {
    let blocks = spec_blocks(bytes, base);
    let n = ceil_sqrt(blocks.len() as int);
    &&& canvas_width_of(c) as int == n * ps as int
    &&& canvas_height_of(c) as int == n * ps as int
    &&& forall|x: u32, y: u32|
        (x as int) < n * ps as int && (y as int) < n * ps as int
            ==> #[trigger] canvas_pixels(c).contains_pair((x, y), spec_pixel(blocks, ps, n, x, y))
}

/// Counts the (chunk, channel) pairs whose sum with the base color exceeds
/// 255 — exactly the number of overflow blocks the layout must reserve.
pub fn count_overflow_pixels(chunks: &Vec<Vec<u8>>, base_color: (u8, u8, u8)) -> (count: u32)
    requires
        forall|i: int| 0 <= i < chunks@.len() ==> #[trigger] chunks@[i]@.len() >= 3,
        3 * chunks@.len() <= u32::MAX,
    ensures
        count == spec_count_overflow(vec_chunk_triples(chunks@), base_color),
{
    let mut count: u32 = 0;
    let mut i: usize = 0;
    while i < chunks.len()
        invariant
            i <= chunks@.len(),
            forall|k: int| 0 <= k < chunks@.len() ==> #[trigger] chunks@[k]@.len() >= 3,
            3 * chunks@.len() <= u32::MAX,
            count as int == count_overflow_upto(vec_chunk_triples(chunks@), base_color, i as int),
            count as int <= 3 * i,
        decreases chunks@.len() - i,
    {
        let c0 = chunks[i][0];
        let c1 = chunks[i][1];
        let c2 = chunks[i][2];
        if c0 as u16 + base_color.0 as u16 > 255 {
            count = count + 1;
        }
        if c1 as u16 + base_color.1 as u16 > 255 {
            count = count + 1;
        }
        if c2 as u16 + base_color.2 as u16 > 255 {
            count = count + 1;
        }
        i = i + 1;
        proof {
            assert(vec_chunk_triples(chunks@)[i - 1] == (c0, c1, c2));
        }
    }
    count
}

/// Splits the input into 3-byte chunks, zero-padding the last one.
fn build_chunks(bytes: &Vec<u8>) -> (chunks: Vec<(u8, u8, u8)>)
    requires
        bytes@.len() <= 765,
    ensures
        chunks@ == spec_chunks(bytes@),
        chunks@.len() == num_chunks(bytes@.len() as int),
{
    let n_chunks: usize = (bytes.len() + 2) / 3;
    let mut chunks: Vec<(u8, u8, u8)> = Vec::new();
    let mut i: usize = 0;
    while i < n_chunks
        invariant
            bytes@.len() <= 765,
            n_chunks == num_chunks(bytes@.len() as int),
            i <= n_chunks,
            chunks@ == spec_chunks(bytes@).take(i as int),
        decreases n_chunks - i,
    {
        let b0 = if 3 * i < bytes.len() {
            bytes[3 * i]
        } else {
            0
        };
        let b1 = if 3 * i + 1 < bytes.len() {
            bytes[3 * i + 1]
        } else {
            0
        };
        let b2 = if 3 * i + 2 < bytes.len() {
            bytes[3 * i + 2]
        } else {
            0
        };
        chunks.push((b0, b1, b2));
        i = i + 1;
        proof {
            assert(chunk_at(bytes@, i - 1) == (b0, b1, b2));
            assert(chunks@ =~= spec_chunks(bytes@).take(i as int));
        }
    }
    proof {
        assert(spec_chunks(bytes@).take(n_chunks as int) =~= spec_chunks(bytes@));
    }
    chunks
}

/// Builds the block color sequence: one data block per chunk, the separator,
/// then one overflow block per record, in emission order.
fn build_blocks(chunks: &Vec<(u8, u8, u8)>, base: (u8, u8, u8)) -> (blocks: Vec<(u8, u8, u8, u8)>)
    requires
        chunks@.len() <= 255,
    ensures
        blocks@ == blocks_of_chunks(chunks@, base),
        blocks@.len() == chunks@.len() + 1 + spec_records(chunks@, base).len(),
{
    let ghost data_of = |c: (u8, u8, u8)| data_block(base, c);
    let mut blocks: Vec<(u8, u8, u8, u8)> = Vec::new();
    let mut recs: Vec<(u8, u8, u8)> = Vec::new();
    let mut i: usize = 0;
    while i < chunks.len()
        invariant
            i <= chunks@.len() <= 255,
            blocks@ == chunks@.take(i as int).map_values(data_of),
            data_of == (|c: (u8, u8, u8)| data_block(base, c)),
            recs@ == records_upto(chunks@, base, i as int),
        decreases chunks@.len() - i,
    {
        let c = chunks[i];
        let (r, r_over) = add_with_overflow(base.0, c.0);
        let (g, g_over) = add_with_overflow(base.1, c.1);
        let (b, b_over) = add_with_overflow(base.2, c.2);
        if r_over > 0 {
            recs.push((i as u8, 1, r_over));
        }
        if g_over > 0 {
            recs.push((i as u8, 2, g_over));
        }
        if b_over > 0 {
            recs.push((i as u8, 3, b_over));
        }
        blocks.push((r, g, b, 255));
        i = i + 1;
        proof {
            assert(recs@ =~= records_upto(chunks@, base, i as int));
            assert(blocks@ =~= chunks@.take(i as int).map_values(data_of));
        }
    }
    proof {
        assert(chunks@.take(chunks@.len() as int) =~= chunks@);
        lemma_records_len(chunks@, base, chunks@.len() as int);
    }
    blocks.push((0, 0, 0, 0));
    let ghost over_of = |r: (u8, u8, u8)| crate::model::overflow_block(r);
    let ghost data_part = chunks@.map_values(data_of) + seq![separator_block()];
    let mut j: usize = 0;
    while j < recs.len()
        invariant
            j <= recs@.len(),
            recs@ == spec_records(chunks@, base),
            data_part == chunks@.map_values(data_of) + seq![separator_block()],
            data_of == (|c: (u8, u8, u8)| data_block(base, c)),
            over_of == (|r: (u8, u8, u8)| crate::model::overflow_block(r)),
            blocks@ == data_part + recs@.take(j as int).map_values(over_of),
        decreases recs@.len() - j,
    {
        let rec = recs[j];
        blocks.push((rec.0, rec.1, rec.2, 255));
        j = j + 1;
        proof {
            assert(blocks@ =~= data_part + recs@.take(j as int).map_values(over_of));
        }
    }
    proof {
        assert(recs@.take(recs@.len() as int) =~= recs@);
        assert(blocks@ =~= blocks_of_chunks(chunks@, base));
    }
    blocks
}

/// The least side, in blocks, of a square holding `total` blocks.
fn ceil_sqrt_u32(total: u32) -> (n: u32)
    requires
        total <= 1024,
    ensures
        n as int == ceil_sqrt(total as int),
        n <= 32,
{
    let mut n: u32 = 0;
    let mut sq: u32 = 0;
    while sq < total
        invariant
            n <= 32,
            sq as int == n as int * n as int,
            sq <= 1089,
            total <= 1024,
            n == 0 || ((n - 1) as int) * ((n - 1) as int) < total as int,
        decreases 33 - n,
    {
        proof {
            assert(n <= 31) by {
                if n >= 32 {
                    assert(n as int * n as int >= 1024) by (nonlinear_arith)
                        requires
                            n >= 32,
                    ;
                }
            }
        }
        sq = sq + 2 * n + 1;
        n = n + 1;
        proof {
            assert(n as int * n as int == (n - 1) as int * (n - 1) as int + 2 * (n - 1) + 1)
                by (nonlinear_arith);
        }
    }
    proof {
        assert(is_ceil_sqrt(n as int, total as int));
        lemma_ceil_sqrt_is(total as int);
        lemma_ceil_sqrt_unique(n as int, ceil_sqrt(total as int), total as int);
    }
    n
}

/// Lays the block colors out as a raw row-major RGBA byte buffer for a
/// square canvas of `n` blocks of `ps` pixels on a side.
fn build_raw(blocks: &Vec<(u8, u8, u8, u8)>, ps: u32, n: u32, size: u32) -> (raw: Vec<u8>)
    requires
        1 <= ps <= 1023,
        n <= 32,
        size as int == n as int * ps as int,
    ensures
        raw@.len() == 4 * ((size as int) * (size as int)),
        forall|x: u32, y: u32|
            x < size && y < size ==> #[trigger] raw_pixel_at(raw@, size as int, x as int, y as int)
                == spec_pixel(blocks@, ps, n as int, x, y),
{
    proof {
        assert(size <= 32736) by (nonlinear_arith)
            requires
                size as int == n as int * ps as int && n <= 32 && ps <= 1023,
        ;
    }
    let mut raw: Vec<u8> = Vec::new();
    let mut y: u32 = 0;
    while y < size
        invariant
            y <= size,
            size <= 32736,
            1 <= ps <= 1023,
            n <= 32,
            size as int == n as int * ps as int,
            raw@.len() == 4 * ((y as int) * (size as int)),
            forall|px: u32, py: u32|
                py < y && px < size ==> #[trigger] raw_pixel_at(
                    raw@,
                    size as int,
                    px as int,
                    py as int,
                ) == spec_pixel(blocks@, ps, n as int, px, py),
        decreases size - y,
    {
        let mut x: u32 = 0;
        while x < size
            invariant
                x <= size,
                y < size,
                size <= 32736,
                1 <= ps <= 1023,
                n <= 32,
                size as int == n as int * ps as int,
                raw@.len() == 4 * ((y as int) * (size as int) + (x as int)),
                forall|px: u32, py: u32|
                    (py < y || (py == y && px < x)) && px < size && py < y + 1
                        ==> #[trigger] raw_pixel_at(raw@, size as int, px as int, py as int)
                        == spec_pixel(blocks@, ps, n as int, px, py),
            decreases size - x,
        {
            let bx = x / ps;
            let by = y / ps;
            proof {
                assert((by as int) * (n as int) + (bx as int) <= 0x1_0000_0000int * 32 + 0xFFFF_FFFFint)
                    by (nonlinear_arith)
                    requires
                        by <= 0xFFFF_FFFFu32 && n <= 32 && bx <= 0xFFFF_FFFFu32,
                ;
            }
            let k64: u64 = (by as u64) * (n as u64) + (bx as u64);
            let color: (u8, u8, u8, u8) = if k64 < blocks.len() as u64 {
                blocks[k64 as usize]
            } else {
                (0, 0, 0, 0)
            };
            proof {
                assert(k64 as int == block_index_of(ps, n as int, x, y));
                assert(color == spec_pixel(blocks@, ps, n as int, x, y));
            }
            let ghost old_raw = raw@;
            raw.push(color.0);
            raw.push(color.1);
            raw.push(color.2);
            raw.push(color.3);
            x = x + 1;
            proof {
                let sz = size as int;
                assert forall|px: u32, py: u32|
                    (py < y || (py == y && px < x)) && px < size && py < y + 1 implies #[trigger]
                raw_pixel_at(raw@, sz, px as int, py as int) == spec_pixel(
                    blocks@,
                    ps,
                    n as int,
                    px,
                    py,
                ) by {
                    if py < y || (py == y && px < x - 1) {
                        lemma_rowmajor_lt(px as int, py as int, x - 1, y as int, sz);
                        assert(raw_pixel_at(raw@, sz, px as int, py as int) == raw_pixel_at(
                            old_raw,
                            sz,
                            px as int,
                            py as int,
                        ));
                    } else {
                        assert(px == x - 1 && py == y);
                        assert(raw@[4 * ((y as int) * sz + (x - 1))] == color.0);
                    }
                }
            }
        }
        y = y + 1;
        proof {
            assert((y as int) * (size as int) == (y - 1) as int * (size as int) + (size as int))
                by (nonlinear_arith);
        }
    }
    raw
}

/// Encodes a byte string into a fresh square canvas, keyed by the base
/// color. Inputs over 765 bytes are rejected (a chunk index must fit one
/// byte), as is a block size of zero or beyond `MAX_PIXEL_SIZE`.
pub fn string_to_pixels(input: &str, pixel_size: u32, base_color: (u8, u8, u8)) -> (r: Result<
    Canvas,
    CodecError,
>)
    ensures
        ({
            let bytes = utf8_bytes_of(input@);
            &&& bytes.len() > 765 ==> (r matches Err(e) && e == CodecError::InputTooLarge)
            &&& (bytes.len() <= 765 && !(1 <= pixel_size <= MAX_PIXEL_SIZE)) ==> (r matches Err(e)
                && e == CodecError::InvalidPixelSize)
            &&& (bytes.len() <= 765 && 1 <= pixel_size <= MAX_PIXEL_SIZE) ==> (r matches Ok(c)
                && encodes(c, bytes, pixel_size, base_color))
        }),
{
    let bytes = str_utf8_bytes(input);
    if bytes.len() > 765 {
        return Err(CodecError::InputTooLarge);
    }
    if pixel_size == 0 || pixel_size > MAX_PIXEL_SIZE {
        return Err(CodecError::InvalidPixelSize);
    }
    let chunks = build_chunks(&bytes);
    proof {
        lemma_records_len(chunks@, base_color, chunks@.len() as int);
    }
    let blocks = build_blocks(&chunks, base_color);
    let total = blocks.len() as u32;
    let n = ceil_sqrt_u32(total);
    proof {
        assert(n as int * pixel_size as int <= 32736) by (nonlinear_arith)
            requires
                n <= 32 && 1 <= pixel_size <= 1023,
        ;
    }
    let size = n * pixel_size;
    let raw = build_raw(&blocks, pixel_size, n, size);
    proof {
        assert(4 * ((size as int) * (size as int)) == 4 * (size as int) * (size as int))
            by (nonlinear_arith);
    }
    let c = canvas_from_raw(size, size, raw);
    proof {
        assert forall|x: u32, y: u32|
            (x as int) < (size as int) && (y as int) < (size as int) implies #[trigger]
        canvas_pixels(c).contains_pair(
            (x, y),
            spec_pixel(spec_blocks(bytes@, base_color), pixel_size, n as int, x, y),
        ) by {
            assert(canvas_pixels(c).contains_pair(
                (x, y),
                raw_pixel_at(raw@, size as int, x as int, y as int),
            ));
        }
    }
    Ok(c)
}

} // verus!
