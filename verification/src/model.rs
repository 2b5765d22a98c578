//! Mathematical model of the codec: chunking, channel arithmetic with
//! clamping, overflow records, block layout, and the decoder's scan.
use vstd::prelude::*;

verus! {

// ---------------------------------------------------------------------------
// Channel arithmetic
// ---------------------------------------------------------------------------

/// The channel value written to a data block: base plus byte, clamped at 255.
pub open spec fn stored_channel(base: u8, b: u8) -> u8 {
    if base + b > 255 {
        255u8
    } else {
        (base + b) as u8
    }
}

/// The amount clamped away when a channel overflows; zero otherwise.
pub open spec fn excess_channel(base: u8, b: u8) -> u8 {
    if base + b > 255 {
        (base + b - 255) as u8
    } else {
        0u8
    }
}

/// The decoder's reconstruction of a byte from a stored channel value:
/// saturating subtraction of the base.
pub open spec fn diff_channel(base: u8, v: u8) -> u8 {
    if v >= base {
        (v - base) as u8
    } else {
        0u8
    }
}

/// Saturating byte addition, used when replaying overflow records.
pub open spec fn sat_add(a: u8, b: u8) -> u8 {
    if a + b > 255 {
        255u8
    } else {
        (a + b) as u8
    }
}

/// Channel `j` (0, 1 or 2) of a color triple.
pub open spec fn triple_ch(c: (u8, u8, u8), j: int) -> u8 {
    if j == 0 {
        c.0
    } else if j == 1 {
        c.1
    } else {
        c.2
    }
}

// ---------------------------------------------------------------------------
// Chunking
// ---------------------------------------------------------------------------

/// Number of 3-byte chunks an input of the given length produces.
pub open spec fn num_chunks(len: int) -> int {
    (len + 2) / 3
}

/// The byte at position `i`, or the zero padding byte past the end.
pub open spec fn byte_or_zero(bytes: Seq<u8>, i: int) -> u8 {
    if 0 <= i < bytes.len() {
        bytes[i]
    } else {
        0u8
    }
}

/// Chunk `i` of the input: three consecutive bytes, zero-padded at the end.
pub open spec fn chunk_at(bytes: Seq<u8>, i: int) -> (u8, u8, u8) {
    (byte_or_zero(bytes, 3 * i), byte_or_zero(bytes, 3 * i + 1), byte_or_zero(bytes, 3 * i + 2))
}

/// The input split into 3-byte chunks, the last one zero-padded.
pub open spec fn spec_chunks(bytes: Seq<u8>) -> Seq<(u8, u8, u8)> {
    Seq::new(num_chunks(bytes.len() as int) as nat, |i: int| chunk_at(bytes, i))
}

// ---------------------------------------------------------------------------
// Overflow records
// ---------------------------------------------------------------------------

/// How many of the three channels of `c` overflow when added onto `base`.
pub open spec fn chunk_overflows(base: (u8, u8, u8), c: (u8, u8, u8)) -> int {
    (if base.0 + c.0 > 255 {
        1int
    } else {
        0int
    }) + (if base.1 + c.1 > 255 {
        1int
    } else {
        0int
    }) + (if base.2 + c.2 > 255 {
        1int
    } else {
        0int
    })
}

/// Overflowing (chunk, channel) pairs among the first `n` chunks.
pub open spec fn count_overflow_upto(chunks: Seq<(u8, u8, u8)>, base: (u8, u8, u8), n: int) -> int
    decreases n,
{
    if n <= 0 {
        0
    } else {
        count_overflow_upto(chunks, base, n - 1) + chunk_overflows(base, chunks[n - 1])
    }
}

/// Total number of overflow records for the given chunks and base color.
pub open spec fn spec_count_overflow(chunks: Seq<(u8, u8, u8)>, base: (u8, u8, u8)) -> int {
    count_overflow_upto(chunks, base, chunks.len() as int)
}

/// The overflow records of chunk `i`: (chunk index, channel code 1..3,
/// magnitude), in channel order R, G, B; only overflowing channels appear.
pub open spec fn chunk_records(i: int, base: (u8, u8, u8), c: (u8, u8, u8)) -> Seq<(u8, u8, u8)> {
    (if base.0 + c.0 > 255 {
        seq![(i as u8, 1u8, excess_channel(base.0, c.0))]
    } else {
        Seq::<(u8, u8, u8)>::empty()
    }) + (if base.1 + c.1 > 255 {
        seq![(i as u8, 2u8, excess_channel(base.1, c.1))]
    } else {
        Seq::<(u8, u8, u8)>::empty()
    }) + (if base.2 + c.2 > 255 {
        seq![(i as u8, 3u8, excess_channel(base.2, c.2))]
    } else {
        Seq::<(u8, u8, u8)>::empty()
    })
}

/// Overflow records of the first `n` chunks, in chunk-major order.
pub open spec fn records_upto(chunks: Seq<(u8, u8, u8)>, base: (u8, u8, u8), n: int) -> Seq<
    (u8, u8, u8),
>
    decreases n,
{
    if n <= 0 {
        Seq::<(u8, u8, u8)>::empty()
    } else {
        records_upto(chunks, base, n - 1) + chunk_records(n - 1, base, chunks[n - 1])
    }
}

/// All overflow records, in the order the encoder emits them.
pub open spec fn spec_records(chunks: Seq<(u8, u8, u8)>, base: (u8, u8, u8)) -> Seq<(u8, u8, u8)> {
    records_upto(chunks, base, chunks.len() as int)
}

// ---------------------------------------------------------------------------
// Blocks
// ---------------------------------------------------------------------------

/// The color of a data block: the clamped sums, fully opaque.
pub open spec fn data_block(base: (u8, u8, u8), c: (u8, u8, u8)) -> (u8, u8, u8, u8) {
    (stored_channel(base.0, c.0), stored_channel(base.1, c.1), stored_channel(base.2, c.2), 255u8)
}

/// The reserved separator color: transparent black.
pub open spec fn separator_block() -> (u8, u8, u8, u8) {
    (0u8, 0u8, 0u8, 0u8)
}

/// The default value of unused canvas cells, identical to the separator but
/// ignored by the decoder because of its transparent alpha.
pub open spec fn default_block() -> (u8, u8, u8, u8) {
    (0u8, 0u8, 0u8, 0u8)
}

/// The color of an overflow block: the record's triple, fully opaque.
pub open spec fn overflow_block(r: (u8, u8, u8)) -> (u8, u8, u8, u8) {
    (r.0, r.1, r.2, 255u8)
}

/// The block sequence for the given chunks: data blocks, the separator, then
/// one overflow block per record.
pub open spec fn blocks_of_chunks(chunks: Seq<(u8, u8, u8)>, base: (u8, u8, u8)) -> Seq<
    (u8, u8, u8, u8),
> {
    chunks.map_values(|c: (u8, u8, u8)| data_block(base, c)) + seq![separator_block()]
        + spec_records(chunks, base).map_values(|r: (u8, u8, u8)| overflow_block(r))
}

/// The block sequence encoding the given input bytes.
pub open spec fn spec_blocks(bytes: Seq<u8>, base: (u8, u8, u8)) -> Seq<(u8, u8, u8, u8)> {
    blocks_of_chunks(spec_chunks(bytes), base)
}

/// `pad` unused cells at their default value.
pub open spec fn default_seq(pad: nat) -> Seq<(u8, u8, u8, u8)> {
    Seq::new(pad, |i: int| default_block())
}

// ---------------------------------------------------------------------------
// Layout
// ---------------------------------------------------------------------------

/// `n` is the least side (in blocks) of a square holding `total` blocks.
pub open spec fn is_ceil_sqrt(n: int, total: int) -> bool {
    &&& n >= 0
    &&& n * n >= total
    &&& n == 0 || (n - 1) * (n - 1) < total
}

/// The least `n` with `n * n >= total`.
pub open spec fn ceil_sqrt(total: int) -> int
    decreases total,
{
    if total <= 0 {
        0
    } else {
        let r = ceil_sqrt(total - 1);
        if r * r >= total {
            r
        } else {
            r + 1
        }
    }
}

/// The block index of the cell holding pixel (x, y), for side `n` blocks of
/// `ps` pixels each, in row-major order.
pub open spec fn block_index_of(ps: u32, n: int, x: u32, y: u32) -> int {
    (y as int / ps as int) * n + x as int / ps as int
}

/// The color of pixel (x, y) on the encoded canvas: its block's color, or the
/// default for cells past the last block.
pub open spec fn spec_pixel(blocks: Seq<(u8, u8, u8, u8)>, ps: u32, n: int, x: u32, y: u32) -> (
    u8,
    u8,
    u8,
    u8,
) {
    let k = block_index_of(ps, n, x, y);
    if 0 <= k < blocks.len() {
        blocks[k]
    } else {
        default_block()
    }
}

// ---------------------------------------------------------------------------
// Decoding
// ---------------------------------------------------------------------------

/// Ceiling division for nonnegative arguments.
pub open spec fn ceil_div(a: int, b: int) -> int {
    (a + b - 1) / b
}

/// The block colors a decoder samples from a canvas, in row-major order: one
/// representative pixel per `ps`-sized step.
pub open spec fn sampled_blocks(
    m: Map<(u32, u32), (u8, u8, u8, u8)>,
    w: u32,
    h: u32,
    ps: u32,
) -> Seq<(u8, u8, u8, u8)> {
    let cols = ceil_div(w as int, ps as int);
    let rows = ceil_div(h as int, ps as int);
    Seq::new(
        (rows * cols) as nat,
        |k: int| m[((((k % cols) * ps as int) as u32, ((k / cols) * ps as int) as u32))],
    )
}

/// The decoder's state while scanning blocks: the phase, the raw data bytes
/// collected so far, and the overflow records collected so far.
#[verifier::ext_equal]
pub struct ScanState {
    pub in_overflow: bool,
    pub data: Seq<u8>,
    pub recs: Seq<(u8, u8, u8)>,
}

/// The scan's initial state: collecting data, nothing seen.
pub open spec fn scan_init() -> ScanState {
    ScanState { in_overflow: false, data: Seq::<u8>::empty(), recs: Seq::<(u8, u8, u8)>::empty() }
}

/// One step of the scan: in the data phase the separator switches phase and
/// any other block contributes three reconstructed bytes; in the overflow
/// phase every opaque block is an overflow record and transparent cells are
/// skipped.
pub open spec fn scan_step(st: ScanState, p: (u8, u8, u8, u8), base: (u8, u8, u8)) -> ScanState {
    if st.in_overflow {
        if p.3 > 0 {
            ScanState { in_overflow: true, data: st.data, recs: st.recs.push((p.0, p.1, p.2)) }
        } else {
            st
        }
    } else {
        if p == separator_block() {
            ScanState { in_overflow: true, data: st.data, recs: st.recs }
        } else {
            ScanState {
                in_overflow: false,
                data: st.data + seq![
                    diff_channel(base.0, p.0),
                    diff_channel(base.1, p.1),
                    diff_channel(base.2, p.2),
                ],
                recs: st.recs,
            }
        }
    }
}

/// The scan state after the first `n` blocks.
pub open spec fn scan_upto(blocks: Seq<(u8, u8, u8, u8)>, base: (u8, u8, u8), n: int) -> ScanState
    decreases n,
{
    if n <= 0 {
        scan_init()
    } else {
        scan_step(scan_upto(blocks, base, n - 1), blocks[n - 1], base)
    }
}

/// The data byte a record corrects: byte `channel - 1` of chunk `index`.
pub open spec fn rec_target(r: (u8, u8, u8)) -> int {
    3 * (r.0 as int) + (r.1 as int) - 1
}

/// Replaying one overflow record: saturating addition of the magnitude onto
/// the target byte; records with an unknown channel code or an out-of-range
/// target are ignored.
pub open spec fn apply_record(data: Seq<u8>, r: (u8, u8, u8)) -> Seq<u8> {
    let t = rec_target(r);
    if 1 <= r.1 <= 3 && t < data.len() {
        data.update(t, sat_add(data[t], r.2))
    } else {
        data
    }
}

/// The data after replaying the first `n` records, in order.
pub open spec fn apply_upto(data: Seq<u8>, recs: Seq<(u8, u8, u8)>, n: int) -> Seq<u8>
    decreases n,
{
    if n <= 0 {
        data
    } else {
        apply_record(apply_upto(data, recs, n - 1), recs[n - 1])
    }
}

/// Removing every trailing zero byte, as the decoder's padding strip does.
pub open spec fn strip_trailing_zeros(data: Seq<u8>) -> Seq<u8>
    decreases data.len(),
{
    if data.len() > 0 && data.last() == 0 {
        strip_trailing_zeros(data.drop_last())
    } else {
        data
    }
}

/// The byte sequence a decoder produces from the given block colors: scan,
/// replay the overflow records, strip trailing zeroes.
pub open spec fn spec_decode_bytes(blocks: Seq<(u8, u8, u8, u8)>, base: (u8, u8, u8)) -> Seq<u8> {
    let st = scan_upto(blocks, base, blocks.len() as int);
    strip_trailing_zeros(apply_upto(st.data, st.recs, st.recs.len() as int))
}

/// The chunks a byte-triple list holds, one triple per entry.
pub open spec fn vec_chunk_triples(chunks: Seq<Vec<u8>>) -> Seq<(u8, u8, u8)> {
    chunks.map_values(|c: Vec<u8>| (c@[0], c@[1], c@[2]))
}

// ---------------------------------------------------------------------------
// Basic lemmas
// ---------------------------------------------------------------------------

/// `ceil_sqrt` computes the least square side.
pub proof fn lemma_ceil_sqrt_is(total: int)
    ensures
        is_ceil_sqrt(ceil_sqrt(total), total),
    decreases total,
{
    if total > 0 {
        lemma_ceil_sqrt_is(total - 1);
        let r = ceil_sqrt(total - 1);
        if r * r < total {
            assert((r + 1) * (r + 1) == r * r + 2 * r + 1) by (nonlinear_arith);
        }
    }
}

/// Only one side length is the least square side.
pub proof fn lemma_ceil_sqrt_unique(a: int, b: int, total: int)
    requires
        is_ceil_sqrt(a, total),
        is_ceil_sqrt(b, total),
    ensures
        a == b,
{
    if a < b {
        assert(a * a <= (b - 1) * (b - 1)) by (nonlinear_arith)
            requires
                0 <= a <= b - 1,
        ;
    }
    if b < a {
        assert(b * b <= (a - 1) * (a - 1)) by (nonlinear_arith)
            requires
                0 <= b <= a - 1,
        ;
    }
}

/// A canvas for at most 1024 blocks is at most 32 blocks on a side.
pub proof fn lemma_ceil_sqrt_bound(n: int, total: int)
    requires
        is_ceil_sqrt(n, total),
        total <= 1024,
    ensures
        n <= 32,
{
    if n > 32 {
        assert((n - 1) * (n - 1) >= 32 * 32) by (nonlinear_arith)
            requires
                n - 1 >= 32,
        ;
    }
}

/// There are as many overflow records as overflowing (chunk, channel) pairs,
/// and at most three per chunk.
pub proof fn lemma_records_len(chunks: Seq<(u8, u8, u8)>, base: (u8, u8, u8), n: int)
    requires
        0 <= n <= chunks.len(),
    ensures
        records_upto(chunks, base, n).len() == count_overflow_upto(chunks, base, n),
        0 <= count_overflow_upto(chunks, base, n) <= 3 * n,
    decreases n,
{
    if n > 0 {
        lemma_records_len(chunks, base, n - 1);
    }
}

/// Ceiling division agrees with "quotient, plus one on a remainder", covers
/// `a`, and is the least such multiple.
pub proof fn lemma_ceil_div(a: int, b: int)
    requires
        b >= 1,
        a >= 0,
    ensures
        ceil_div(a, b) == a / b + (if a % b != 0 {
            1int
        } else {
            0int
        }),
        ceil_div(a, b) >= 0,
        ceil_div(a, b) * b >= a,
        a > 0 ==> (ceil_div(a, b) - 1) * b < a,
        a == 0 ==> ceil_div(a, b) == 0,
{
    let q = a / b;
    let r = a % b;
    vstd::arithmetic::div_mod::lemma_fundamental_div_mod(a, b);
    vstd::arithmetic::div_mod::lemma_mod_bound(a, b);
    if r == 0 {
        assert(a + b - 1 == q * b + (b - 1)) by (nonlinear_arith)
            requires
                a == b * q + r && r == 0,
        ;
        vstd::arithmetic::div_mod::lemma_fundamental_div_mod_converse(a + b - 1, b, q, b - 1);
        assert(q * b >= a) by (nonlinear_arith)
            requires
                a == b * q + r && r == 0,
        ;
        if a > 0 {
            assert((q - 1) * b < a) by (nonlinear_arith)
                requires
                    a == b * q + r && r == 0 && b >= 1 && a > 0,
            ;
        }
    } else {
        assert(a + b - 1 == (q + 1) * b + (r - 1)) by (nonlinear_arith)
            requires
                a == b * q + r,
        ;
        vstd::arithmetic::div_mod::lemma_fundamental_div_mod_converse(a + b - 1, b, q + 1, r - 1);
        assert((q + 1) * b >= a && q * b < a) by (nonlinear_arith)
            requires
                a == b * q + r && 0 < r < b,
        ;
    }
}

/// Any side that covers `a` in multiples of `b`, and minimally so, is the
/// ceiling quotient.
pub proof fn lemma_ceil_div_unique(a: int, b: int, q: int)
    requires
        b >= 1,
        a >= 0,
        q >= 0,
        q * b >= a,
        q == 0 || (q - 1) * b < a,
    ensures
        q == ceil_div(a, b),
{
    lemma_ceil_div(a, b);
    let c = ceil_div(a, b);
    if a == 0 {
        if q > 0 {
            assert((q - 1) * b >= 0) by (nonlinear_arith)
                requires
                    q - 1 >= 0 && b >= 0,
            ;
        }
    } else {
        if q < c {
            assert(q * b <= (c - 1) * b) by (nonlinear_arith)
                requires
                    q <= c - 1 && b >= 0,
            ;
        }
        if c < q {
            assert(c * b <= (q - 1) * b) by (nonlinear_arith)
                requires
                    c <= q - 1 && b >= 0,
            ;
        }
    }
}

/// A linear index `yi * cols + xi` with `xi < cols` splits back into its row
/// and column.
pub proof fn lemma_rowmajor_split(yi: int, xi: int, cols: int)
    requires
        0 <= xi < cols,
        0 <= yi,
    ensures
        (yi * cols + xi) / cols == yi,
        (yi * cols + xi) % cols == xi,
{
    vstd::arithmetic::div_mod::lemma_fundamental_div_mod_converse(yi * cols + xi, cols, yi, xi);
}

/// Row-major order: an earlier pixel has a smaller linear index.
pub proof fn lemma_rowmajor_lt(px: int, py: int, x: int, y: int, size: int)
    requires
        0 <= px < size,
        0 <= py,
        0 <= x,
        py < y || (py == y && px < x),
    ensures
        py * size + px < y * size + x,
{
    if py < y {
        assert((py + 1) * size <= y * size) by (nonlinear_arith)
            requires
                py + 1 <= y && size >= 0,
        ;
        assert((py + 1) * size == py * size + size) by (nonlinear_arith);
    }
}

} // verus!
