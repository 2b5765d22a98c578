//! The codec's laws: channel overflow recovery, padding-strip behavior, and
//! the round trip from encoded canvas back to the original bytes.
use vstd::prelude::*;

use crate::canvas::canvas_height_of;
use crate::canvas::canvas_pixels;
use crate::canvas::canvas_width_of;
use crate::canvas::Canvas;
use crate::encode::encodes;
use crate::model::apply_upto;
use crate::model::block_index_of;
use crate::model::byte_or_zero;
use crate::model::ceil_sqrt;
use crate::model::chunk_at;
use crate::model::chunk_records;
use crate::model::data_block;
use crate::model::default_block;
use crate::model::default_seq;
use crate::model::diff_channel;
use crate::model::excess_channel;
use crate::model::lemma_ceil_div_unique;
use crate::model::lemma_ceil_sqrt_bound;
use crate::model::lemma_ceil_sqrt_is;
use crate::model::lemma_records_len;
use crate::model::num_chunks;
use crate::model::overflow_block;
use crate::model::rec_target;
use crate::model::records_upto;
use crate::model::sampled_blocks;
use crate::model::sat_add;
use crate::model::scan_init;
use crate::model::scan_step;
use crate::model::scan_upto;
use crate::model::separator_block;
use crate::model::spec_blocks;
use crate::model::spec_chunks;
use crate::model::spec_decode_bytes;
use crate::model::spec_records;
use crate::model::stored_channel;
use crate::model::strip_trailing_zeros;
use crate::model::triple_ch;
use crate::model::ScanState;
use crate::MAX_PIXEL_SIZE;

verus! {

/// A sequence of zero bytes, as chunk padding leaves behind.
pub open spec fn zero_seq(pad: nat) -> Seq<u8> {
    Seq::new(pad, |i: int| 0u8)
}

/// The raw bytes the decoder's data phase reconstructs from an encoded
/// canvas, before overflow correction: per channel, the saturated difference
/// of the stored (clamped) value and the base.
pub open spec fn raw_scan_data(bytes: Seq<u8>, base: (u8, u8, u8)) -> Seq<u8> {
    Seq::new(
        (3 * num_chunks(bytes.len() as int)) as nat,
        |j: int|
            diff_channel(
                triple_ch(base, j % 3),
                stored_channel(triple_ch(base, j % 3), byte_or_zero(bytes, j)),
            ),
    )
}

/// Whether replaying record `r` would change data byte `j`.
pub open spec fn touches(r: (u8, u8, u8), j: int) -> bool {
    1 <= r.1 <= 3 && rec_target(r) == j
}

/// Whether channel `ch` (coded 1..3) of chunk `i` overflows on `base`.
pub open spec fn channel_overflows(
    chunks: Seq<(u8, u8, u8)>,
    base: (u8, u8, u8),
    i: int,
    ch: int,
) -> bool {
    triple_ch(base, ch - 1) + triple_ch(chunks[i], ch - 1) > 255
}

/// A well-formed overflow record for the given chunks: a known channel code,
/// an in-range chunk index, a channel that does overflow, and the exact
/// clamped-away magnitude.
pub open spec fn rec_valid(chunks: Seq<(u8, u8, u8)>, base: (u8, u8, u8), r: (u8, u8, u8)) -> bool {
    &&& 1 <= r.1 <= 3
    &&& (r.0 as int) < chunks.len()
    &&& triple_ch(base, r.1 - 1) + triple_ch(chunks[r.0 as int], r.1 - 1) > 255
    &&& r.2 == excess_channel(triple_ch(base, r.1 - 1), triple_ch(chunks[r.0 as int], r.1 - 1))
}

/// Overflow correctness for one channel: when base + byte exceeds 255, the
/// stored value is clamped to exactly 255, the recorded magnitude is
/// positive, and replaying it onto the decoded difference restores the byte.
pub proof fn lemma_overflow_channel(base: u8, b: u8)
    requires
        base + b > 255,
    ensures
        stored_channel(base, b) == 255,
        excess_channel(base, b) >= 1,
        sat_add(diff_channel(base, stored_channel(base, b)), excess_channel(base, b)) == b,
{
}

/// Exactness without overflow: the decoded difference is the original byte.
pub proof fn lemma_channel_exact(base: u8, b: u8)
    requires
        base + b <= 255,
    ensures
        diff_channel(base, stored_channel(base, b)) == b,
        excess_channel(base, b) == 0,
{
}

/// Stripping trailing zeroes removes exactly the appended zero padding when
/// the input itself does not end in a zero byte.
pub proof fn lemma_strip_padded(input: Seq<u8>, pad: nat)
    requires
        input.len() == 0 || input.last() != 0,
    ensures
        strip_trailing_zeros(input + zero_seq(pad)) == input,
    decreases pad,
{
    if pad == 0 {
        assert(input + zero_seq(0) =~= input);
    } else {
        let s = input + zero_seq(pad);
        assert(s.last() == 0);
        assert(s.drop_last() =~= input + zero_seq((pad - 1) as nat));
        lemma_strip_padded(input, (pad - 1) as nat);
    }
}

/// Replaying records never changes the buffer's length.
proof fn lemma_apply_len(data: Seq<u8>, recs: Seq<(u8, u8, u8)>, k: int)
    requires
        0 <= k <= recs.len(),
    ensures
        apply_upto(data, recs, k).len() == data.len(),
    decreases k,
{
    if k > 0 {
        lemma_apply_len(data, recs, k - 1);
    }
}

/// A byte no record touches keeps its value.
proof fn lemma_apply_untouched(data: Seq<u8>, recs: Seq<(u8, u8, u8)>, k: int, j: int)
    requires
        0 <= k <= recs.len(),
        0 <= j < data.len(),
        forall|t: int| 0 <= t < k ==> !touches(#[trigger] recs[t], j),
    ensures
        apply_upto(data, recs, k)[j] == data[j],
    decreases k,
{
    if k > 0 {
        lemma_apply_untouched(data, recs, k - 1, j);
        lemma_apply_len(data, recs, k - 1);
    }
}

/// A byte exactly one record touches ends at the saturated sum of its
/// original value and that record's magnitude.
proof fn lemma_apply_touched(data: Seq<u8>, recs: Seq<(u8, u8, u8)>, k: int, j: int, t0: int)
    requires
        0 <= k <= recs.len(),
        0 <= j < data.len(),
        0 <= t0 < k,
        touches(recs[t0], j),
        forall|t: int| 0 <= t < k && t != t0 ==> !touches(#[trigger] recs[t], j),
    ensures
        apply_upto(data, recs, k)[j] == sat_add(data[j], recs[t0].2),
    decreases k,
{
    lemma_apply_len(data, recs, k - 1);
    if k - 1 == t0 {
        lemma_apply_untouched(data, recs, k - 1, j);
    } else {
        lemma_apply_touched(data, recs, k - 1, j, t0);
    }
}

/// The records of the first `n` chunks are well formed, their targets are
/// strictly increasing (so no byte is touched twice), and every overflowing
/// (chunk, channel) pair is represented.
proof fn lemma_records_shape(chunks: Seq<(u8, u8, u8)>, base: (u8, u8, u8), n: int)
    requires
        0 <= n <= chunks.len() <= 255,
    ensures
        ({
            let recs = records_upto(chunks, base, n);
            &&& forall|t: int|
                0 <= t < recs.len() ==> rec_valid(chunks, base, #[trigger] recs[t]) && (
                recs[t].0 as int) < n
            &&& forall|t1: int, t2: int|
                0 <= t1 < t2 < recs.len() ==> rec_target(#[trigger] recs[t1]) < rec_target(
                    #[trigger] recs[t2],
                )
            &&& forall|i: int, ch: int|
                0 <= i < n && 1 <= ch <= 3 && #[trigger] channel_overflows(chunks, base, i, ch)
                    ==> exists|t: int|
                    0 <= t < recs.len() && #[trigger] recs[t] == (
                        i as u8,
                        ch as u8,
                        excess_channel(triple_ch(base, ch - 1), triple_ch(chunks[i], ch - 1)),
                    )
        }),
    decreases n,
{
    if n > 0 {
        lemma_records_shape(chunks, base, n - 1);
        let prev = records_upto(chunks, base, n - 1);
        let cr = chunk_records(n - 1, base, chunks[n - 1]);
        let recs = records_upto(chunks, base, n);
        assert(recs == prev + cr);
        let c = chunks[n - 1];
        assert forall|s: int| 0 <= s < cr.len() implies rec_valid(chunks, base, #[trigger] cr[s])
            && (cr[s].0 as int) == n - 1 && 3 * (n - 1) <= rec_target(cr[s]) by {
            assert(((n - 1) as u8) as int == n - 1);
        }
        assert forall|s1: int, s2: int| 0 <= s1 < s2 < cr.len() implies rec_target(
            #[trigger] cr[s1],
        ) < rec_target(#[trigger] cr[s2]) by {}
        assert forall|t: int| 0 <= t < prev.len() implies rec_target(
            #[trigger] prev[t],
        ) < 3 * (n - 1) by {
            assert((prev[t].0 as int) < n - 1);
        }
        assert forall|i: int, ch: int|
            0 <= i < n && 1 <= ch <= 3 && #[trigger] channel_overflows(chunks, base, i, ch) implies exists|t: int|
            0 <= t < recs.len() && #[trigger] recs[t] == (
                i as u8,
                ch as u8,
                excess_channel(triple_ch(base, ch - 1), triple_ch(chunks[i], ch - 1)),
            ) by {
            let rec = (
                i as u8,
                ch as u8,
                excess_channel(triple_ch(base, ch - 1), triple_ch(chunks[i], ch - 1)),
            );
            if i < n - 1 {
                let t = choose|t: int| 0 <= t < prev.len() && #[trigger] prev[t] == rec;
                assert(recs[t] == rec);
            } else {
                let s = if ch == 1 {
                    0int
                } else if ch == 2 {
                    if base.0 + c.0 > 255 {
                        1int
                    } else {
                        0int
                    }
                } else {
                    (if base.0 + c.0 > 255 {
                        1int
                    } else {
                        0int
                    }) + (if base.1 + c.1 > 255 {
                        1int
                    } else {
                        0int
                    })
                };
                assert(cr[s] == rec);
                assert(recs[prev.len() + s] == rec);
            }
        }
    }
}

/// The scan of an encoded block sequence, after `i` blocks: still in the
/// data phase while among the data blocks, with the raw diffs collected;
/// past the separator, all raw diffs and the records seen so far; past the
/// records, unchanged by the default cells.
proof fn lemma_scan_encoded(bytes: Seq<u8>, base: (u8, u8, u8), pad: nat, i: int)
    requires
        bytes.len() <= 765,
        0 <= i <= spec_blocks(bytes, base).len() + pad,
    ensures
        ({
            let chunks = spec_chunks(bytes);
            let nc = chunks.len() as int;
            let recs = spec_records(chunks, base);
            let nr = recs.len() as int;
            let full = spec_blocks(bytes, base) + default_seq(pad);
            let st = scan_upto(full, base, i);
            &&& i <= nc ==> st == (ScanState {
                in_overflow: false,
                data: raw_scan_data(bytes, base).take(3 * i),
                recs: Seq::<(u8, u8, u8)>::empty(),
            })
            &&& nc < i <= nc + 1 + nr ==> st == (ScanState {
                in_overflow: true,
                data: raw_scan_data(bytes, base),
                recs: recs.take(i - nc - 1),
            })
            &&& nc + 1 + nr < i ==> st == (ScanState {
                in_overflow: true,
                data: raw_scan_data(bytes, base),
                recs: recs,
            })
        }),
    decreases i,
{
    let chunks = spec_chunks(bytes);
    let nc = chunks.len() as int;
    let recs = spec_records(chunks, base);
    let nr = recs.len() as int;
    let full = spec_blocks(bytes, base) + default_seq(pad);
    let raw = raw_scan_data(bytes, base);
    if i == 0 {
        assert(raw.take(0) =~= Seq::<u8>::empty());
        assert(scan_upto(full, base, 0) == scan_init());
    } else {
        lemma_scan_encoded(bytes, base, pad, i - 1);
        let prev = scan_upto(full, base, i - 1);
        let p = full[i - 1];
        assert(scan_upto(full, base, i) == scan_step(prev, p, base));
        if i - 1 < nc {
            assert(p == data_block(base, chunks[i - 1]));
            assert(p.3 == 255);
            assert(p != separator_block());
            let c = chunks[i - 1];
            assert(c == chunk_at(bytes, i - 1));
            assert forall|j: int| 3 * (i - 1) <= j < 3 * i implies raw[j] == diff_channel(
                triple_ch(base, j % 3),
                stored_channel(triple_ch(base, j % 3), triple_ch(c, j % 3)),
            ) by {
                assert(byte_or_zero(bytes, j) == triple_ch(c, j % 3));
            }
            assert(prev.data + seq![
                diff_channel(base.0, p.0),
                diff_channel(base.1, p.1),
                diff_channel(base.2, p.2),
            ] =~= raw.take(3 * i));
        } else if i - 1 == nc {
            assert(p == separator_block());
            assert(raw.take(3 * nc) =~= raw);
            assert(recs.take(0) =~= Seq::<(u8, u8, u8)>::empty());
        } else if i - 1 <= nc + nr {
            let t = i - 2 - nc;
            assert(p == overflow_block(recs[t]));
            assert(p.3 == 255);
            assert(prev.recs.push((p.0, p.1, p.2)) =~= recs.take(i - 1 - nc));
        } else {
            assert(p == default_block());
            assert(p.3 == 0);
            if i - 1 == nc + 1 + nr {
                assert(recs.take(nr) =~= recs);
            }
        }
    }
}

/// Replaying all overflow records onto the raw scan data restores every byte
/// of the zero-padded input.
proof fn lemma_apply_restores(bytes: Seq<u8>, base: (u8, u8, u8), j: int)
    requires
        bytes.len() <= 765,
        0 <= j < 3 * num_chunks(bytes.len() as int),
    ensures
        ({
            let chunks = spec_chunks(bytes);
            let recs = spec_records(chunks, base);
            apply_upto(raw_scan_data(bytes, base), recs, recs.len() as int)[j] == byte_or_zero(
                bytes,
                j,
            )
        }),
{
    let chunks = spec_chunks(bytes);
    let nc = chunks.len() as int;
    lemma_records_shape(chunks, base, nc);
    let recs = spec_records(chunks, base);
    let raw = raw_scan_data(bytes, base);
    let i = j / 3;
    let ch = j % 3 + 1;
    assert(0 <= i < nc && 1 <= ch <= 3);
    let bch = triple_ch(base, ch - 1);
    let cch = triple_ch(chunks[i], ch - 1);
    assert(chunks[i] == chunk_at(bytes, i));
    assert(cch == byte_or_zero(bytes, j));
    assert(raw[j] == diff_channel(bch, stored_channel(bch, cch)));
    if bch + cch > 255 {
        let rec = (i as u8, ch as u8, excess_channel(bch, cch));
        assert(channel_overflows(chunks, base, i, ch));
        assert(exists|t: int| 0 <= t < recs.len() && #[trigger] recs[t] == rec);
        let t0 = choose|t: int| 0 <= t < recs.len() && #[trigger] recs[t] == rec;
        assert((i as u8) as int == i);
        assert(touches(rec, j));
        assert forall|t: int| 0 <= t < recs.len() && t != t0 implies !touches(
            #[trigger] recs[t],
            j,
        ) by {
            if touches(recs[t], j) {
                vstd::arithmetic::div_mod::lemma_fundamental_div_mod_converse(
                    j,
                    3,
                    recs[t].0 as int,
                    recs[t].1 - 1,
                );
                assert(recs[t].0 as int == i && recs[t].1 as int == ch);
                if t < t0 {
                    assert(rec_target(recs[t]) < rec_target(recs[t0]));
                } else {
                    assert(rec_target(recs[t0]) < rec_target(recs[t]));
                }
            }
        }
        lemma_apply_touched(raw, recs, recs.len() as int, j, t0);
        lemma_overflow_channel(bch, cch);
    } else {
        assert forall|t: int| 0 <= t < recs.len() implies !touches(#[trigger] recs[t], j) by {
            if touches(recs[t], j) {
                vstd::arithmetic::div_mod::lemma_fundamental_div_mod_converse(
                    j,
                    3,
                    recs[t].0 as int,
                    recs[t].1 - 1,
                );
                assert(recs[t].0 as int == i && recs[t].1 as int == ch);
            }
        }
        lemma_apply_untouched(raw, recs, recs.len() as int, j);
        lemma_channel_exact(bch, cch);
    }
}

/// Round trip at the block level: decoding the encoder's block sequence,
/// however many unused default cells follow it, yields the input bytes,
/// provided the input does not end in a zero byte.
pub proof fn lemma_round_trip_blocks(bytes: Seq<u8>, base: (u8, u8, u8), pad: nat)
    requires
        bytes.len() <= 765,
        bytes.len() == 0 || bytes.last() != 0,
    ensures
        spec_decode_bytes(spec_blocks(bytes, base) + default_seq(pad), base) == bytes,
{
    let chunks = spec_chunks(bytes);
    let nc = chunks.len() as int;
    lemma_records_len(chunks, base, nc);
    let recs = spec_records(chunks, base);
    let full = spec_blocks(bytes, base) + default_seq(pad);
    lemma_scan_encoded(bytes, base, pad, full.len() as int);
    let st = scan_upto(full, base, full.len() as int);
    assert(st.data == raw_scan_data(bytes, base) && st.recs == recs);
    let raw = raw_scan_data(bytes, base);
    let corrected = apply_upto(raw, recs, recs.len() as int);
    lemma_apply_len(raw, recs, recs.len() as int);
    assert forall|j: int| 0 <= j < 3 * nc implies corrected[j] == byte_or_zero(bytes, j) by {
        lemma_apply_restores(bytes, base, j);
    }
    let pad_len = (3 * nc - bytes.len()) as nat;
    assert(corrected =~= bytes + zero_seq(pad_len));
    lemma_strip_padded(bytes, pad_len);
}

/// Sampling one pixel per block from an encoded canvas recovers exactly the
/// encoder's block sequence, followed by the unused default cells.
pub proof fn lemma_sampled_encoded(bytes: Seq<u8>, base: (u8, u8, u8), ps: u32, c: Canvas)
    requires
        bytes.len() <= 765,
        1 <= ps <= MAX_PIXEL_SIZE,
        encodes(c, bytes, ps, base),
    ensures
        ({
            let blocks = spec_blocks(bytes, base);
            let n = ceil_sqrt(blocks.len() as int);
            sampled_blocks(canvas_pixels(c), canvas_width_of(c), canvas_height_of(c), ps) == blocks
                + default_seq((n * n - blocks.len()) as nat)
        }),
{
    let blocks = spec_blocks(bytes, base);
    let total = blocks.len() as int;
    lemma_records_len(spec_chunks(bytes), base, spec_chunks(bytes).len() as int);
    assert(1 <= total <= 1021);
    lemma_ceil_sqrt_is(total);
    let n = ceil_sqrt(total);
    lemma_ceil_sqrt_bound(n, total);
    if n == 0 {
        assert(n * n == 0) by (nonlinear_arith)
            requires
                n == 0,
        ;
    }
    assert(n >= 1);
    let size = canvas_width_of(c) as int;
    assert(size == n * ps as int);
    assert((n - 1) * ps < n * ps && n * ps <= 32 * 1023) by (nonlinear_arith)
        requires
            1 <= n <= 32 && 1 <= ps <= 1023,
    ;
    lemma_ceil_div_unique(size, ps as int, n);
    let m = canvas_pixels(c);
    let sampled = sampled_blocks(m, canvas_width_of(c), canvas_height_of(c), ps);
    assert(sampled.len() == n * n);
    assert forall|k: int| 0 <= k < n * n implies sampled[k] == (if k < total {
        blocks[k]
    } else {
        default_block()
    }) by {
        vstd::arithmetic::div_mod::lemma_fundamental_div_mod(k, n);
        vstd::arithmetic::div_mod::lemma_mod_bound(k, n);
        let xi = k % n;
        let yi = k / n;
        assert(yi >= 0 && yi < n) by (nonlinear_arith)
            requires
                k == n * yi + xi && 0 <= xi < n && 0 <= k && k < n * n,
        ;
        let x = xi * ps;
        let y = yi * ps;
        assert(0 <= x && x + ps <= size && 0 <= y && y + ps <= size) by (nonlinear_arith)
            requires
                0 <= xi < n && 0 <= yi < n && size == n * ps as int && x == xi * ps && y == yi * ps
                    && ps >= 1,
        ;
        assert(x < 0x1_0000_0000 && y < 0x1_0000_0000);
        let xu = x as u32;
        let yu = y as u32;
        assert(sampled[k] == m[(xu, yu)]);
        assert(m.contains_pair((xu, yu), crate::model::spec_pixel(blocks, ps, n, xu, yu)));
        vstd::arithmetic::div_mod::lemma_fundamental_div_mod_converse(x, ps as int, xi, 0);
        vstd::arithmetic::div_mod::lemma_fundamental_div_mod_converse(y, ps as int, yi, 0);
        assert(block_index_of(ps, n, xu, yu) == yi * n + xi);
        assert(yi * n + xi == k) by (nonlinear_arith)
            requires
                k == n * yi + xi,
        ;
    }
    assert(sampled =~= blocks + default_seq((n * n - total) as nat));
}

/// Round trip: decoding an encoded canvas with the block size and base color
/// it was encoded with yields exactly the encoded bytes, for every input of
/// at most 765 bytes whose last byte is not zero. Together with the
/// decoder's contract this means a canvas built by `string_to_pixels`
/// decodes back to the original string.
pub proof fn lemma_round_trip(bytes: Seq<u8>, base: (u8, u8, u8), ps: u32, c: Canvas)
    requires
        bytes.len() <= 765,
        bytes.len() == 0 || bytes.last() != 0,
        1 <= ps <= MAX_PIXEL_SIZE,
        encodes(c, bytes, ps, base),
    ensures
        spec_decode_bytes(
            sampled_blocks(canvas_pixels(c), canvas_width_of(c), canvas_height_of(c), ps),
            base,
        ) == bytes,
{
    let blocks = spec_blocks(bytes, base);
    let n = ceil_sqrt(blocks.len() as int);
    lemma_sampled_encoded(bytes, base, ps, c);
    lemma_round_trip_blocks(bytes, base, (n * n - blocks.len()) as nat);
}

} // verus!
