//! Encoding one 4x4 block into six bytes, and reading one pixel back.
use vstd::prelude::*;
use vstd::slice::slice_subrange;
use crate::palette::{palette, get_options_table};

verus! {

/// How far pixel value `p` lies from candidate `q`.
pub open spec fn residual(p: u8, q: u8) -> int {
    if p >= q {
        p - q
    } else {
        q - p
    }
}

/// The sum of the residuals of every value of `b` against candidate `v`.
pub open spec fn residual_total(b: Seq<u8>, v: u8) -> int
    decreases b.len(),
{
    if b.len() == 0 {
        0
    } else {
        residual_total(b.drop_last(), v) + residual(b.last(), v)
    }
}

/// The largest value of `b` (zero when `b` is empty).
pub open spec fn seq_max(b: Seq<u8>) -> u8
    decreases b.len(),
{
    if b.len() == 0 {
        0
    } else if b.last() > seq_max(b.drop_last()) {
        b.last()
    } else {
        seq_max(b.drop_last())
    }
}

/// The smallest value of `b` (255 when `b` is empty).
pub open spec fn seq_min(b: Seq<u8>) -> u8
    decreases b.len(),
{
    if b.len() == 0 {
        255
    } else if b.last() < seq_min(b.drop_last()) {
        b.last()
    } else {
        seq_min(b.drop_last())
    }
}

/// The lowest of the four positions that holds the smallest of `a`, `b`,
/// `c`, `d`.
pub open spec fn first_min4(a: int, b: int, c: int, d: int) -> u32 {
    if a <= b && a <= c && a <= d {
        0
    } else if b <= c && b <= d {
        1
    } else if c <= d {
        2
    } else {
        3
    }
}

/// The options table that a block's residuals are measured against.
pub open spec fn encode_palette(b: Seq<u8>) -> Seq<u8> {
    palette(seq_max(b), seq_min(b), false)
}

/// Whether the block stores its endpoints as (max, min) and codes against
/// entries 0 to 3: the thirds fit the block better than the mean and zero.
pub open spec fn is_decreasing(b: Seq<u8>) -> bool {
    let p = encode_palette(b);
    residual_total(b, p[2]) + residual_total(b, p[3]) < residual_total(b, p[6])
        + residual_total(b, p[7])
}

/// The first entry of the active half of the options table.
pub open spec fn half_start(decreasing: bool) -> int {
    if decreasing {
        0
    } else {
        4
    }
}

/// The codeword of pixel `i`: the best fitting entry of the active half.
pub open spec fn pixel_code(b: Seq<u8>, i: int) -> u32 {
    let p = encode_palette(b);
    let s = half_start(is_decreasing(b));
    first_min4(
        residual(b[i], p[s]),
        residual(b[i], p[s + 1]),
        residual(b[i], p[s + 2]),
        residual(b[i], p[s + 3]),
    )
}

/// The codewords of pixels `0 .. n`, pixel `i` in bits `2i` and `2i + 1`.
pub open spec fn pack_codes(b: Seq<u8>, n: nat) -> u32
    decreases n,
{
    if n == 0 {
        0
    } else {
        pack_codes(b, (n - 1) as nat) | (pixel_code(b, n - 1) << ((2 * (n - 1)) as u32))
    }
}

/// The six bytes of block `b`: the endpoints in the chosen order, then the
/// packed codewords, most significant byte first.
pub open spec fn encode_block(b: Seq<u8>) -> Seq<u8> {
    let hi = seq_max(b);
    let lo = seq_min(b);
    let dec = is_decreasing(b);
    let w = pack_codes(b, 16);
    seq![
        if dec { hi } else { lo },
        if dec { lo } else { hi },
        ((w >> 24u32) & 0xff) as u8,
        ((w >> 16u32) & 0xff) as u8,
        ((w >> 8u32) & 0xff) as u8,
        (w & 0xff) as u8,
    ]
}

/// The codeword word that bytes 2 to 5 of a compressed block hold, read
/// big-endian.
pub open spec fn word_of(c: Seq<u8>) -> u32 {
    ((c[2] as u32) << 24u32) | ((c[3] as u32) << 16u32) | ((c[4] as u32) << 8u32) | (c[5] as u32)
}

/// The two-bit code of pixel `k` in word `w`.
pub open spec fn code_at(w: u32, k: u32) -> u32 {
    (w >> (2 * k) as u32) & 3
}

/// The value that compressed block `c` gives pixel `k` (0 to 15, row-major).
pub open spec fn decode_block_pixel(c: Seq<u8>, k: u32) -> u8 {
    let code = code_at(word_of(c), k);
    let idx: int = if c[0] > c[1] {
        code as int
    } else {
        code + 4
    };
    palette(c[0], c[1], true)[idx]
}

/// Picks the codeword of one pixel from its eight residuals: the lowest
/// position of the smallest residual in the active half.
pub fn choose_codeword(decreasing_order: bool, residuals: &[i32]) -> (r: u32)
    requires
        residuals@.len() >= half_start(decreasing_order) + 4,
    ensures
        r == ({
            let s = half_start(decreasing_order);
            first_min4(
                residuals@[s] as int,
                residuals@[s + 1] as int,
                residuals@[s + 2] as int,
                residuals@[s + 3] as int,
            )
        }),
{
    let start_i: usize = if decreasing_order {
        0
    } else {
        4
    };
    let r0 = residuals[start_i];
    let r1 = residuals[start_i + 1];
    let r2 = residuals[start_i + 2];
    let r3 = residuals[start_i + 3];
    let mut best_i: u32 = 0;
    let mut best_dist = r0;
    if r1 < best_dist {
        best_i = 1;
        best_dist = r1;
    }
    if r2 < best_dist {
        best_i = 2;
        best_dist = r2;
    }
    if r3 < best_dist {
        best_i = 3;
    }
    best_i
}

proof fn lemma_residual_total_bounds(b: Seq<u8>, v: u8)
    ensures
        0 <= residual_total(b, v) <= 255 * b.len(),
    decreases b.len(),
{
    if b.len() > 0 {
        lemma_residual_total_bounds(b.drop_last(), v);
    }
}

proof fn lemma_pack_step(w: u32, c: u32, i: u32, k: u32)
    by (bit_vector)
    requires
        i < 16,
        c < 4,
        k < 16,
        w >> (2 * i) as u32 == 0,
    ensures
        k < i ==> code_at(w | (c << (2 * i) as u32), k) == code_at(w, k),
        k == i ==> code_at(w | (c << (2 * i) as u32), k) == c,
        i < 15 ==> (w | (c << (2 * i) as u32)) >> (2 * (i + 1)) as u32 == 0,
{
}

proof fn lemma_bytes_of_word(w: u32)
    by (bit_vector)
    ensures
        ((((((w >> 24u32) & 0xff) as u8) as u32) << 24u32) | (((((w >> 16u32) & 0xff) as u8) as u32)
            << 16u32) | (((((w >> 8u32) & 0xff) as u8) as u32) << 8u32) | (((w & 0xff) as u8) as u32))
            == w,
{
}

/// Encodes one block of sixteen pixels, given in row-major order.
pub fn compress_block(block: &[u8]) -> (r: [u8; 6])
    requires
        block@.len() == 16,
    ensures
        r@ == encode_block(block@),
{
    let ghost b = block@;
    let mut max_val: u8 = 0;
    let mut min_val: u8 = 255;
    let mut i: usize = 0;
    while i < 16
        invariant
            b == block@,
            b.len() == 16,
            0 <= i <= 16,
            max_val == seq_max(b.subrange(0, i as int)),
            min_val == seq_min(b.subrange(0, i as int)),
        decreases 16 - i,
    {
        assert(b.subrange(0, i + 1).drop_last() =~= b.subrange(0, i as int));
        if block[i] > max_val {
            max_val = block[i];
        }
        if block[i] < min_val {
            min_val = block[i];
        }
        i = i + 1;
    }
    assert(b.subrange(0, 16) =~= b);
    let options = get_options_table(max_val, min_val, false);
    let ghost p = options@;
    assert(p == encode_palette(b));

    let mut residuals: [i32; 128] = [0i32; 128];
    let mut total_residuals: [i32; 8] = [0i32; 8];
    let mut i: usize = 0;
    while i < 16
        invariant
            b == block@,
            b.len() == 16,
            p == options@,
            p.len() == 8,
            0 <= i <= 16,
            residuals@.len() == 128,
            forall|a: int, c: int|
                0 <= a < i && 0 <= c < 8 ==> residuals@[8 * a + c] == residual(b[a], p[c]),
            forall|c: int| 0 <= c < 8 ==> total_residuals[c] == residual_total(b.subrange(0, i as int), p[c]),
        decreases 16 - i,
    {
        let val = block[i];
        let ghost prev = total_residuals@;
        assert(b.subrange(0, i + 1).drop_last() =~= b.subrange(0, i as int));
        let mut j: usize = 0;
        while j < 8
            invariant
                b == block@,
                b.len() == 16,
                p == options@,
                p.len() == 8,
                0 <= i < 16,
                0 <= j <= 8,
                val == b[i as int],
                b.subrange(0, i + 1).drop_last() == b.subrange(0, i as int),
                residuals@.len() == 128,
                forall|a: int, c: int|
                    0 <= a < i && 0 <= c < 8 ==> residuals@[8 * a + c] == residual(b[a], p[c]),
                forall|c: int| 0 <= c < j ==> residuals@[8 * i + c] == residual(val, p[c]),
                forall|c: int|
                    0 <= c < j ==> total_residuals[c] == residual_total(b.subrange(0, i + 1), p[c]),
                forall|c: int|
                    j <= c < 8 ==> total_residuals[c] == residual_total(b.subrange(0, i as int), p[c]),
            decreases 8 - j,
        {
            let option = options[j];
            let residual: i32 = if val >= option {
                (val - option) as i32
            } else {
                (option - val) as i32
            };
            proof {
                lemma_residual_total_bounds(b.subrange(0, i as int), option);
            }
            residuals[8 * i + j] = residual;
            total_residuals[j] = total_residuals[j] + residual;
            j = j + 1;
        }
        i = i + 1;
    }
    assert(b.subrange(0, 16) =~= b);
    proof {
        lemma_residual_total_bounds(b, p[2]);
        lemma_residual_total_bounds(b, p[3]);
        lemma_residual_total_bounds(b, p[6]);
        lemma_residual_total_bounds(b, p[7]);
    }
    let decreasing_order = total_residuals[2] + total_residuals[3] < total_residuals[6]
        + total_residuals[7];
    assert(decreasing_order == is_decreasing(b));
    let val0 = if decreasing_order {
        max_val
    } else {
        min_val
    };
    let val1 = if decreasing_order {
        min_val
    } else {
        max_val
    };
    let mut codes: u32 = 0;
    let mut i: usize = 0;
    while i < 16
        invariant
            b == block@,
            b.len() == 16,
            p == encode_palette(b),
            decreasing_order == is_decreasing(b),
            residuals@.len() == 128,
            forall|a: int, c: int|
                0 <= a < 16 && 0 <= c < 8 ==> residuals@[8 * a + c] == residual(b[a], p[c]),
            0 <= i <= 16,
            codes == pack_codes(b, i as nat),
        decreases 16 - i,
    {
        let row = slice_subrange(residuals.as_slice(), 8 * i, 8 * i + 8);
        assert(row@[half_start(decreasing_order)] == residuals@[8 * i + half_start(decreasing_order)]);
        let code = choose_codeword(decreasing_order, row);
        assert(code == pixel_code(b, i as int));
        codes = codes | (code << (2 * i) as u32);
        i = i + 1;
    }
    let r = [
        val0,
        val1,
        ((codes >> 24) & 0xFF) as u8,
        ((codes >> 16) & 0xFF) as u8,
        ((codes >> 8) & 0xFF) as u8,
        (codes & 0xFF) as u8,
    ];
    assert(r@ =~= encode_block(b));
    r
}

proof fn lemma_unpack(b: Seq<u8>, n: nat)
    requires
        n <= 16,
    ensures
        forall|k: u32| k < n ==> #[trigger] code_at(pack_codes(b, n), k) == pixel_code(b, k as int),
        n < 16 ==> pack_codes(b, n) >> (2 * n) as u32 == 0,
    decreases n,
{
    if n > 0 {
        let m = (n - 1) as nat;
        lemma_unpack(b, m);
        let w = pack_codes(b, m);
        let c = pixel_code(b, m as int);
        assert forall|k: u32| k < n implies #[trigger] code_at(pack_codes(b, n), k) == pixel_code(
            b,
            k as int,
        ) by {
            lemma_pack_step(w, c, m as u32, k);
        }
        lemma_pack_step(w, c, m as u32, 0);
    } else {
        assert(0u32 >> 0u32 == 0) by (bit_vector);
    }
}

/// The codes that a compressed block gives its pixels are the codewords
/// that the encoder chose for them.
pub proof fn lemma_codes_round_trip(b: Seq<u8>, k: u32)
    requires
        b.len() == 16,
        k < 16,
    ensures
        code_at(word_of(encode_block(b)), k) == pixel_code(b, k as int),
{
    lemma_bytes_of_word(pack_codes(b, 16));
    lemma_unpack(b, 16);
}

proof fn lemma_max_min(b: Seq<u8>)
    requires
        b.len() > 0,
    ensures
        forall|i: int| 0 <= i < b.len() ==> seq_min(b) <= #[trigger] b[i] <= seq_max(b),
        exists|i: int| 0 <= i < b.len() && b[i] == seq_max(b),
        exists|i: int| 0 <= i < b.len() && b[i] == seq_min(b),
    decreases b.len(),
{
    let d = b.drop_last();
    if d.len() > 0 {
        lemma_max_min(d);
        let i = choose|i: int| 0 <= i < d.len() && d[i] == seq_max(d);
        let j = choose|j: int| 0 <= j < d.len() && d[j] == seq_min(d);
        assert(b[i] == d[i] && b[j] == d[j]);
        if b.last() > seq_max(d) {
            assert(b[b.len() - 1] == seq_max(b));
        } else {
            assert(b[i] == seq_max(b));
        }
        if b.last() < seq_min(d) {
            assert(b[b.len() - 1] == seq_min(b));
        } else {
            assert(b[j] == seq_min(b));
        }
        assert forall|i: int| 0 <= i < b.len() implies seq_min(b) <= #[trigger] b[i] <= seq_max(b) by {
            if i < d.len() {
                assert(b[i] == d[i]);
            }
        }
    } else {
        assert(seq_max(d) == 0 && seq_min(d) == 255);
        assert(b[0] == b.last());
        assert(b[0] == seq_max(b) && b[0] == seq_min(b));
    }
}

proof fn lemma_uniform_totals(b: Seq<u8>, v: u8)
    requires
        forall|i: int| 0 <= i < b.len() ==> #[trigger] b[i] == v,
    ensures
        residual_total(b, v) == 0,
        residual_total(b, 0) == v * b.len(),
        b.len() > 0 ==> seq_max(b) == v && seq_min(b) == v,
    decreases b.len(),
{
    if b.len() > 0 {
        let d = b.drop_last();
        assert forall|i: int| 0 <= i < d.len() implies #[trigger] d[i] == v by {
            assert(d[i] == b[i]);
        }
        lemma_uniform_totals(d, v);
        assert(b.last() == b[b.len() - 1]);
        if d.len() == 0 {
            assert(seq_max(d) == 0 && seq_min(d) == 255);
        }
        assert(v * b.len() == v * d.len() + v) by (nonlinear_arith)
            requires
                b.len() == d.len() + 1,
        ;
    }
}

/// A block whose sixteen pixels all hold `v` decodes to `v` at every pixel.
pub proof fn lemma_uniform_block_exact(b: Seq<u8>, v: u8)
    requires
        b.len() == 16,
        forall|i: int| 0 <= i < 16 ==> #[trigger] b[i] == v,
    ensures
        forall|k: u32| k < 16 ==> #[trigger] decode_block_pixel(encode_block(b), k) == v,
{
    lemma_uniform_totals(b, v);
    let p = encode_palette(b);
    assert(p[2] == v && p[3] == v && p[6] == v && p[7] == 0);
    assert(is_decreasing(b) == (v > 0));
    assert forall|k: u32| k < 16 implies #[trigger] decode_block_pixel(encode_block(b), k) == v by {
        lemma_codes_round_trip(b, k);
        assert(b[k as int] == v);
        assert(pixel_code(b, k as int) == 0);
    }
}

/// A block whose pixels are all 0 or 255 decodes to exactly its own pixels,
/// so every decoded pixel is again 0 or 255.
pub proof fn lemma_extremes_block_exact(b: Seq<u8>)
    requires
        b.len() == 16,
        forall|i: int| 0 <= i < 16 ==> #[trigger] b[i] == 0 || b[i] == 255,
    ensures
        forall|k: u32|
            k < 16 ==> #[trigger] decode_block_pixel(encode_block(b), k) == b[k as int],
        forall|k: u32|
            k < 16 ==> #[trigger] decode_block_pixel(encode_block(b), k) == 0
                || decode_block_pixel(encode_block(b), k) == 255,
{
    lemma_max_min(b);
    let hi = seq_max(b);
    let lo = seq_min(b);
    if hi == lo {
        assert forall|i: int| 0 <= i < 16 implies #[trigger] b[i] == hi by {}
        lemma_uniform_block_exact(b, hi);
    } else {
        let i = choose|i: int| 0 <= i < b.len() && b[i] == seq_max(b);
        let j = choose|j: int| 0 <= j < b.len() && b[j] == seq_min(b);
        assert(hi == b[i] && lo == b[j]);
        assert(hi == 255 && lo == 0);
        let p = encode_palette(b);
        assert(p == seq![255u8, 0u8, 170u8, 85u8, 0u8, 255u8, 127u8, 0u8]);
        assert forall|k: u32| k < 16 implies #[trigger] decode_block_pixel(encode_block(b), k)
            == b[k as int] by {
            lemma_codes_round_trip(b, k);
        }
    }
}

} // verus!
