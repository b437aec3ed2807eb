//! Whole images: blocks in row-major block order, six bytes each.
use vstd::prelude::*;
use crate::palette::get_options_table;
use crate::block::{compress_block, decode_block_pixel, encode_block};

verus! {

/// Why an image cannot be encoded or decoded.
#[derive(Debug, Clone, Copy, PartialEq, Eq, Structural)]
pub enum CodecError {
    /// The width or height is not a multiple of 4 (or, for encoding, is
    /// zero), or the compressed buffer is too short for the given size.
    InvalidDimensions,
}

/// Width and height that split into whole 4x4 blocks.
pub open spec fn aligned(w: int, h: int) -> bool {
    w % 4 == 0 && h % 4 == 0
}

/// Width and height that an image to encode must have: positive multiples
/// of 4.
pub open spec fn dims_ok(w: int, h: int) -> bool {
    w > 0 && h > 0 && aligned(w, h)
}

/// The number of 4x4 blocks of a `w` by `h` image.
pub open spec fn block_count(w: int, h: int) -> int {
    (w / 4) * (h / 4)
}

/// The sixteen pixels, row-major, of the block whose top-left pixel is
/// `(x, y)` in the row-major image `img` of width `w`.
pub open spec fn block_at(img: Seq<u8>, w: int, x: int, y: int) -> Seq<u8> {
    Seq::new(16, |i: int| img[(y + i / 4) * w + x + i % 4])
}

/// Block number `n` of the image in row-major block order.
pub open spec fn image_block(img: Seq<u8>, w: int, n: int) -> Seq<u8> {
    block_at(img, w, 4 * (n % (w / 4)), 4 * (n / (w / 4)))
}

/// The encodings of the first `n` blocks of the image, one after another.
pub open spec fn encode_blocks(img: Seq<u8>, w: int, n: nat) -> Seq<u8>
    decreases n,
{
    if n == 0 {
        Seq::empty()
    } else {
        encode_blocks(img, w, (n - 1) as nat) + encode_block(image_block(img, w, n - 1))
    }
}

/// The compressed form of a `w` by `h` image.
pub open spec fn encode_image(img: Seq<u8>, w: int, h: int) -> Seq<u8> {
    encode_blocks(img, w, block_count(w, h) as nat)
}

/// Where the compressed block holding pixel `(x, y)` starts.
pub open spec fn block_offset(w: int, x: int, y: int) -> int {
    ((y / 4) * (w / 4) + x / 4) * 6
}

/// The value that compressed image `c` of width `w` gives pixel `(x, y)`.
pub open spec fn decode_pixel_at(c: Seq<u8>, w: int, x: int, y: int) -> u8 {
    let off = block_offset(w, x, y);
    decode_block_pixel(c.subrange(off, off + 6), ((y % 4) * 4 + x % 4) as u32)
}

/// The `w` by `h` image, row-major, that compressed image `c` decodes to.
pub open spec fn decode_image(c: Seq<u8>, w: int, h: int) -> Seq<u8> {
    Seq::new((w * h) as nat, |i: int| decode_pixel_at(c, w, i % w, i / w))
}

proof fn lemma_row_index(r: int, c: int, w: int, y: int, x: int)
    by (nonlinear_arith)
    requires
        0 <= r < 4,
        0 <= c < 4,
        0 <= y,
        0 <= x,
        x + 4 <= w,
    ensures
        (y + r) * w + x + c < (y + 3) * w + x + 4,
        0 <= (y + r) * w,
        y + r <= (y + 3) * w,
{
}

proof fn lemma_row_major(a: int, c: int, big_a: int, big_b: int)
    by (nonlinear_arith)
    requires
        0 <= a < big_a,
        0 <= c < big_b,
    ensures
        0 <= a * big_b + c < big_a * big_b,
{
}

proof fn lemma_div_below(n: int, d: int, m: int)
    by (nonlinear_arith)
    requires
        0 <= n < d * m,
        d > 0,
    ensures
        0 <= n / d < m,
        0 <= n % d < d,
{
}

proof fn lemma_mul_le(a: int, b: int, c: int, d: int)
    by (nonlinear_arith)
    requires
        0 <= a <= c,
        0 <= b <= d,
    ensures
        0 <= a * b <= c * d,
{
}

/// Appends the sixteen pixels of the block whose top-left pixel is `(x, y)`
/// to `output`, row by row.
pub fn select_block(img: &[u8], width: usize, x: usize, y: usize, output: &mut Vec<u8>)
    requires
        x + 4 <= width,
        (y + 3) * width + x + 4 <= img@.len(),
    ensures
        final(output)@ == old(output)@ + block_at(img@, width as int, x as int, y as int),
{
    let ghost start = output@;
    let ghost blk = block_at(img@, width as int, x as int, y as int);
    // The length of a slice fits in usize, which bounds the index arithmetic.
    let img_len = img.len();
    let mut r: usize = 0;
    while r < 4
        invariant
            x + 4 <= width,
            (y + 3) * width + x + 4 <= img@.len(),
            img@.len() == img_len,
            blk == block_at(img@, width as int, x as int, y as int),
            0 <= r <= 4,
            output@ == start + blk.subrange(0, 4 * r as int),
        decreases 4 - r,
    {
        let mut c: usize = 0;
        while c < 4
            invariant
                x + 4 <= width,
                (y + 3) * width + x + 4 <= img@.len(),
                img@.len() == img_len,
                blk == block_at(img@, width as int, x as int, y as int),
                0 <= r < 4,
                0 <= c <= 4,
                output@ == start + blk.subrange(0, 4 * r + c),
            decreases 4 - c,
        {
            proof {
                lemma_row_index(r as int, c as int, width as int, y as int, x as int);
            }
            let v = img[(y + r) * width + x + c];
            assert(v == blk[4 * r + c]);
            output.push(v);
            assert(output@ =~= start + blk.subrange(0, 4 * r + c + 1));
            c = c + 1;
        }
        r = r + 1;
    }
    assert(blk.subrange(0, 16) =~= blk);
}

/// Encodes a row-major `width` by `height` image block by block.
/// Fails, with nothing encoded, unless both sides are positive multiples of 4.
pub fn compress(img: &[u8], width: usize, height: usize) -> (r: Result<Vec<u8>, CodecError>)
    requires
        img@.len() == width * height,
    ensures
        match r {
            Ok(out) => dims_ok(width as int, height as int) && out@ == encode_image(
                img@,
                width as int,
                height as int,
            ),
            Err(e) => e == CodecError::InvalidDimensions && !dims_ok(width as int, height as int),
        },
{
    if width == 0 || height == 0 || width % 4 != 0 || height % 4 != 0 {
        return Err(CodecError::InvalidDimensions);
    }
    let blocks_wide = width / 4;
    let blocks_high = height / 4;
    // The length of a slice fits in usize, which bounds the index arithmetic.
    let img_len = img.len();
    proof {
        lemma_mul_le(blocks_wide as int, blocks_high as int, width as int, height as int);
    }
    let n_blocks = blocks_wide * blocks_high;
    let mut result: Vec<u8> = Vec::new();
    let mut block: Vec<u8> = Vec::new();
    let mut n: usize = 0;
    while n < n_blocks
        invariant
            img@.len() == width * height,
            dims_ok(width as int, height as int),
            blocks_wide == width / 4,
            blocks_high == height / 4,
            n_blocks == blocks_wide * blocks_high,
            0 <= n <= n_blocks,
            result@ == encode_blocks(img@, width as int, n as nat),
        decreases n_blocks - n,
    {
        proof {
            lemma_div_below(n as int, blocks_wide as int, blocks_high as int);
            lemma_mul_le(4 * (n / blocks_wide) + 4, width as int, height as int, width as int);
            assert((4 * (n / blocks_wide) + 4) * width == (4 * (n / blocks_wide) + 3) * width + width)
                by (nonlinear_arith);
            assert(width * height == height * width) by (nonlinear_arith);
        }
        let x = 4 * (n % blocks_wide);
        let y = 4 * (n / blocks_wide);
        block.clear();
        select_block(img, width, x, y, &mut block);
        assert(block@ =~= image_block(img@, width as int, n as int));
        let enc = compress_block(block.as_slice());
        let mut j: usize = 0;
        while j < 6
            invariant
                enc@ == encode_block(image_block(img@, width as int, n as int)),
                0 <= j <= 6,
                result@ == encode_blocks(img@, width as int, n as nat) + enc@.subrange(0, j as int),
            decreases 6 - j,
        {
            result.push(enc[j]);
            assert(result@ =~= encode_blocks(img@, width as int, n as nat) + enc@.subrange(
                0,
                j + 1,
            ));
            j = j + 1;
        }
        assert(enc@.subrange(0, 6) =~= enc@);
        n = n + 1;
    }
    Ok(result)
}

/// Reads back pixel `(x, y)` of a compressed image of width `width`.
pub fn decompress_pixel(img: &[u8], width: usize, height: usize, x: usize, y: usize) -> (r: u8)
    requires
        block_offset(width as int, x as int, y as int) + 6 <= img@.len(),
    ensures
        r == decode_pixel_at(img@, width as int, x as int, y as int),
{
    // The length of a slice fits in usize, which bounds the index arithmetic.
    let img_len = img.len();
    let block_idx = ((y / 4) * (width / 4)) + (x / 4);
    let block_offset = block_idx * 6;
    let ghost c = img@.subrange(block_offset as int, block_offset + 6);
    let val0 = img[block_offset];
    let val1 = img[block_offset + 1];
    let codes: u32 = ((img[block_offset + 2] as u32) << 24u32) | ((img[block_offset + 3] as u32)
        << 16u32) | ((img[block_offset + 4] as u32) << 8u32) | (img[block_offset + 5] as u32);
    assert(c[0] == val0 && c[1] == val1 && c[2] == img@[block_offset + 2] && c[3] == img@[block_offset
        + 3] && c[4] == img@[block_offset + 4] && c[5] == img@[block_offset + 5]);
    let pixel_idx = ((y % 4) * 4) + (x % 4);
    let shift = (2 * pixel_idx) as u32;
    let code = (codes >> shift) & 3;
    assert(code <= 3) by (bit_vector)
        requires
            code == (codes >> shift) & 3,
    ;
    let idx = if val0 > val1 {
        code
    } else {
        code + 4
    };
    get_options_table(val0, val1, true)[idx as usize]
}

/// Decodes a compressed image into `width * height` pixels, row-major.
/// Fails unless both sides are multiples of 4 and `img` holds all of their
/// blocks; a zero side gives an empty image.
pub fn decompress(img: &[u8], width: usize, height: usize) -> (r: Result<Vec<u8>, CodecError>)
    requires
        width * height <= usize::MAX,
    ensures
        match r {
            Ok(out) => aligned(width as int, height as int) && block_count(
                width as int,
                height as int,
            ) * 6 <= img@.len() && out@ == decode_image(img@, width as int, height as int),
            Err(e) => e == CodecError::InvalidDimensions && !(aligned(width as int, height as int)
                && block_count(width as int, height as int) * 6 <= img@.len()),
        },
{
    if width % 4 != 0 || height % 4 != 0 {
        return Err(CodecError::InvalidDimensions);
    }
    proof {
        lemma_mul_le(width as int / 4, height as int / 4, width as int, height as int);
    }
    if img.len() / 6 < (width / 4) * (height / 4) {
        return Err(CodecError::InvalidDimensions);
    }
    let n_pixels = width * height;
    let mut result: Vec<u8> = Vec::new();
    let mut i: usize = 0;
    while i < n_pixels
        invariant
            aligned(width as int, height as int),
            block_count(width as int, height as int) * 6 <= img@.len(),
            n_pixels == width * height,
            0 <= i <= n_pixels,
            result@.len() == i,
            forall|k: int|
                0 <= k < i ==> result@[k] == decode_pixel_at(img@, width as int, k % width as int, k / width as int),
        decreases n_pixels - i,
    {
        let x = i % width;
        let y = i / width;
        proof {
            lemma_div_below(i as int, width as int, height as int);
            lemma_div_below(y as int, 4, height as int / 4);
            lemma_div_below(x as int, 4, width as int / 4);
            lemma_row_major(y as int / 4, x as int / 4, height as int / 4, width as int / 4);
        }
        let v = decompress_pixel(img, width, height, x, y);
        result.push(v);
        i = i + 1;
    }
    assert(result@ =~= decode_image(img@, width as int, height as int));
    Ok(result)
}

proof fn lemma_encode_blocks_len(img: Seq<u8>, w: int, n: nat)
    ensures
        encode_blocks(img, w, n).len() == 6 * n,
    decreases n,
{
    if n > 0 {
        lemma_encode_blocks_len(img, w, (n - 1) as nat);
    }
}

/// An image with positive sides that are multiples of 4 encodes to six
/// bytes per block, and those bytes decode to `w * h` pixels.
pub proof fn lemma_image_shape(img: Seq<u8>, w: int, h: int)
    requires
        dims_ok(w, h),
    ensures
        encode_image(img, w, h).len() == block_count(w, h) * 6,
        decode_image(encode_image(img, w, h), w, h).len() == w * h,
{
    lemma_mul_le(w / 4, h / 4, w, h);
    lemma_encode_blocks_len(img, w, block_count(w, h) as nat);
}

proof fn lemma_encode_blocks_slot(img: Seq<u8>, w: int, m: nat, n: int)
    requires
        0 <= n < m,
    ensures
        encode_blocks(img, w, m).subrange(6 * n, 6 * n + 6) == encode_block(image_block(img, w, n)),
    decreases m,
{
    lemma_encode_blocks_len(img, w, (m - 1) as nat);
    let prev = encode_blocks(img, w, (m - 1) as nat);
    let all = encode_blocks(img, w, m);
    if n + 1 == m {
        assert(all.subrange(6 * n, 6 * n + 6) =~= encode_block(image_block(img, w, n)));
    } else {
        lemma_encode_blocks_slot(img, w, (m - 1) as nat, n);
        assert(all.subrange(6 * n, 6 * n + 6) =~= prev.subrange(6 * n, 6 * n + 6));
    }
}

/// Block `n` of an image, in row-major block order, is encoded in bytes
/// `6n` to `6n + 5` of the compressed image, as the block encoder encodes it.
pub proof fn lemma_block_bytes(img: Seq<u8>, w: int, h: int, n: int)
    requires
        dims_ok(w, h),
        0 <= n < block_count(w, h),
    ensures
        encode_image(img, w, h).subrange(6 * n, 6 * n + 6) == encode_block(image_block(img, w, n)),
{
    lemma_encode_blocks_slot(img, w, block_count(w, h) as nat, n);
}

/// Encoding is a function of each block alone: two images whose block `n`
/// holds the same pixels give that block the same six bytes.
pub proof fn lemma_block_determinism(img1: Seq<u8>, img2: Seq<u8>, w: int, h: int, n: int)
    requires
        dims_ok(w, h),
        0 <= n < block_count(w, h),
        image_block(img1, w, n) == image_block(img2, w, n),
    ensures
        encode_image(img1, w, h).subrange(6 * n, 6 * n + 6) == encode_image(img2, w, h).subrange(
            6 * n,
            6 * n + 6,
        ),
{
    lemma_block_bytes(img1, w, h, n);
    lemma_block_bytes(img2, w, h, n);
}

} // verus!
