//! The integer side of the lossy mode: the quantisation table, and the way a
//! bitmap is cut into blocks of 8 by 8 samples and put together again. The
//! cosine transform of a block works on floating-point numbers and is left
//! to the caller.

use crate::header::ColorFormat;
use vstd::prelude::*;
use vstd::slice::slice_subrange;
use vstd::slice::slice_to_vec;

verus! {

/// JPEG 8x8 Base Quantization Matrix for a quality level of 50.
///
/// Instead of using this, utilize the [`quantization_matrix`] function to
/// get a quantization matrix corresponding to the image quality value.
pub const BASE_QUANTIZATION_MATRIX: [u16; 64] = [
    16, 11, 10, 16, 24, 40, 51, 61,
    12, 12, 14, 19, 26, 58, 60, 55,
    14, 13, 16, 24, 40, 57, 69, 56,
    14, 17, 22, 29, 51, 87, 80, 62,
    18, 22, 37, 56, 68, 109, 103, 77,
    24, 35, 55, 64, 81, 104, 113, 92,
    49, 64, 78, 87, 103, 121, 120, 101,
    72, 92, 95, 98, 112, 100, 103, 99,
];

/// The scaled value of one entry of the base matrix, before it is brought
/// into the range of an entry. Below a quality of 50 the entry is scaled by
/// `5000 / quality`, from 50 on by `200 - 2 * quality`; half a hundredth is
/// added and the hundredths are cut off. A quality of 0 scales beyond all
/// bounds, and one above 100 scales below zero.
pub open spec fn scaled(quality: nat, base: nat) -> nat {
    if quality == 0 {
        65535
    } else if quality < 50 {
        (5000 * base + 50 * quality) / (100 * quality)
    } else if quality <= 100 {
        (((200 - 2 * quality) * base + 50) / 100) as nat
    } else {
        0
    }
}

/// One entry of the quantisation table: the scaled entry of the base matrix,
/// but no less than 1 and no more than a `u16` holds.
pub open spec fn quantized(quality: nat, base: nat) -> nat {
    let raw = scaled(quality, base);
    if raw == 0 {
        1
    } else if raw > 65535 {
        65535
    } else {
        raw
    }
}

/// Quantisation table laws: no entry of a table is below 1, and at a quality
/// of 100 every entry is 1.
pub proof fn lemma_quantized_bounds(quality: nat, base: nat)
    ensures
        1 <= quantized(quality, base) <= 65535,
        quality >= 100 ==> quantized(quality, base) == 1,
{
    if quality == 100 {
        assert((200 - 2 * quality) * base == 0) by (nonlinear_arith)
            requires
                quality == 100,
        ;
    }
}

/// Generate the 8x8 quantization matrix for the given quality level.
pub fn quantization_matrix(quality: u32) -> (matrix: [u16; 64])
    ensures
        forall|i: int|
            0 <= i < 64 ==> #[trigger] matrix@[i] == quantized(
                quality as nat,
                BASE_QUANTIZATION_MATRIX@[i] as nat,
            ),
        forall|i: int| 0 <= i < 64 ==> #[trigger] matrix@[i] >= 1,
        quality >= 100 ==> forall|i: int| 0 <= i < 64 ==> #[trigger] matrix@[i] == 1,
{
    let mut new_matrix: [u16; 64] = [1u16; 64];
    let q: u64 = quality as u64;
    let mut i: usize = 0;
    while i < 64
        invariant
            i <= 64,
            q == quality,
            forall|k: int|
                0 <= k < i ==> #[trigger] new_matrix@[k] == quantized(
                    quality as nat,
                    BASE_QUANTIZATION_MATRIX@[k] as nat,
                ),
        decreases 64 - i,
    {
        let base: u64 = BASE_QUANTIZATION_MATRIX[i] as u64;
        proof {
            assert(5000 * base <= 5000 * 65535);
            if 50 <= q <= 100 {
                assert((200 - 2 * q) * base <= 100 * 65535) by (nonlinear_arith)
                    requires
                        0 <= 200 - 2 * q <= 100,
                        0 <= base <= 65535,
                ;
                assert(0 <= (200 - 2 * q) * base) by (nonlinear_arith)
                    requires
                        0 <= 200 - 2 * q,
                        0 <= base,
                ;
            }
        }
        let raw: u64 = if q == 0 {
            65535
        } else if q < 50 {
            (5000 * base + 50 * q) / (100 * q)
        } else if q <= 100 {
            ((200 - 2 * q) * base + 50) / 100
        } else {
            0
        };
        let entry: u16 = if raw == 0 {
            1
        } else if raw > 65535 {
            65535
        } else {
            raw as u16
        };
        new_matrix[i] = entry;
        i += 1;
    }
    proof {
        assert forall|k: int| 0 <= k < 64 implies #[trigger] new_matrix@[k] >= 1 && (quality >= 100
            ==> new_matrix@[k] == 1) by {
            lemma_quantized_bounds(quality as nat, BASE_QUANTIZATION_MATRIX@[k] as nat);
        }
    }
    new_matrix
}

/// Parameters of the block transform of a picture.
#[derive(Debug, Clone, Copy)]
pub struct DctParameters {
    /// A quality level from 1-100. Higher values provide better results.
    /// Default value is 80.
    pub quality: u32,
    /// The color format of the input bytes.
    ///
    /// Since the transform works on one channel at a time, knowing the
    /// format is important.
    pub format: ColorFormat,
    /// Width of the input image
    pub width: usize,
    /// Height of the input image
    pub height: usize,
}

impl Default for DctParameters {
    fn default() -> (p: Self)
        ensures
            p.quality == 80,
            p.format == ColorFormat::Rgba8,
            p.width == 0,
            p.height == 0,
    {
        Self { quality: 80, format: ColorFormat::Rgba8, width: 0, height: 0 }
    }
}

/// The results of DCT compression
pub struct DctImage {
    /// The DCT encoded version of each channel.
    pub channels: Vec<Vec<i16>>,
    /// New width after padding.
    pub width: u32,
    /// New height after padding.
    pub height: u32,
}

/// The width of the padded image: the next multiple of 8 above the width.
pub open spec fn padded_width(width: nat) -> nat {
    width + (8 - width % 8) as nat
}

/// The height of the padded image. The rows added are as many as the columns
/// added, so the padded height need not be a multiple of 8.
pub open spec fn padded_height(width: nat, height: nat) -> nat {
    height + (8 - width % 8) as nat
}

/// The number of blocks side by side in a channel.
pub open spec fn blocks_across(width: nat) -> nat {
    padded_width(width) / 8
}

/// The number of rows of blocks in a channel: only whole blocks count.
pub open spec fn blocks_down(width: nat, height: nat) -> nat {
    padded_height(width, height) / 8
}

/// The number of blocks side by side, and the number of rows of blocks, in
/// one channel of a picture.
pub fn block_counts(parameters: DctParameters) -> (counts: (usize, usize))
    requires
        parameters.width + 8 <= usize::MAX,
        parameters.height + 8 <= usize::MAX,
    ensures
        counts.0 == blocks_across(parameters.width as nat),
        counts.1 == blocks_down(parameters.width as nat, parameters.height as nat),
{
    let new_width: usize = parameters.width + (8 - parameters.width % 8);
    let new_height: usize = parameters.height + (8 - parameters.width % 8);
    (new_width / 8, new_height / 8)
}

/// The sample of channel `ch` in row `r` and column `c` of the padded image:
/// the byte of the bitmap inside the image, zero outside.
pub open spec fn sample(input: Seq<u8>, p: DctParameters, ch: int, r: int, c: int) -> u8 {
    if 0 <= r < p.height && 0 <= c < p.width {
        input[(r * p.width + c) * p.format.spec_channels() + ch]
    } else {
        0
    }
}

/// The block in row `h` and column `w` of the blocks of channel `ch`: 64
/// samples, row after row.
pub open spec fn block_at(input: Seq<u8>, p: DctParameters, ch: int, h: int, w: int) -> Seq<u8> {
    Seq::new(64, |k: int| sample(input, p, ch, 8 * h + k / 8, 8 * w + k % 8))
}

/// Row `h` of the blocks of channel `ch`.
pub open spec fn block_row(input: Seq<u8>, p: DctParameters, ch: int, h: int) -> Seq<Seq<u8>> {
    Seq::new(blocks_across(p.width as nat), |w: int| block_at(input, p, ch, h, w))
}

/// The first `rows` rows of the blocks of channel `ch`.
pub open spec fn block_rows(input: Seq<u8>, p: DctParameters, ch: int, rows: nat) -> Seq<Seq<u8>>
    decreases rows,
{
    if rows == 0 {
        Seq::empty()
    } else {
        block_rows(input, p, ch, (rows - 1) as nat) + block_row(input, p, ch, rows - 1)
    }
}

/// The blocks of the first `channels` channels, channel after channel.
pub open spec fn blocks_upto(input: Seq<u8>, p: DctParameters, channels: nat) -> Seq<Seq<u8>>
    decreases channels,
{
    if channels == 0 {
        Seq::empty()
    } else {
        blocks_upto(input, p, (channels - 1) as nat) + block_rows(
            input,
            p,
            channels - 1,
            blocks_down(p.width as nat, p.height as nat),
        )
    }
}

/// All blocks of a bitmap, in the order in which they are transformed.
pub open spec fn blocks_model(input: Seq<u8>, p: DctParameters) -> Seq<Seq<u8>> {
    blocks_upto(input, p, p.format.spec_channels() as nat)
}

/// The byte strings that a vector of vectors holds.
pub open spec fn grid<T>(blocks: Seq<Vec<T>>) -> Seq<Seq<T>> {
    Seq::new(blocks.len(), |i: int| blocks[i]@)
}

/// The place of a sample in the bitmap lies inside the bitmap.
proof fn lemma_sample_index(width: int, height: int, channels: int, r: int, c: int, ch: int)
    requires
        0 <= r < height,
        0 <= c < width,
        0 <= ch < channels,
    ensures
        0 <= r * width + c < width * height,
        0 <= (r * width + c) * channels + ch < width * height * channels,
{
    assert(0 <= r * width + c < width * height) by (nonlinear_arith)
        requires
            0 <= r < height,
            0 <= c < width,
    ;
    let q = r * width + c;
    let n = width * height;
    assert(0 <= q * channels + ch < n * channels) by (nonlinear_arith)
        requires
            0 <= q < n,
            0 <= ch < channels,
    ;
}

/// Cut a bitmap into the blocks that the forward transform works on. The
/// image is padded with zero samples to the next multiple of 8 in width, and
/// by as many rows as columns. Each channel is taken by itself and cut into
/// blocks of 8 by 8 samples, row of blocks after row of blocks; rows that do
/// not fill a block are left out. The blocks of the first channel come
/// first.
///
/// `input` holds `width * height` pixels of the format, and the padded sizes
/// must fit a `usize`.
pub fn split_blocks(input: &[u8], parameters: DctParameters) -> (blocks: Vec<Vec<u8>>)
    requires
        input@.len() == parameters.width * parameters.height
            * parameters.format.spec_channels(),
        parameters.width + 8 <= usize::MAX,
        parameters.height + 8 <= usize::MAX,
    ensures
        grid(blocks@) == blocks_model(input@, parameters),
{
    let total: usize = input.len();
    let width: usize = parameters.width;
    let height: usize = parameters.height;
    let (across, down) = block_counts(parameters);
    let channels: usize = parameters.format.pbc();

    let mut blocks: Vec<Vec<u8>> = Vec::new();
    let mut ch: usize = 0;
    proof {
        assert(grid(blocks@) =~= blocks_upto(input@, parameters, 0));
    }
    while ch < channels
        invariant
            ch <= channels,
            channels == parameters.format.spec_channels(),
            width == parameters.width,
            height == parameters.height,
            across == blocks_across(width as nat),
            down == blocks_down(width as nat, height as nat),
            8 * across <= width + 8,
            8 * down <= height + 8,
            width + 8 <= usize::MAX,
            height + 8 <= usize::MAX,
            total == input@.len(),
            input@.len() == width * height * channels,
            grid(blocks@) == blocks_upto(input@, parameters, ch as nat),
        decreases channels - ch,
    {
        let ghost done = grid(blocks@);
        let mut h: usize = 0;
        proof {
            assert(grid(blocks@) =~= done + block_rows(input@, parameters, ch as int, 0));
        }
        while h < down
            invariant
                h <= down,
                ch < channels,
                channels == parameters.format.spec_channels(),
                width == parameters.width,
                height == parameters.height,
                across == blocks_across(width as nat),
                8 * across <= width + 8,
                8 * down <= height + 8,
                width + 8 <= usize::MAX,
                height + 8 <= usize::MAX,
                total == input@.len(),
                input@.len() == width * height * channels,
                grid(blocks@) == done + block_rows(input@, parameters, ch as int, h as nat),
            decreases down - h,
        {
            let ghost rows_done = grid(blocks@);
            let ghost this_row = block_row(input@, parameters, ch as int, h as int);
            let mut w: usize = 0;
            proof {
                assert(grid(blocks@) =~= rows_done + this_row.take(0));
            }
            while w < across
                invariant
                    w <= across,
                    h < down,
                    ch < channels,
                    channels == parameters.format.spec_channels(),
                    width == parameters.width,
                    height == parameters.height,
                    across == blocks_across(width as nat),
                    8 * across <= width + 8,
                    8 * down <= height + 8,
                    width + 8 <= usize::MAX,
                    height + 8 <= usize::MAX,
                    total == input@.len(),
                    input@.len() == width * height * channels,
                    this_row == block_row(input@, parameters, ch as int, h as int),
                    grid(blocks@) == rows_done + this_row.take(w as int),
                decreases across - w,
            {
                let ghost block = block_at(input@, parameters, ch as int, h as int, w as int);
                let mut chunk: Vec<u8> = Vec::new();
                let mut k: usize = 0;
                while k < 64
                    invariant
                        k <= 64,
                        w < across,
                        h < down,
                        ch < channels,
                        channels == parameters.format.spec_channels(),
                        width == parameters.width,
                        height == parameters.height,
                        8 * across <= width + 8,
                        8 * down <= height + 8,
                        width + 8 <= usize::MAX,
                        height + 8 <= usize::MAX,
                        total == input@.len(),
                        input@.len() == width * height * channels,
                        block == block_at(input@, parameters, ch as int, h as int, w as int),
                        chunk@ == block.take(k as int),
                    decreases 64 - k,
                {
                    let r: usize = 8 * h + k / 8;
                    let c: usize = 8 * w + k % 8;
                    let value: u8 = if r < height && c < width {
                        proof {
                            lemma_sample_index(
                                width as int,
                                height as int,
                                channels as int,
                                r as int,
                                c as int,
                                ch as int,
                            );
                        }
                        input[(r * width + c) * channels + ch]
                    } else {
                        0
                    };
                    chunk.push(value);
                    proof {
                        assert(chunk@ =~= block.take(k + 1));
                    }
                    k += 1;
                }
                proof {
                    assert(block.take(64) =~= block);
                }
                let ghost before = grid(blocks@);
                blocks.push(chunk);
                proof {
                    assert(grid(blocks@) =~= before.push(block));
                    assert(this_row.take(w + 1) =~= this_row.take(w as int).push(block));
                    assert(grid(blocks@) =~= rows_done + this_row.take(w + 1));
                }
                w += 1;
            }
            proof {
                assert(this_row.take(across as int) =~= this_row);
                assert(done + block_rows(input@, parameters, ch as int, h as nat) + this_row
                    =~= done + block_rows(input@, parameters, ch as int, (h + 1) as nat));
            }
            h += 1;
        }
        ch += 1;
    }
    blocks
}

/// The byte of channel `ch` of the pixel in row `r` and column `c`, as the
/// blocks give it: the byte at the pixel's place in its block, or zero where
/// the block is missing or the row lies below all blocks.
pub open spec fn joined_byte(blocks: Seq<Seq<u8>>, p: DctParameters, r: int, c: int, ch: int) -> u8 {
    let across = blocks_across(p.width as nat);
    let down = blocks_down(p.width as nat, p.height as nat);
    let place = (ch * down + r / 8) * across + c / 8;
    if r / 8 < down && place < blocks.len() {
        blocks[place][(r % 8) * 8 + c % 8]
    } else {
        0
    }
}

/// The bytes of the pixel in row `r` and column `c`.
pub open spec fn joined_pixel(blocks: Seq<Seq<u8>>, p: DctParameters, r: int, c: int) -> Seq<u8> {
    Seq::new(p.format.spec_channels() as nat, |ch: int| joined_byte(blocks, p, r, c, ch))
}

/// The first `columns` pixels of row `r`.
pub open spec fn joined_row(blocks: Seq<Seq<u8>>, p: DctParameters, r: int, columns: nat) -> Seq<u8>
    decreases columns,
{
    if columns == 0 {
        Seq::empty()
    } else {
        joined_row(blocks, p, r, (columns - 1) as nat) + joined_pixel(blocks, p, r, columns - 1)
    }
}

/// The first `rows` rows of the image.
pub open spec fn joined_rows(blocks: Seq<Seq<u8>>, p: DctParameters, rows: nat) -> Seq<u8>
    decreases rows,
{
    if rows == 0 {
        Seq::empty()
    } else {
        joined_rows(blocks, p, (rows - 1) as nat) + joined_row(
            blocks,
            p,
            rows - 1,
            p.width as nat,
        )
    }
}

/// The bitmap that blocks are put together to.
pub open spec fn joined_model(blocks: Seq<Seq<u8>>, p: DctParameters) -> Seq<u8> {
    joined_rows(blocks, p, p.height as nat)
}

/// Put the blocks that the inverse transform gives together to a bitmap.
/// The blocks are taken in the order in which [`split_blocks`] cuts them. A
/// block that reaches beyond the image gives only the samples inside it; a
/// pixel whose block is missing, or whose row lies below all blocks, is
/// zero.
///
/// Every block holds 64 samples, and the padded sizes must fit a `usize`.
pub fn join_blocks(blocks: &Vec<Vec<u8>>, parameters: DctParameters) -> (bitmap: Vec<u8>)
    requires
        forall|i: int| 0 <= i < blocks@.len() ==> (#[trigger] blocks@[i])@.len() == 64,
        parameters.width + 8 <= usize::MAX,
        parameters.height + 8 <= usize::MAX,
    ensures
        bitmap@ == joined_model(grid(blocks@), parameters),
{
    let width: usize = parameters.width;
    let height: usize = parameters.height;
    let (across, down) = block_counts(parameters);
    let channels: usize = parameters.format.pbc();
    let count: usize = blocks.len();
    let ghost model = grid(blocks@);

    let mut bitmap: Vec<u8> = Vec::new();
    let mut r: usize = 0;
    while r < height
        invariant
            r <= height,
            channels == parameters.format.spec_channels(),
            width == parameters.width,
            height == parameters.height,
            across == blocks_across(width as nat),
            down == blocks_down(width as nat, height as nat),
            count == blocks@.len(),
            model == grid(blocks@),
            forall|i: int| 0 <= i < blocks@.len() ==> (#[trigger] blocks@[i])@.len() == 64,
            bitmap@ == joined_rows(model, parameters, r as nat),
        decreases height - r,
    {
        let ghost rows_done = bitmap@;
        let mut c: usize = 0;
        proof {
            assert(bitmap@ =~= rows_done + joined_row(model, parameters, r as int, 0));
        }
        while c < width
            invariant
                c <= width,
                r < height,
                channels == parameters.format.spec_channels(),
                width == parameters.width,
                height == parameters.height,
                across == blocks_across(width as nat),
                down == blocks_down(width as nat, height as nat),
                count == blocks@.len(),
                model == grid(blocks@),
                forall|i: int| 0 <= i < blocks@.len() ==> (#[trigger] blocks@[i])@.len() == 64,
                bitmap@ == rows_done + joined_row(model, parameters, r as int, c as nat),
            decreases width - c,
        {
            let ghost pixels_done = bitmap@;
            let ghost pixel = joined_pixel(model, parameters, r as int, c as int);
            let mut ch: usize = 0;
            proof {
                assert(bitmap@ =~= pixels_done + pixel.take(0));
            }
            while ch < channels
                invariant
                    ch <= channels <= 4,
                    c < width,
                    r < height,
                    channels == parameters.format.spec_channels(),
                    width == parameters.width,
                    height == parameters.height,
                    across == blocks_across(width as nat),
                    down == blocks_down(width as nat, height as nat),
                    count == blocks@.len(),
                    model == grid(blocks@),
                    forall|i: int|
                        0 <= i < blocks@.len() ==> (#[trigger] blocks@[i])@.len() == 64,
                    pixel == joined_pixel(model, parameters, r as int, c as int),
                    bitmap@ == pixels_done + pixel.take(ch as int),
                decreases channels - ch,
            {
                proof {
                    assert(ch as int * down as int <= 4 * 0x2000_0000_0000_0000)
                        by (nonlinear_arith)
                        requires
                            0 <= ch as int <= 4,
                            0 <= down as int <= 0x2000_0000_0000_0000,
                    ;
                    assert((ch as int * down as int + r as int / 8) * across as int <= (5
                        * 0x2000_0000_0000_0000) * 0x2000_0000_0000_0000) by (nonlinear_arith)
                        requires
                            0 <= ch as int * down as int + r as int / 8 <= 5
                                * 0x2000_0000_0000_0000,
                            0 <= across as int <= 0x2000_0000_0000_0000,
                    ;
                }
                let band: u128 = (ch as u128) * (down as u128) + (r / 8) as u128;
                let place: u128 = band * (across as u128) + (c / 8) as u128;
                let value: u8 = if r / 8 < down && place < count as u128 {
                    let block = &blocks[place as usize];
                    block[(r % 8) * 8 + c % 8]
                } else {
                    0
                };
                bitmap.push(value);
                proof {
                    assert(pixel.take(ch + 1) =~= pixel.take(ch as int).push(value));
                    assert(bitmap@ =~= pixels_done + pixel.take(ch + 1));
                }
                ch += 1;
            }
            proof {
                assert(pixel.take(channels as int) =~= pixel);
                assert(rows_done + joined_row(model, parameters, r as int, c as nat) + pixel
                    =~= rows_done + joined_row(model, parameters, r as int, (c + 1) as nat));
            }
            c += 1;
        }
        r += 1;
    }
    bitmap
}

/// The number of blocks of a picture: those of one channel, for every
/// channel.
pub open spec fn block_total(p: DctParameters) -> nat {
    p.format.spec_channels() as nat * blocks_across(p.width as nat) * blocks_down(
        p.width as nat,
        p.height as nat,
    )
}

/// The blocks of coefficients that a stream of coefficients holds: its runs
/// of 64, in order, as far as they are whole and as many as the picture has
/// blocks. A stream that ends early gives fewer blocks, and what stands
/// behind the picture's last block is left out.
pub open spec fn coefficient_blocks_model(coefficients: Seq<i16>, p: DctParameters) -> Seq<
    Seq<i16>,
> {
    let whole = coefficients.len() / 64;
    let count = if whole < block_total(p) {
        whole
    } else {
        block_total(p)
    };
    Seq::new(count, |i: int| coefficients.subrange(64 * i, 64 * i + 64))
}

/// Cut the coefficients of a picture into blocks of 64, in the order in
/// which [`split_blocks`] cuts the bitmap. Coefficients that do not fill a
/// block, and blocks beyond those that the picture has, are left out; a
/// stream that ends early gives the blocks that it holds.
pub fn coefficient_blocks(coefficients: &[i16], parameters: DctParameters) -> (blocks: Vec<
    Vec<i16>,
>)
    requires
        parameters.width + 8 <= usize::MAX,
        parameters.height + 8 <= usize::MAX,
    ensures
        grid(blocks@) == coefficient_blocks_model(coefficients@, parameters),
        forall|i: int| 0 <= i < blocks@.len() ==> (#[trigger] blocks@[i])@.len() == 64,
{
    let (across, down) = block_counts(parameters);
    let channels: usize = parameters.format.pbc();
    proof {
        assert(channels as int * across as int <= 4 * 0x2000_0000_0000_0000) by (nonlinear_arith)
            requires
                0 <= channels as int <= 4,
                0 <= across as int <= 0x2000_0000_0000_0000,
        ;
        assert((channels as int * across as int) * down as int <= (4 * 0x2000_0000_0000_0000)
            * 0x2000_0000_0000_0000) by (nonlinear_arith)
            requires
                0 <= channels as int * across as int <= 4 * 0x2000_0000_0000_0000,
                0 <= down as int <= 0x2000_0000_0000_0000,
        ;
    }
    let total: u128 = (channels as u128) * (across as u128) * (down as u128);
    let length: usize = coefficients.len();
    let whole: usize = length / 64;
    let count: usize = if (whole as u128) < total {
        whole
    } else {
        total as usize
    };
    let ghost model = coefficient_blocks_model(coefficients@, parameters);

    let mut blocks: Vec<Vec<i16>> = Vec::new();
    let mut i: usize = 0;
    while i < count
        invariant
            i <= count,
            count <= length / 64,
            length == coefficients@.len(),
            model.len() == count,
            model == coefficient_blocks_model(coefficients@, parameters),
            grid(blocks@) == model.take(i as int),
            forall|k: int| 0 <= k < blocks@.len() ==> (#[trigger] blocks@[k])@.len() == 64,
        decreases count - i,
    {
        let chunk: Vec<i16> = slice_to_vec(slice_subrange(coefficients, 64 * i, 64 * i + 64));
        let ghost before = grid(blocks@);
        blocks.push(chunk);
        proof {
            assert(grid(blocks@) =~= before.push(model[i as int]));
            assert(model.take(i + 1) =~= model.take(i as int).push(model[i as int]));
        }
        i += 1;
    }
    proof {
        assert(model.take(count as int) =~= model);
    }
    blocks
}

} // verus!
