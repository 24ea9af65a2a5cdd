//! The row transform of the lossless mode: every row but the first of a band
//! is stored as its difference to the row above, and the alpha bytes are
//! moved behind all other bytes.

use crate::header::ColorFormat;
use vstd::arithmetic::div_mod::lemma_fundamental_div_mod_converse;
use vstd::prelude::*;
use vstd::slice::slice_subrange;
use vstd::slice::slice_to_vec;

verus! {

/// `a - b`, wrapping round at the ends of the byte range.
pub open spec fn sub_byte(a: u8, b: u8) -> u8 {
    if a < b {
        (a - b + 256) as u8
    } else {
        (a - b) as u8
    }
}

/// `a + b`, wrapping round at the ends of the byte range.
pub open spec fn add_byte(a: u8, b: u8) -> u8 {
    if a + b > 255 {
        (a + b - 256) as u8
    } else {
        (a + b) as u8
    }
}

/// The bytes of `a`, each less the byte of `b` at its place.
pub open spec fn sub_bytes(a: Seq<u8>, b: Seq<u8>) -> Seq<u8> {
    Seq::new(a.len(), |x: int| sub_byte(a[x], b[x]))
}

/// The bytes of `a`, each plus the byte of `b` at its place.
pub open spec fn add_bytes(a: Seq<u8>, b: Seq<u8>) -> Seq<u8> {
    Seq::new(a.len(), |x: int| add_byte(a[x], b[x]))
}

/// The height of a band: a third of the image's height, rounded up.
pub open spec fn block_height(height: nat) -> nat {
    (height + 2) / 3
}

/// Row `y` of a buffer whose rows are `line` bytes long.
pub open spec fn row(data: Seq<u8>, line: nat, y: int) -> Seq<u8> {
    data.subrange(y * line, y * line + line)
}

/// Row `y` as the forward transform stores it: as it is where it starts a
/// band, and as its difference to the row above elsewhere.
pub open spec fn diff_row(input: Seq<u8>, line: nat, band: nat, y: int) -> Seq<u8> {
    if y % (band as int) == 0 {
        row(input, line, y)
    } else {
        sub_bytes(row(input, line, y), row(input, line, y - 1))
    }
}

/// The first `rows` rows as the forward transform stores them.
pub open spec fn diff_rows(input: Seq<u8>, line: nat, band: nat, rows: nat) -> Seq<u8>
    decreases rows,
{
    if rows == 0 {
        Seq::empty()
    } else {
        diff_rows(input, line, band, (rows - 1) as nat) + diff_row(input, line, band, rows - 1)
    }
}

/// Row `y` as the inverse transform rebuilds it from stored rows: the stored
/// row where it starts a band, and the stored row plus the rebuilt row above
/// elsewhere.
pub open spec fn sum_row(stored: Seq<u8>, line: nat, band: nat, y: int) -> Seq<u8>
    decreases y,
{
    if y <= 0 || y % (band as int) == 0 {
        row(stored, line, y)
    } else {
        add_bytes(row(stored, line, y), sum_row(stored, line, band, y - 1))
    }
}

/// The first `rows` rows as the inverse transform rebuilds them.
pub open spec fn sum_rows(stored: Seq<u8>, line: nat, band: nat, rows: nat) -> Seq<u8>
    decreases rows,
{
    if rows == 0 {
        Seq::empty()
    } else {
        sum_rows(stored, line, band, (rows - 1) as nat) + sum_row(stored, line, band, rows - 1)
    }
}

/// The bytes of `pixels` pixels with the alpha bytes moved behind all others.
/// A format without alpha keeps its bytes in place.
pub open spec fn planar(format: ColorFormat, pixels: nat, data: Seq<u8>) -> Seq<u8> {
    let pbc = format.spec_channels();
    let colors = pbc - 1;
    if format.has_alpha() {
        Seq::new(pixels * colors as nat, |j: int| data[(j / colors) * pbc + j % colors])
            + Seq::new(pixels, |p: int| data[p * pbc + colors])
    } else {
        data
    }
}

/// The bytes of `pixels` pixels with each alpha byte put back behind the
/// other bytes of its pixel. A format without alpha keeps its bytes in
/// place.
pub open spec fn interleaved(format: ColorFormat, pixels: nat, data: Seq<u8>) -> Seq<u8> {
    let pbc = format.spec_channels();
    let colors = pbc - 1;
    if format.has_alpha() {
        Seq::new(
            pixels * pbc as nat,
            |k: int|
                if k % pbc == colors {
                    data[pixels * colors + k / pbc]
                } else {
                    data[(k / pbc) * colors + k % pbc]
                },
        )
    } else {
        data.subrange(0, pixels * pbc)
    }
}

/// What the forward transform makes of a bitmap.
pub open spec fn sub_rows_model(
    width: nat,
    height: nat,
    format: ColorFormat,
    input: Seq<u8>,
) -> Seq<u8> {
    planar(
        format,
        width * height,
        diff_rows(input, width * format.spec_channels() as nat, block_height(height), height),
    )
}

/// What the inverse transform makes of stored bytes.
pub open spec fn add_rows_model(
    width: nat,
    height: nat,
    format: ColorFormat,
    data: Seq<u8>,
) -> Seq<u8> {
    sum_rows(
        interleaved(format, width * height, data),
        width * format.spec_channels() as nat,
        block_height(height),
        height,
    )
}

/// A product grows by one factor when the other grows by one.
pub proof fn lemma_mul_next(a: int, b: int)
    ensures
        (a + 1) * b == a * b + b,
        b * (a + 1) == b * a + b,
        a * b == b * a,
{
    assert((a + 1) * b == a * b + b) by (nonlinear_arith);
    assert(b * (a + 1) == b * a + b) by (nonlinear_arith);
    assert(a * b == b * a) by (nonlinear_arith);
}

/// A product of numbers that are not negative grows with its factors.
pub proof fn lemma_mul_grows(a: int, b: int, c: int)
    requires
        0 <= a <= b,
        0 <= c,
    ensures
        0 <= a * c <= b * c,
        0 <= c * a <= c * b,
{
    assert(0 <= a * c <= b * c) by (nonlinear_arith)
        requires
            0 <= a <= b,
            0 <= c,
    ;
    assert(0 <= c * a <= c * b) by (nonlinear_arith)
        requires
            0 <= a <= b,
            0 <= c,
    ;
}

/// Dividing `q * d + r` by `d` gives `q` and leaves `r`.
pub proof fn lemma_place(q: int, d: int, r: int)
    requires
        0 < d,
        0 <= r < d,
    ensures
        (q * d + r) / d == q,
        (q * d + r) % d == r,
{
    lemma_fundamental_div_mod_converse(q * d + r, d, q, r);
}

/// The first `rows` stored rows take `rows * line` bytes.
pub proof fn lemma_diff_rows_len(input: Seq<u8>, line: nat, band: nat, rows: nat)
    requires
        rows * line <= input.len(),
    ensures
        diff_rows(input, line, band, rows).len() == rows * line,
    decreases rows,
{
    if rows > 0 {
        lemma_mul_next(rows - 1, line as int);
        lemma_diff_rows_len(input, line, band, (rows - 1) as nat);
    } else {
        assert(0 * line == 0);
    }
}

/// The first `rows` rebuilt rows take `rows * line` bytes.
pub proof fn lemma_sum_rows_len(stored: Seq<u8>, line: nat, band: nat, rows: nat)
    requires
        rows * line <= stored.len(),
    ensures
        sum_rows(stored, line, band, rows).len() == rows * line,
    decreases rows,
{
    if rows > 0 {
        lemma_mul_next(rows - 1, line as int);
        lemma_sum_rows_len(stored, line, band, (rows - 1) as nat);
        lemma_sum_row_len(stored, line, band, rows - 1);
    } else {
        assert(0 * line == 0);
    }
}

/// A rebuilt row is `line` bytes long.
pub proof fn lemma_sum_row_len(stored: Seq<u8>, line: nat, band: nat, y: int)
    requires
        0 <= y,
        (y + 1) * line <= stored.len(),
    ensures
        sum_row(stored, line, band, y).len() == line,
    decreases y,
{
    lemma_mul_next(y, line as int);
}

/// The height of a band, computed without leaving the range of `u32`.
fn band_height(height: u32) -> (band: u32)
    ensures
        band == block_height(height as nat),
        height > 0 ==> band > 0,
{
    if height % 3 == 0 {
        height / 3
    } else {
        height / 3 + 1
    }
}

/// The forward transform of the lossless mode. Rows are taken in three bands
/// of equal height. The first row of a band is stored as it is, every other
/// row as its difference, byte by byte and wrapping, to the row above it.
/// Where the format has alpha, the alpha bytes of all pixels are then moved
/// behind all the other bytes.
///
/// `input` holds `width * height` pixels of the format.
pub fn sub_rows(width: u32, height: u32, color_format: ColorFormat, input: &[u8]) -> (out: Vec<u8>)
    requires
        input@.len() == width as nat * height as nat * color_format.spec_channels() as nat,
    ensures
        out@ == sub_rows_model(width as nat, height as nat, color_format, input@),
{
    let pbc: usize = color_format.pbc();
    let mut data: Vec<u8> = Vec::new();
    let ghost pixels: nat = width as nat * height as nat;
    if height == 0 || width == 0 {
        proof {
            lemma_mul_grows(0, 0, height as int);
            assert(width as nat * height as nat == 0) by (nonlinear_arith)
                requires
                    height == 0 || width == 0,
            ;
            assert(input@.len() == 0);
            let line = width as nat * color_format.spec_channels() as nat;
            lemma_rows_of_nothing(input@, line, block_height(height as nat), height as nat);
            assert(planar(color_format, 0, Seq::<u8>::empty()) =~= Seq::<u8>::empty());
        }
        return data;
    }
    let block_height: u32 = band_height(height);
    let total: usize = input.len();
    proof {
        assert(width as nat * height as nat * pbc as nat == height as nat * (width as nat
            * pbc as nat)) by (nonlinear_arith);
        lemma_mul_grows(1, height as int, width as int * pbc as int);
        assert(1 * (width as int * pbc as int) == width as int * pbc as int);
    }
    let line_byte_count: usize = width as usize * pbc;
    let ghost line: nat = line_byte_count as nat;
    let ghost band: nat = block_height as nat;

    let mut curr_line: Vec<u8>;
    let mut prev_line: Vec<u8> = Vec::new();

    let mut i: usize = 0;
    let mut y: u32 = 0;
    proof {
        assert(0 * line == 0);
    }
    while y < height
        invariant
            y <= height,
            band > 0,
            block_height == band,
            line_byte_count == line,
            line == width as nat * pbc as nat,
            input@.len() == height as nat * line,
            total == input@.len(),
            i == y as nat * line,
            data@ == diff_rows(input@, line, band, y as nat),
            y > 0 ==> prev_line@ == row(input@, line, y - 1),
        decreases height - y,
    {
        proof {
            lemma_mul_next(y as int, line as int);
            lemma_mul_grows(y + 1, height as int, line as int);
        }
        curr_line = slice_to_vec(slice_subrange(input, i, i + line_byte_count));
        let ghost this_row = row(input@, line, y as int);
        proof {
            assert(curr_line@ =~= this_row);
        }

        if y % block_height != 0 {
            let ghost above = row(input@, line, y - 1);
            proof {
                lemma_mul_next(y - 1, line as int);
            }
            let mut x: usize = 0;
            while x < line_byte_count
                invariant
                    x <= line_byte_count,
                    line_byte_count == line,
                    curr_line@.len() == line,
                    prev_line@.len() == line,
                    this_row.len() == line,
                    above.len() == line,
                    forall|j: int|
                        0 <= j < x ==> curr_line@[j] == sub_byte(this_row[j], above[j])
                            && prev_line@[j] == this_row[j],
                    forall|j: int|
                        x <= j < line ==> curr_line@[j] == this_row[j] && prev_line@[j] == above[j],
                decreases line_byte_count - x,
            {
                let curr: u8 = curr_line[x].wrapping_sub(prev_line[x]);
                let prev: u8 = prev_line[x].wrapping_add(curr);
                curr_line[x] = curr;
                prev_line[x] = prev;
                x += 1;
            }
            proof {
                assert(curr_line@ =~= sub_bytes(this_row, above));
                assert(prev_line@ =~= this_row);
            }
        } else {
            prev_line = curr_line.clone();
        }

        data.extend_from_slice(curr_line.as_slice());
        i += line_byte_count;
        y += 1;
    }

    if color_format.alpha_channel().is_some() {
        proof {
            lemma_diff_rows_len(input@, line, band, height as nat);
            assert(height as nat * (width as nat * pbc as nat) == pixels * pbc as nat)
                by (nonlinear_arith)
                requires
                    pixels == width as nat * height as nat,
            ;
        }
        split_alpha(color_format, &data, Ghost(pixels))
    } else {
        data
    }
}

/// No rows are no bytes, whatever the line length.
proof fn lemma_rows_of_nothing(input: Seq<u8>, line: nat, band: nat, rows: nat)
    requires
        input.len() == 0,
        rows == 0 || line == 0,
    ensures
        diff_rows(input, line, band, rows) == Seq::<u8>::empty(),
    decreases rows,
{
    if rows > 0 {
        lemma_rows_of_nothing(input, line, band, (rows - 1) as nat);
        assert((rows - 1) * line == 0) by (nonlinear_arith)
            requires
                line == 0,
        ;
        assert(diff_row(input, line, band, rows - 1) =~= Seq::<u8>::empty());
        assert(diff_rows(input, line, band, rows) =~= Seq::<u8>::empty());
    }
}

/// Move the alpha byte of every pixel behind all other bytes.
fn split_alpha(color_format: ColorFormat, data: &Vec<u8>, Ghost(pixels): Ghost<nat>) -> (out: Vec<
    u8,
>)
    requires
        color_format.has_alpha(),
        data@.len() == pixels * color_format.spec_channels() as nat,
    ensures
        out@ == planar(color_format, pixels, data@),
{
    let pbc: usize = color_format.pbc();
    let colors: usize = pbc - 1;
    let total: usize = data.len();
    let n_pixels: usize = total / pbc;
    let ghost model = planar(color_format, pixels, data@);
    let ghost front = Seq::new(
        pixels * colors as nat,
        |j: int| data@[(j / colors as int) * pbc + j % colors as int],
    );
    let ghost back = Seq::new(pixels, |p: int| data@[p * pbc + colors]);
    proof {
        lemma_place(pixels as int, pbc as int, 0);
        assert(model == front + back);
        assert(0 * colors == 0);
    }
    let mut out: Vec<u8> = Vec::new();
    let mut p: usize = 0;
    while p < n_pixels
        invariant
            p <= n_pixels == pixels,
            pbc == color_format.spec_channels(),
            colors == pbc - 1,
            colors >= 1,
            data@.len() == pixels * pbc,
            total == data@.len(),
            front == Seq::new(
                pixels * colors as nat,
                |j: int| data@[(j / colors as int) * pbc + j % colors as int],
            ),
            out@ == front.subrange(0, p * colors),
        decreases n_pixels - p,
    {
        proof {
            lemma_mul_next(p as int, colors as int);
            lemma_mul_next(p as int, pbc as int);
            lemma_mul_grows(p + 1, pixels as int, colors as int);
            lemma_mul_grows(p + 1, pixels as int, pbc as int);
        }
        let mut c: usize = 0;
        while c < colors
            invariant
                c <= colors,
                p < pixels,
                colors == pbc - 1,
                colors >= 1,
                data@.len() == pixels * pbc,
                total == data@.len(),
                (p + 1) * pbc <= pixels * pbc,
                (p + 1) * colors <= pixels * colors,
                (p + 1) * colors == p * colors + colors,
                (p + 1) * pbc == p * pbc + pbc,
                front == Seq::new(
                    pixels * colors as nat,
                    |j: int| data@[(j / colors as int) * pbc + j % colors as int],
                ),
                out@ == front.subrange(0, p * colors + c),
            decreases colors - c,
        {
            proof {
                lemma_place(p as int, colors as int, c as int);
            }
            out.push(data[p * pbc + c]);
            proof {
                assert(out@ =~= front.subrange(0, p * colors + c + 1));
            }
            c += 1;
        }
        p += 1;
    }
    proof {
        assert(out@ =~= front);
    }
    p = 0;
    while p < n_pixels
        invariant
            p <= n_pixels == pixels,
            colors == pbc - 1,
            colors >= 1,
            data@.len() == pixels * pbc,
            total == data@.len(),
            back == Seq::new(pixels, |p: int| data@[p * pbc + colors]),
            out@ == front + back.subrange(0, p as int),
        decreases n_pixels - p,
    {
        proof {
            lemma_mul_next(p as int, pbc as int);
            lemma_mul_grows(p + 1, pixels as int, pbc as int);
        }
        out.push(data[p * pbc + colors]);
        proof {
            assert(out@ =~= front + back.subrange(0, p + 1));
        }
        p += 1;
    }
    proof {
        assert(out@ =~= front + back);
    }
    out
}

/// One row of stored bytes with the alpha byte of each pixel put back behind
/// the pixel's other bytes: the other bytes start at `rgb_index`, the alpha
/// bytes at `alpha_index`.
fn join_alpha(data: &[u8], rgb_index: usize, alpha_index: usize, width: usize, colors: usize) -> (line:
    Vec<u8>)
    requires
        1 <= colors <= 3,
        rgb_index + width * colors <= data@.len(),
        alpha_index + width <= data@.len(),
        width * (colors + 1) <= usize::MAX,
    ensures
        line@ == Seq::new(
            (width * (colors + 1)) as nat,
            |t: int|
                if t % (colors + 1) == colors as int {
                    data@[alpha_index + t / (colors + 1)]
                } else {
                    data@[rgb_index + (t / (colors + 1)) * colors + t % (colors + 1)]
                },
        ),
{
    let total: usize = data.len();
    let pbc: usize = colors + 1;
    let ghost model = Seq::new(
        (width * (colors + 1)) as nat,
        |t: int|
            if t % (colors + 1) == colors as int {
                data@[alpha_index + t / (colors + 1)]
            } else {
                data@[rgb_index + (t / (colors + 1)) * colors + t % (colors + 1)]
            },
    );
    let mut line: Vec<u8> = Vec::new();
    let mut px: usize = 0;
    proof {
        assert(0 * pbc == 0);
    }
    while px < width
        invariant
            px <= width,
            colors >= 1,
            pbc == colors + 1,
            total == data@.len(),
            rgb_index + width * colors <= data@.len(),
            alpha_index + width <= data@.len(),
            width * (colors + 1) <= usize::MAX,
            model == Seq::new(
                (width * (colors + 1)) as nat,
                |t: int|
                    if t % (colors + 1) == colors as int {
                        data@[alpha_index + t / (colors + 1)]
                    } else {
                        data@[rgb_index + (t / (colors + 1)) * colors + t % (colors + 1)]
                    },
            ),
            line@ == model.subrange(0, px * pbc),
        decreases width - px,
    {
        proof {
            lemma_mul_next(px as int, colors as int);
            lemma_mul_next(px as int, pbc as int);
            lemma_mul_grows(px + 1, width as int, colors as int);
            lemma_mul_grows(px + 1, width as int, pbc as int);
        }
        let mut c: usize = 0;
        while c < colors
            invariant
                c <= colors,
                px < width,
                colors >= 1,
                pbc == colors + 1,
                total == data@.len(),
                rgb_index + width * colors <= data@.len(),
                (px + 1) * colors <= width * colors,
                (px + 1) * colors == px * colors + colors,
                (px + 1) * pbc <= width * pbc,
                (px + 1) * pbc == px * pbc + pbc,
                model == Seq::new(
                    (width * (colors + 1)) as nat,
                    |t: int|
                        if t % (colors + 1) == colors as int {
                            data@[alpha_index + t / (colors + 1)]
                        } else {
                            data@[rgb_index + (t / (colors + 1)) * colors + t % (colors + 1)]
                        },
                ),
                line@ == model.subrange(0, px * pbc + c),
            decreases colors - c,
        {
            proof {
                lemma_place(px as int, pbc as int, c as int);
            }
            line.push(data[rgb_index + px * colors + c]);
            proof {
                assert(line@ =~= model.subrange(0, px * pbc + c + 1));
            }
            c += 1;
        }
        proof {
            lemma_place(px as int, pbc as int, colors as int);
        }
        line.push(data[alpha_index + px]);
        proof {
            assert(line@ =~= model.subrange(0, (px + 1) * pbc));
        }
        px += 1;
    }
    proof {
        assert(line@ =~= model);
    }
    line
}

/// Row `y` of the stored bytes of a format with alpha, once the alpha bytes
/// are back in place, is made of the row's other bytes and its alpha bytes.
proof fn lemma_joined_row(format: ColorFormat, width: nat, height: nat, data: Seq<u8>, y: int)
    requires
        format.has_alpha(),
        0 <= y < height,
        data.len() >= width * height * format.spec_channels() as nat,
    ensures
        ({
            let pbc = format.spec_channels();
            let colors = pbc - 1;
            let pixels = width * height;
            row(interleaved(format, pixels, data), width * pbc as nat, y) == Seq::new(
                (width * pbc) as nat,
                |t: int|
                    if t % pbc == colors {
                        data[pixels * colors + y * width + t / pbc]
                    } else {
                        data[y * width * colors + (t / pbc) * colors + t % pbc]
                    },
            )
        }),
{
    let pbc = format.spec_channels();
    let colors = pbc - 1;
    let pixels = width * height;
    let line = width * pbc as nat;
    let stored = interleaved(format, pixels, data);
    let target = Seq::new(
        (width * pbc) as nat,
        |t: int|
            if t % pbc == colors {
                data[pixels * colors + y * width + t / pbc]
            } else {
                data[y * width * colors + (t / pbc) * colors + t % pbc]
            },
    );
    lemma_mul_next(y, line as int);
    lemma_mul_grows(y + 1, height as int, line as int);
    assert(height * line == pixels * pbc) by (nonlinear_arith)
        requires
            line == width * pbc,
            pixels == width * height,
    ;
    assert(y * line == y * width * pbc) by (nonlinear_arith)
        requires
            line == width * pbc,
    ;
    assert forall|t: int| 0 <= t < line implies row(stored, line, y)[t] == target[t] by {
        let k = y * line + t;
        let q = y * width + t / pbc;
        vstd::arithmetic::div_mod::lemma_fundamental_div_mod(t, pbc);
        assert(k == q * pbc + t % pbc) by (nonlinear_arith)
            requires
                k == y * width * pbc + t,
                q == y * width + t / pbc,
                t == pbc * (t / pbc) + t % pbc,
        ;
        lemma_place(q, pbc, t % pbc);
        assert(q * colors == y * width * colors + (t / pbc) * colors) by (nonlinear_arith)
            requires
                q == y * width + t / pbc,
        ;
    }
    assert(row(stored, line, y) =~= target);
}

/// The inverse transform of the lossless mode. Where the format has alpha,
/// the alpha bytes, which stand behind all other bytes, are put back into
/// their pixels. A row that starts a band is taken as it is; to every other
/// row the rebuilt row above it is added, byte by byte and wrapping.
///
/// `data` holds the stored bytes of `width * height` pixels of the format;
/// what it holds beyond them is not read.
pub fn add_rows(width: u32, height: u32, color_format: ColorFormat, data: &[u8]) -> (out: Vec<u8>)
    requires
        data@.len() >= width as nat * height as nat * color_format.spec_channels() as nat,
    ensures
        out@ == add_rows_model(width as nat, height as nat, color_format, data@),
{
    let pbc: usize = color_format.pbc();
    let mut output_buf: Vec<u8> = Vec::new();
    let ghost pixels: nat = width as nat * height as nat;
    let ghost stored = interleaved(color_format, pixels, data@);
    if height == 0 {
        return output_buf;
    }
    let total: usize = data.len();
    let block_height: u32 = band_height(height);
    let has_alpha: bool = color_format.alpha_channel().is_some();
    let colors: usize = pbc - 1;
    proof {
        assert(pixels * pbc as nat == height as nat * (width as nat * pbc as nat))
            by (nonlinear_arith)
            requires
                pixels == width as nat * height as nat,
        ;
        lemma_mul_grows(1, height as int, width as int * pbc as int);
        assert(1 * (width as int * pbc as int) == width as int * pbc as int);
        lemma_mul_grows(1, pbc as int, pixels as int);
        assert(pixels * 1 == pixels);
        lemma_mul_grows(colors as int, pbc as int, pixels as int);
        assert(pixels * pbc == pixels * colors + pixels) by (nonlinear_arith)
            requires
                pbc == colors + 1,
        ;
    }
    let line_byte_count: usize = width as usize * pbc;
    let pixel_count: usize = width as usize * height as usize;
    let ghost line: nat = line_byte_count as nat;
    let ghost band: nat = block_height as nat;

    let mut prev_line: Vec<u8> = Vec::new();

    let mut rgb_index: usize = 0;
    let mut alpha_index: usize = pixel_count * colors;
    let mut y: u32 = 0;
    proof {
        assert(0 * line == 0);
        assert(0 * width == 0);
        assert(0 * width * colors == 0);
    }
    while y < height
        invariant
            y <= height,
            band > 0,
            block_height == band,
            line_byte_count == line,
            line == width as nat * pbc as nat,
            pbc == color_format.spec_channels(),
            colors == pbc - 1,
            has_alpha == color_format.has_alpha(),
            has_alpha ==> colors >= 1,
            pixels == width as nat * height as nat,
            pixels * pbc == height as nat * line,
            pixels * pbc == pixels * colors + pixels,
            total == data@.len(),
            total >= pixels * pbc,
            stored == interleaved(color_format, pixels, data@),
            stored.len() == pixels * pbc,
            has_alpha ==> rgb_index == y * width * colors,
            !has_alpha ==> rgb_index == y * line,
            alpha_index == pixels * colors + y * width,
            output_buf@ == sum_rows(stored, line, band, y as nat),
            y > 0 ==> prev_line@ == sum_row(stored, line, band, y - 1),
        decreases height - y,
    {
        proof {
            lemma_mul_next(y as int, line as int);
            lemma_mul_grows(y + 1, height as int, line as int);
            lemma_mul_next(y as int, width as int);
            lemma_mul_grows(y + 1, height as int, width as int);
            lemma_mul_grows(y as int * width as int + width as int, pixels as int, colors as int);
            assert((y * width + width) * colors == y * width * colors + width * colors)
                by (nonlinear_arith);
            assert(height as int * width as int == pixels) by (nonlinear_arith)
                requires
                    pixels == width as nat * height as nat,
            ;
            assert(width * colors + width == line) by (nonlinear_arith)
                requires
                    line == width as nat * pbc as nat,
                    pbc == colors + 1,
            ;
            lemma_sum_row_len(stored, line, band, y as int);
            if y > 0 {
                lemma_mul_next(y - 1, line as int);
                lemma_sum_row_len(stored, line, band, y - 1);
            }
        }
        let mut curr_line: Vec<u8> = if has_alpha {
            proof {
                lemma_joined_row(color_format, width as nat, height as nat, data@, y as int);
            }
            // Interleave the offset alpha into the RGB bytes
            join_alpha(data, rgb_index, alpha_index, width as usize, colors)
        } else {
            slice_to_vec(slice_subrange(data, rgb_index, rgb_index + line_byte_count))
        };
        let ghost this_row = row(stored, line, y as int);
        proof {
            assert(curr_line@ =~= this_row);
        }

        if y % block_height != 0 {
            let ghost above = sum_row(stored, line, band, y - 1);
            let mut x: usize = 0;
            while x < line_byte_count
                invariant
                    x <= line_byte_count,
                    line_byte_count == line,
                    curr_line@.len() == line,
                    prev_line@ == above,
                    this_row.len() == line,
                    above.len() == line,
                    forall|j: int| 0 <= j < x ==> curr_line@[j] == add_byte(this_row[j], above[j]),
                    forall|j: int| x <= j < line ==> curr_line@[j] == this_row[j],
                decreases line_byte_count - x,
            {
                let sum: u8 = curr_line[x].wrapping_add(prev_line[x]);
                curr_line[x] = sum;
                x += 1;
            }
            proof {
                assert(curr_line@ =~= add_bytes(this_row, above));
            }
        }
        // Write the decoded RGBA data to the final buffer

        output_buf.extend_from_slice(curr_line.as_slice());

        prev_line = curr_line;
        rgb_index += if has_alpha {
            width as usize * colors
        } else {
            width as usize * pbc
        };
        alpha_index += width as usize;
        y += 1;
    }

    output_buf
}

/// Putting the alpha bytes back undoes moving them away.
pub proof fn lemma_interleaved_planar(format: ColorFormat, pixels: nat, data: Seq<u8>)
    requires
        data.len() == pixels * format.spec_channels() as nat,
    ensures
        interleaved(format, pixels, planar(format, pixels, data)) == data,
{
    let pbc = format.spec_channels();
    let colors = pbc - 1;
    let moved = planar(format, pixels, data);
    if format.has_alpha() {
        assert(pixels * pbc == pixels * colors + pixels) by (nonlinear_arith)
            requires
                pbc == colors + 1,
        ;
        assert forall|k: int| 0 <= k < pixels * pbc implies interleaved(format, pixels, moved)[k]
            == data[k] by {
            let p = k / pbc;
            let c = k % pbc;
            vstd::arithmetic::div_mod::lemma_fundamental_div_mod(k, pbc);
            assert(0 <= p < pixels) by (nonlinear_arith)
                requires
                    k == pbc * p + c,
                    0 <= c < pbc,
                    0 <= k < pixels * pbc,
            ;
            assert(p * pbc == pbc * p) by (nonlinear_arith);
            lemma_mul_next(p, colors);
            lemma_mul_grows(p + 1, pixels as int, colors);
            if c != colors {
                lemma_place(p, colors, c);
            }
        }
        assert(interleaved(format, pixels, moved) =~= data);
    } else {
        assert(interleaved(format, pixels, moved) =~= data);
    }
}

/// Row `y` of the stored rows is the stored form of row `y`.
pub proof fn lemma_row_of_diff_rows(input: Seq<u8>, line: nat, band: nat, rows: nat, y: int)
    requires
        0 <= y < rows,
        rows * line <= input.len(),
    ensures
        row(diff_rows(input, line, band, rows), line, y) == diff_row(input, line, band, y),
    decreases rows,
{
    let before = (rows - 1) as nat;
    lemma_mul_next(before as int, line as int);
    lemma_diff_rows_len(input, line, band, before);
    lemma_diff_rows_len(input, line, band, rows);
    let all = diff_rows(input, line, band, rows);
    let front = diff_rows(input, line, band, before);
    if y == rows - 1 {
        assert(row(all, line, y) =~= diff_row(input, line, band, y));
    } else {
        lemma_row_of_diff_rows(input, line, band, before, y);
        lemma_mul_next(y, line as int);
        lemma_mul_grows(y + 1, before as int, line as int);
        assert(row(all, line, y) =~= row(front, line, y));
    }
}

/// Rebuilding row `y` from the stored rows gives row `y` back.
pub proof fn lemma_sum_of_diff(input: Seq<u8>, line: nat, band: nat, rows: nat, y: int)
    requires
        0 <= y < rows,
        band > 0,
        rows * line <= input.len(),
    ensures
        sum_row(diff_rows(input, line, band, rows), line, band, y) == row(input, line, y),
    decreases y,
{
    let stored = diff_rows(input, line, band, rows);
    lemma_row_of_diff_rows(input, line, band, rows, y);
    lemma_mul_next(y, line as int);
    lemma_mul_grows(y + 1, rows as int, line as int);
    if y > 0 && y % (band as int) != 0 {
        lemma_sum_of_diff(input, line, band, rows, y - 1);
        lemma_mul_next(y - 1, line as int);
        assert(add_bytes(row(stored, line, y), row(input, line, y - 1)) =~= row(input, line, y));
    } else {
        if y == 0 {
            vstd::arithmetic::div_mod::lemma_small_mod(0, band);
        }
        assert(y % (band as int) == 0);
        assert(sum_row(stored, line, band, y) == row(stored, line, y));
    }
}

/// Rebuilding the first `upto` rows from the stored rows gives them back.
pub proof fn lemma_sum_rows_of_diff(input: Seq<u8>, line: nat, band: nat, rows: nat, upto: nat)
    requires
        upto <= rows,
        band > 0 || rows == 0,
        rows * line <= input.len(),
    ensures
        upto * line <= input.len(),
        sum_rows(diff_rows(input, line, band, rows), line, band, upto) == input.subrange(
            0,
            (upto * line) as int,
        ),
    decreases upto,
{
    lemma_mul_grows(upto as int, rows as int, line as int);
    if upto == 0 {
        assert(0 * line == 0);
        assert(input.subrange(0, 0) =~= Seq::<u8>::empty());
    } else {
        let before = (upto - 1) as nat;
        lemma_sum_rows_of_diff(input, line, band, rows, before);
        lemma_sum_of_diff(input, line, band, rows, upto - 1);
        lemma_mul_next(before as int, line as int);
        assert(input.subrange(0, (before * line) as int) + row(input, line, upto - 1)
            =~= input.subrange(0, (upto * line) as int));
    }
}

/// Row transform, round trip: the inverse transform gives back every bitmap
/// that the forward transform was given.
pub proof fn lemma_rows_roundtrip(width: nat, height: nat, format: ColorFormat, input: Seq<u8>)
    requires
        input.len() == width * height * format.spec_channels() as nat,
    ensures
        add_rows_model(width, height, format, sub_rows_model(width, height, format, input))
            == input,
{
    let pbc = format.spec_channels() as nat;
    let line = width * pbc;
    let band = block_height(height);
    let pixels = width * height;
    let stored = diff_rows(input, line, band, height);
    assert(height * line == pixels * pbc) by (nonlinear_arith)
        requires
            line == width * pbc,
            pixels == width * height,
    ;
    lemma_diff_rows_len(input, line, band, height);
    lemma_interleaved_planar(format, pixels, stored);
    lemma_sum_rows_of_diff(input, line, band, height, height);
    assert(input.subrange(0, (height * line) as int) =~= input);
}

} // verus!
