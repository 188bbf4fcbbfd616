//! Writing captured pixels as a PPM image.
use crate::convert::{PixelBuffer, Pixfmt};
use crate::text::{decimal, decimal_text};
use vstd::prelude::*;

verus! {

/// The header of an image of the form `P6`, with values up to 255.
pub open spec fn header_text(width: nat, height: nat) -> Seq<char> {
    "P6\n"@ + decimal(width) + " "@ + decimal(height) + "\n255\n"@
}

/// The header of an image.
pub fn ppm_header(width: usize, height: usize) -> (r: String)
    ensures
        r@ == header_text(width as nat, height as nat),
{
    let mut r = "P6\n".to_owned();
    r.append(decimal_text(width as u64).as_str());
    r.append(" ");
    r.append(decimal_text(height as u64).as_str());
    r.append("\n255\n");
    r
}

/// Red, green and blue of the pixel at `at`, which takes four bytes.
pub open spec fn rgb_at(data: Seq<u8>, at: int, pixfmt: Pixfmt) -> Seq<u8> {
    if pixfmt is BGRA {
        seq![data[at + 2], data[at + 1], data[at]]
    } else {
        seq![data[at], data[at + 1], data[at + 2]]
    }
}

/// Red, green and blue of each of the `width` pixels that begin at `at`.
pub open spec fn rgb_row(data: Seq<u8>, at: int, width: int, pixfmt: Pixfmt) -> Seq<u8>
    decreases width,
{
    if width <= 0 {
        Seq::empty()
    } else {
        rgb_row(data, at, width - 1, pixfmt) + rgb_at(data, at + 4 * (width - 1), pixfmt)
    }
}

/// Red, green and blue of each pixel of the first `rows` rows.
pub open spec fn rgb_rows(
    data: Seq<u8>,
    stride: int,
    width: int,
    rows: int,
    pixfmt: Pixfmt,
) -> Seq<u8>
    decreases rows,
{
    if rows <= 0 {
        Seq::empty()
    } else {
        rgb_rows(data, stride, width, rows - 1, pixfmt) + rgb_row(
            data,
            (rows - 1) * stride,
            width,
            pixfmt,
        )
    }
}

/// How many whole rows of a buffer are shown: no more than it is high.
pub open spec fn rows_shown(len: int, stride: int, height: int) -> int {
    if len / stride < height {
        len / stride
    } else {
        height
    }
}

/// The pixels of a buffer in red, green and blue, one byte to each, without the padding of its
/// rows. Where a row is shown, it is long enough for its pixels.
pub fn rgb_pixels(buffer: &PixelBuffer) -> (r: Vec<u8>)
    requires
        buffer.stride@.len() > 0,
        buffer.stride@[0] > 0,
        rows_shown(
            buffer.data@.len() as int,
            buffer.stride@[0] as int,
            buffer.height as int,
        ) > 0 ==> 4 * buffer.width <= buffer.stride@[0],
    ensures
        r@ == rgb_rows(
            buffer.data@,
            buffer.stride@[0] as int,
            buffer.width as int,
            rows_shown(buffer.data@.len() as int, buffer.stride@[0] as int, buffer.height as int),
            buffer.pixfmt,
        ),
{
    let stride: usize = buffer.stride[0];
    let len: usize = buffer.data.len();
    let width: usize = buffer.width;
    let whole: usize = len / stride;
    let rows: usize = if whole < buffer.height {
        whole
    } else {
        buffer.height
    };
    let bgra: bool = match buffer.pixfmt {
        Pixfmt::BGRA => true,
        _ => false,
    };
    assert(whole * stride <= len) by (nonlinear_arith)
        requires
            whole == len / stride,
            0 < stride,
    ;
    let ghost data = buffer.data@;
    let mut r: Vec<u8> = Vec::new();
    let mut y: usize = 0;
    while y < rows
        invariant
            y <= rows <= whole,
            whole * stride <= len,
            data == buffer.data@,
            len == data.len(),
            rows > 0 ==> 4 * width <= stride,
            bgra == (buffer.pixfmt is BGRA),
            r@ == rgb_rows(data, stride as int, width as int, y as int, buffer.pixfmt),
        decreases rows - y,
    {
        assert(0 <= y * stride && y * stride + stride <= whole * stride) by (nonlinear_arith)
            requires
                0 <= y < whole,
                0 <= stride,
        ;
        let start: usize = y * stride;
        let ghost before = r@;
        let mut x: usize = 0;
        assert(before + Seq::<u8>::empty() =~= before);
        while x < width
            invariant
                x <= width,
                4 * width <= stride,
                start + stride <= len,
                data == buffer.data@,
                len == data.len(),
                bgra == (buffer.pixfmt is BGRA),
                r@ == before + rgb_row(data, start as int, x as int, buffer.pixfmt),
            decreases width - x,
        {
            let at: usize = start + 4 * x;
            let a = buffer.data[at];
            let b = buffer.data[at + 1];
            let c = buffer.data[at + 2];
            let ghost so_far = r@;
            if bgra {
                r.push(c);
                r.push(b);
                r.push(a);
            } else {
                r.push(a);
                r.push(b);
                r.push(c);
            }
            assert(r@ =~= so_far + rgb_at(data, at as int, buffer.pixfmt));
            assert(r@ =~= before + rgb_row(data, start as int, x + 1, buffer.pixfmt));
            x = x + 1;
        }
        y = y + 1;
    }
    r
}

proof fn lemma_row_len(data: Seq<u8>, at: int, width: int, pixfmt: Pixfmt)
    requires
        0 <= width,
    ensures
        rgb_row(data, at, width, pixfmt).len() == 3 * width,
    decreases width,
{
    if width > 0 {
        lemma_row_len(data, at, width - 1, pixfmt);
    }
}

/// An image holds three bytes for each pixel that is shown.
pub proof fn law_image_size(data: Seq<u8>, stride: int, width: int, rows: int, pixfmt: Pixfmt)
    requires
        0 <= width,
        0 <= rows,
    ensures
        rgb_rows(data, stride, width, rows, pixfmt).len() == 3 * (width * rows),
    decreases rows,
{
    if rows > 0 {
        law_image_size(data, stride, width, rows - 1, pixfmt);
        lemma_row_len(data, (rows - 1) * stride, width, pixfmt);
        assert(width * rows == width * (rows - 1) + width) by (nonlinear_arith);
    } else {
        assert(width * rows == 0) by (nonlinear_arith)
            requires
                rows == 0,
        ;
    }
}

/// The bytes of a row of an image.
proof fn lemma_row_byte(data: Seq<u8>, at: int, width: int, pixfmt: Pixfmt, x: int)
    requires
        0 <= x < width,
    ensures
        rgb_row(data, at, width, pixfmt).len() == 3 * width,
        rgb_row(data, at, width, pixfmt)[3 * x] == rgb_at(data, at + 4 * x, pixfmt)[0],
        rgb_row(data, at, width, pixfmt)[3 * x + 1] == rgb_at(data, at + 4 * x, pixfmt)[1],
        rgb_row(data, at, width, pixfmt)[3 * x + 2] == rgb_at(data, at + 4 * x, pixfmt)[2],
    decreases width,
{
    lemma_row_len(data, at, width, pixfmt);
    lemma_row_len(data, at, width - 1, pixfmt);
    if x < width - 1 {
        lemma_row_byte(data, at, width - 1, pixfmt, x);
    }
}

/// The pixel in column `x` of row `r` of an image is that of the buffer: its red, green and blue
/// follow one another, wherever the format has them.
pub proof fn law_image_holds_the_colors(
    data: Seq<u8>,
    stride: int,
    width: int,
    rows: int,
    pixfmt: Pixfmt,
    r: int,
    x: int,
)
    requires
        0 <= x < width,
        0 <= r < rows,
    ensures
        ({
            let image = rgb_rows(data, stride, width, rows, pixfmt);
            let to = 3 * (r * width + x);
            let at = r * stride + 4 * x;
            &&& 0 <= to && to + 2 < image.len()
            &&& image[to + 1] == data[at + 1]
            &&& pixfmt is BGRA ==> image[to] == data[at + 2] && image[to + 2] == data[at]
            &&& pixfmt is RGBA ==> image[to] == data[at] && image[to + 2] == data[at + 2]
        }),
    decreases rows,
{
    law_image_size(data, stride, width, rows, pixfmt);
    law_image_size(data, stride, width, rows - 1, pixfmt);
    assert(0 <= r * width && r * width + width <= width * rows) by (nonlinear_arith)
        requires
            0 <= r < rows,
            0 < width,
    ;
    if r < rows - 1 {
        assert(r * width + width <= width * (rows - 1)) by (nonlinear_arith)
            requires
                0 <= r < rows - 1,
                0 < width,
        ;
        law_image_holds_the_colors(data, stride, width, rows - 1, pixfmt, r, x);
    } else {
        assert(r * width == width * (rows - 1)) by (nonlinear_arith)
            requires
                r == rows - 1,
        ;
        lemma_row_byte(data, r * stride, width, pixfmt, x);
    }
}

/// As many rows are shown as there are, and as the buffer holds, and not one less.
pub proof fn law_whole_rows_are_shown(len: int, stride: int, height: int)
    requires
        0 <= len,
        0 < stride,
        0 <= height,
    ensures
        0 <= rows_shown(len, stride, height) <= height,
        rows_shown(len, stride, height) * stride <= len,
        rows_shown(len, stride, height) == height || len < (rows_shown(len, stride, height) + 1)
            * stride,
{
    let n = len / stride;
    assert(0 <= n && n * stride <= len < (n + 1) * stride) by (nonlinear_arith)
        requires
            n == len / stride,
            0 <= len,
            0 < stride,
    ;
    if n >= height {
        assert(height * stride <= n * stride) by (nonlinear_arith)
            requires
                height <= n,
                0 < stride,
        ;
    }
}

} // verus!
