//! What exchanging red and blue does to pixels, and what it leaves as it is.
//!
//! The kernel `ABGRToARGB` exchanges the first and the third byte of each pixel of four bytes, and
//! the kernel `ARGBToI444` derives each row of its planes from one row of the frame. They are
//! described here by that; the calls are those that the conversions make.
use crate::convert::{
    goes_through_mid, i444_call, mid_len, resized, swap_call, swaps_red_blue, yuv_len, yuv_prepare,
    yuv_refusal, yuv_sizes_fit, EncodeYuvFormat, PackedCall, PixelBuffer, RgbToI444,
};
use crate::slicing::{
    col_at, in_area, luma_value, or_else, overwrite, plane_write, row_at, row_bytes,
};
use vstd::arithmetic::div_mod::{lemma_fundamental_div_mod, lemma_fundamental_div_mod_converse};
use vstd::prelude::*;

verus! {

/// The byte of a row that the byte `c` is exchanged with: blue with red, and the others with
/// themselves.
pub open spec fn partner(c: int) -> int {
    if c % 4 == 0 {
        c + 2
    } else if c % 4 == 2 {
        c - 2
    } else {
        c
    }
}

/// Byte `c` of row `r`.
pub open spec fn byte_at(data: Seq<u8>, stride: int, r: int, c: int) -> u8 {
    data[r * stride + c]
}

impl PackedCall {
    /// What exchanging red and blue writes into the destination buffer.
    pub open spec fn exchange_write(self, src: Seq<u8>) -> spec_fn(int) -> Option<u8> {
        plane_write(
            self.dst,
            self.height as int,
            4 * self.width,
            |r: int, c: int| src[self.src.offset + r * self.src.stride + partner(c)],
        )
    }
}

/// A kernel from packed pixels to I444, at one width: how many bytes of a row it writes to each
/// plane, and what it computes of a row of pixels.
pub struct RgbToI444Kernel {
    pub y_bytes: int,
    pub u_bytes: int,
    pub v_bytes: int,
    pub luma: spec_fn(Seq<u8>, int) -> u8,
    pub chroma_u: spec_fn(Seq<u8>, int) -> u8,
    pub chroma_v: spec_fn(Seq<u8>, int) -> u8,
}

impl RgbToI444 {
    /// What this call writes into the destination buffer.
    pub open spec fn write(self, k: RgbToI444Kernel, src: Seq<u8>) -> spec_fn(int) -> Option<u8> {
        let (h, n) = (self.height as int, 4 * self.width);
        or_else(
            plane_write(self.dst_y, h, k.y_bytes, luma_value(k.luma, src, self.src, n)),
            or_else(
                plane_write(self.dst_u, h, k.u_bytes, luma_value(k.chroma_u, src, self.src, n)),
                plane_write(self.dst_v, h, k.v_bytes, luma_value(k.chroma_v, src, self.src, n)),
            ),
        )
    }
}

/// What the kernel for I444 reads, for a frame of RGBA or BGRA pixels: the frame, or the
/// intermediate buffer, in which red and blue have been exchanged.
pub open spec fn i444_input(captured: PixelBuffer, f: EncodeYuvFormat, mid: Seq<u8>) -> Seq<u8> {
    if goes_through_mid(captured.pixfmt, f.pixfmt) {
        overwrite(
            resized(mid, mid_len(captured)),
            yuv_prepare(captured, f.pixfmt)->0.exchange_write(captured.data@),
        )
    } else {
        captured.data@
    }
}

/// The destination after a frame of RGBA or BGRA pixels has been converted to I444.
pub open spec fn i444_result(
    k: RgbToI444Kernel,
    captured: PixelBuffer,
    f: EncodeYuvFormat,
    dst: Seq<u8>,
    mid: Seq<u8>,
) -> Seq<u8> {
    overwrite(
        resized(dst, yuv_len(f)),
        i444_call(captured, f).write(k, i444_input(captured, f, mid)),
    )
}

/// Whether the pixels of `b` are those of `a` with red and blue exchanged.
pub open spec fn is_exchange(a: PixelBuffer, b: PixelBuffer) -> bool {
    let stride = a.stride@[0] as int;
    forall|r: int, c: int|
        0 <= r < a.height && 0 <= c < 4 * a.width ==> #[trigger] byte_at(b.data@, stride, r, c)
            == byte_at(a.data@, stride, r, partner(c))
}

/// Row and column of an address in a plane that starts with its buffer.
pub proof fn lemma_place(stride: int, r: int, c: int)
    requires
        0 <= r,
        0 <= c < stride,
    ensures
        (r * stride + c) / stride == r,
        (r * stride + c) % stride == c,
        0 <= r * stride,
{
    assert(0 <= r * stride) by (nonlinear_arith)
        requires
            0 <= r,
            0 < stride,
    ;
    lemma_fundamental_div_mod_converse(r * stride + c, stride, r, c);
}

/// A row lies in a buffer that holds all rows.
pub proof fn lemma_row_fits(stride: int, rows: int, r: int)
    requires
        0 <= r < rows,
        0 <= stride,
    ensures
        r * stride + stride <= stride * rows,
{
    assert(r * stride + stride <= stride * rows) by (nonlinear_arith)
        requires
            r + 1 <= rows,
            0 <= stride,
    ;
}

/// A byte that the exchange has written.
proof fn lemma_exchanged_byte(call: PackedCall, src: Seq<u8>, dst: Seq<u8>, r: int, c: int)
    requires
        call.src.offset == 0,
        call.dst.offset == 0,
        call.src.stride == call.dst.stride,
        0 <= r < call.height,
        0 <= c < 4 * call.width <= call.dst.stride,
        call.dst.stride * call.height <= dst.len(),
    ensures
        r * call.dst.stride + c < dst.len(),
        byte_at(overwrite(dst, call.exchange_write(src)), call.dst.stride as int, r, c) == byte_at(
            src,
            call.dst.stride as int,
            r,
            partner(c),
        ),
{
    let stride = call.dst.stride as int;
    lemma_place(stride, r, c);
    lemma_row_fits(stride, call.height as int, r);
    let a = r * stride + c;
    assert(row_at(call.dst, a) == r && col_at(call.dst, a) == c);
    assert(in_area(call.dst, call.height as int, 4 * call.width, a));
}

/// A frame of RGBA pixels and one of BGRA pixels, whose pixels are the same but for the exchange of
/// red and blue, give the same I444 planes.
pub proof fn law_same_i444_from_rgba_and_bgra(
    k: RgbToI444Kernel,
    a: PixelBuffer,
    b: PixelBuffer,
    f: EncodeYuvFormat,
    dst: Seq<u8>,
    mid_a: Seq<u8>,
    mid_b: Seq<u8>,
)
    requires
        a.pixfmt is RGBA,
        b.pixfmt is BGRA,
        f.pixfmt is I444,
        a.width == b.width,
        a.height == b.height,
        a.stride@ == b.stride@,
        yuv_refusal(a, f) is None,
        yuv_refusal(b, f) is None,
        yuv_sizes_fit(a, f),
        yuv_sizes_fit(b, f),
        is_exchange(a, b),
    ensures
        i444_result(k, a, f, dst, mid_a) == i444_result(k, b, f, dst, mid_b),
{
    let call = i444_call(a, f);
    let prepare = yuv_prepare(a, f.pixfmt)->0;
    let stride = a.stride@[0] as int;
    let n = 4 * call.width;
    let start = resized(mid_a, mid_len(a));
    let (x, y) = (i444_input(a, f, mid_a), i444_input(b, f, mid_b));
    assert(call == i444_call(b, f));
    assert forall|r: int| 0 <= r < call.height implies #[trigger] row_bytes(x, call.src, r, n)
        == row_bytes(y, call.src, r, n) by {
        lemma_row_fits(stride, call.height as int, r);
        assert(0 <= r * stride) by (nonlinear_arith)
            requires
                0 <= r,
                0 <= stride,
        ;
        let (rx, ry) = (row_bytes(x, call.src, r, n), row_bytes(y, call.src, r, n));
        assert forall|c: int| 0 <= c < n implies rx[c] == ry[c] by {
            lemma_exchanged_byte(prepare, a.data@, start, r, c);
            assert(byte_at(b.data@, stride, r, c) == byte_at(a.data@, stride, r, partner(c)));
            assert(rx[c] == byte_at(x, stride, r, c) && ry[c] == byte_at(y, stride, r, c));
        }
        assert(rx =~= ry);
    }
    let (ra, rb) = (i444_result(k, a, f, dst, mid_a), i444_result(k, b, f, dst, mid_b));
    assert forall|p: int| 0 <= p < ra.len() implies ra[p] == rb[p] by {
        lemma_same_plane(k.luma, x, y, call, call.dst_y, k.y_bytes, p);
        lemma_same_plane(k.chroma_u, x, y, call, call.dst_u, k.u_bytes, p);
        lemma_same_plane(k.chroma_v, x, y, call, call.dst_v, k.v_bytes, p);
    }
    assert(ra =~= rb);
}

/// A plane is derived from the rows of the frame alone.
proof fn lemma_same_plane(
    luma: spec_fn(Seq<u8>, int) -> u8,
    x: Seq<u8>,
    y: Seq<u8>,
    call: RgbToI444,
    dst: crate::planes::Plane,
    bytes: int,
    p: int,
)
    requires
        forall|r: int|
            0 <= r < call.height ==> #[trigger] row_bytes(x, call.src, r, 4 * call.width)
                == row_bytes(y, call.src, r, 4 * call.width),
    ensures
        plane_write(
            dst,
            call.height as int,
            bytes,
            luma_value(luma, x, call.src, 4 * call.width),
        )(p) == plane_write(
            dst,
            call.height as int,
            bytes,
            luma_value(luma, y, call.src, 4 * call.width),
        )(p),
{
    if in_area(dst, call.height as int, bytes, p) {
        vstd::arithmetic::div_mod::lemma_div_pos_is_pos(p - dst.offset, dst.stride as int);
        let r = row_at(dst, p);
        assert(row_bytes(x, call.src, r, 4 * call.width) == row_bytes(
            y,
            call.src,
            r,
            4 * call.width,
        ));
    }
}

/// The destination after a frame has been converted to the other of RGBA and BGRA.
pub open spec fn swap_result(captured: PixelBuffer, dst: Seq<u8>) -> Seq<u8> {
    overwrite(
        resized(dst, captured.data@.len() as int),
        swap_call(captured).exchange_write(captured.data@),
    )
}

/// Converting a frame without padding to the other of RGBA and BGRA and back gives its pixels back.
pub proof fn law_swap_twice(a: PixelBuffer, b: PixelBuffer, first: Seq<u8>, second: Seq<u8>)
    requires
        swaps_red_blue(a.pixfmt, b.pixfmt),
        a.stride@.len() >= 1,
        a.stride@[0] == 4 * a.width,
        a.data@.len() == a.stride@[0] * a.height,
        a.stride@[0] <= i32::MAX,
        a.height <= i32::MAX,
        b.width == a.width,
        b.height == a.height,
        b.stride@ == a.stride@,
        b.data@ == swap_result(a, first),
    ensures
        swaps_red_blue(b.pixfmt, a.pixfmt),
        swap_result(b, second) == a.data@,
{
    let stride = a.stride@[0] as int;
    let h = a.height as int;
    let len = a.data@.len() as int;
    let call = swap_call(a);
    assert(call == swap_call(b));
    let back = swap_result(b, second);
    assert forall|p: int| 0 <= p < len implies back[p] == a.data@[p] by {
        let (r, c) = (p / stride, p % stride);
        assert(stride > 0) by (nonlinear_arith)
            requires
                0 <= p < stride * h,
                0 <= h,
                0 <= stride,
        ;
        lemma_fundamental_div_mod(p, stride);
        assert(p == r * stride + c && 0 <= r < h) by (nonlinear_arith)
            requires
                p == stride * r + c,
                r == p / stride,
                0 <= c < stride,
                0 <= p < stride * h,
        ;
        assert(0 <= partner(c) < stride && partner(partner(c)) == c);
        lemma_exchanged_byte(call, b.data@, resized(second, len), r, c);
        lemma_exchanged_byte(call, a.data@, resized(first, len), r, partner(c));
        assert(byte_at(back, stride, r, c) == byte_at(a.data@, stride, r, c));
    }
    assert(back =~= a.data@);
}

} // verus!
