//! What the planes of a converted frame hold: the colors of its pixels.
//!
//! A kernel is described by the format of the pixels that it reads, as its name gives it, and by
//! what it computes of their colors. The names of libyuv's kernels go by the order of the bytes in a
//! little-endian word, so that `ARGB` is what is BGRA in memory.
use crate::convert::{
    goes_through_mid, i420_call, i444_call, lemma_planes_reach, mid_len, nv12_call, swap_call,
    swaps_red_blue, yuv_checkable, yuv_input, yuv_prepare, yuv_refusal, yuv_sizes_fit,
    EncodeYuvFormat, Kernel, PackedCall, PixelBuffer, Pixfmt, YuvCalls, YuvConversion,
};
use crate::exchange::{lemma_place, lemma_row_fits, partner, swap_result, RgbToI444Kernel};
use crate::planes::{half_up, Plane};
use crate::slicing::{
    chroma_value, col_at, in_area, law_slices_match_single, luma_value, or_else, overwrite,
    overwrite_all, plane_write, row_at, row_bytes, run, RgbToI420Kernel, RgbToNv12Kernel, RowKernel,
};
use vstd::prelude::*;

verus! {

/// The color of a pixel.
pub struct Color {
    pub red: u8,
    pub green: u8,
    pub blue: u8,
}

/// The bytes that a pixel takes.
pub open spec fn pixel_len(pixfmt: Pixfmt) -> int {
    if pixfmt is RGB565LE {
        2
    } else {
        4
    }
}

/// The color of the pixel at an address; `wide` gives that of the two bytes of an RGB565 pixel.
pub open spec fn color_at(
    pixfmt: Pixfmt,
    wide: spec_fn(u8, u8) -> Color,
    data: Seq<u8>,
    at: int,
) -> Color {
    match pixfmt {
        Pixfmt::BGRA => Color { blue: data[at], green: data[at + 1], red: data[at + 2] },
        Pixfmt::RGBA => Color { red: data[at], green: data[at + 1], blue: data[at + 2] },
        _ => wide(data[at], data[at + 1]),
    }
}

/// The colors of a row of pixels.
pub open spec fn colors_of(
    pixfmt: Pixfmt,
    wide: spec_fn(u8, u8) -> Color,
    row: Seq<u8>,
    width: int,
) -> Seq<Color> {
    Seq::new(width as nat, |x: int| color_at(pixfmt, wide, row, pixel_len(pixfmt) * x))
}

/// The colors of row `r` of a frame.
pub open spec fn frame_row(
    captured: PixelBuffer,
    wide: spec_fn(u8, u8) -> Color,
    r: int,
) -> Seq<Color> {
    Seq::new(
        captured.width as nat,
        |x: int|
            color_at(
                captured.pixfmt,
                wide,
                captured.data@,
                r * captured.stride@[0] + pixel_len(captured.pixfmt) * x,
            ),
    )
}

impl Kernel {
    /// The format that a kernel reads.
    pub open spec fn reads(self) -> Pixfmt {
        match self {
            Kernel::ARGBToI420 | Kernel::ARGBToNV12 | Kernel::ARGBToI444 => Pixfmt::BGRA,
            Kernel::ABGRToI420 | Kernel::ABGRToNV12 | Kernel::ABGRToARGB => Pixfmt::RGBA,
            Kernel::RGB565ToI420 | Kernel::RGB565ToARGB => Pixfmt::RGB565LE,
        }
    }

    /// The format that a kernel writes.
    pub open spec fn writes(self) -> Pixfmt {
        match self {
            Kernel::ARGBToI420 | Kernel::ABGRToI420 | Kernel::RGB565ToI420 => Pixfmt::I420,
            Kernel::ARGBToNV12 | Kernel::ABGRToNV12 => Pixfmt::NV12,
            Kernel::ARGBToI444 => Pixfmt::I444,
            Kernel::ABGRToARGB | Kernel::RGB565ToARGB => Pixfmt::BGRA,
        }
    }
}

/// What is computed of the colors of a frame, at one width: how many bytes of a row each plane has,
/// and what they are. Chroma that two rows share is computed of both of them. `wide` gives the color
/// of an RGB565 pixel, and `alpha` what a kernel that writes packed pixels puts beside the colors.
pub struct ColorKernel {
    pub y_bytes: int,
    pub u_bytes: int,
    pub v_bytes: int,
    pub luma: spec_fn(Seq<Color>, int) -> u8,
    pub shared_u: spec_fn(Seq<Color>, Seq<Color>, int) -> u8,
    pub shared_v: spec_fn(Seq<Color>, Seq<Color>, int) -> u8,
    pub own_u: spec_fn(Seq<Color>, int) -> u8,
    pub own_v: spec_fn(Seq<Color>, int) -> u8,
    pub wide: spec_fn(u8, u8) -> Color,
    pub alpha: spec_fn(int, int) -> u8,
}

impl ColorKernel {
    /// A kernel to NV12; of its interleaved chroma, `shared_u` gives the bytes.
    pub open spec fn nv12(self, kernel: Kernel, width: int) -> RgbToNv12Kernel {
        let (p, wide) = (kernel.reads(), self.wide);
        RgbToNv12Kernel {
            src_bytes: pixel_len(p) * width,
            y_bytes: self.y_bytes,
            uv_bytes: self.u_bytes,
            luma: |row: Seq<u8>, c: int| (self.luma)(colors_of(p, wide, row, width), c),
            chroma: |a: Seq<u8>, b: Seq<u8>, c: int|
                (self.shared_u)(colors_of(p, wide, a, width), colors_of(p, wide, b, width), c),
        }
    }

    /// A kernel to I420.
    pub open spec fn i420(self, kernel: Kernel, width: int) -> RgbToI420Kernel {
        let (p, wide) = (kernel.reads(), self.wide);
        RgbToI420Kernel {
            src_bytes: pixel_len(p) * width,
            y_bytes: self.y_bytes,
            u_bytes: self.u_bytes,
            v_bytes: self.v_bytes,
            luma: |row: Seq<u8>, c: int| (self.luma)(colors_of(p, wide, row, width), c),
            chroma_u: |a: Seq<u8>, b: Seq<u8>, c: int|
                (self.shared_u)(colors_of(p, wide, a, width), colors_of(p, wide, b, width), c),
            chroma_v: |a: Seq<u8>, b: Seq<u8>, c: int|
                (self.shared_v)(colors_of(p, wide, a, width), colors_of(p, wide, b, width), c),
        }
    }

    /// A kernel to I444.
    pub open spec fn i444(self, kernel: Kernel, width: int) -> RgbToI444Kernel {
        let (p, wide) = (kernel.reads(), self.wide);
        RgbToI444Kernel {
            y_bytes: self.y_bytes,
            u_bytes: self.u_bytes,
            v_bytes: self.v_bytes,
            luma: |row: Seq<u8>, c: int| (self.luma)(colors_of(p, wide, row, width), c),
            chroma_u: |row: Seq<u8>, c: int| (self.own_u)(colors_of(p, wide, row, width), c),
            chroma_v: |row: Seq<u8>, c: int| (self.own_v)(colors_of(p, wide, row, width), c),
        }
    }
}

/// What a kernel that writes BGRA pixels writes: the colors that it reads.
pub open spec fn packed_write(k: ColorKernel, call: PackedCall, src: Seq<u8>) -> spec_fn(
    int,
) -> Option<u8> {
    plane_write(
        call.dst,
        call.height as int,
        4 * call.width,
        |r: int, c: int|
            {
                let p = call.kernel.reads();
                let at = call.src.offset + r * call.src.stride + pixel_len(p) * (c / 4);
                let color = color_at(p, k.wide, src, at);
                if c % 4 == 0 {
                    color.blue
                } else if c % 4 == 1 {
                    color.green
                } else if c % 4 == 2 {
                    color.red
                } else {
                    (k.alpha)(r, c)
                }
            },
    )
}

/// What the main calls of a conversion read: the captured frame, or the intermediate buffer after
/// the first call.
pub open spec fn input_of(
    k: ColorKernel,
    c: YuvConversion,
    captured: PixelBuffer,
    mid: Seq<u8>,
) -> Seq<u8> {
    match c.prepare {
        Some(call) => overwrite(mid, packed_write(k, call, captured.data@)),
        None => captured.data@,
    }
}

/// The destination after the calls of a conversion.
pub open spec fn converted(
    k: ColorKernel,
    c: YuvConversion,
    captured: PixelBuffer,
    dst: Seq<u8>,
    mid: Seq<u8>,
) -> Seq<u8> {
    let src = input_of(k, c, captured, mid);
    let w = captured.width as int;
    match c.main {
        YuvCalls::I420 { kernel, calls } => run(k.i420(kernel, w), src, dst, calls@),
        YuvCalls::NV12 { kernel, calls } => run(k.nv12(kernel, w), src, dst, calls@),
        YuvCalls::I444 { call } => overwrite(dst, call.write(k.i444(call.kernel, w), src)),
    }
}

/// The second of the two rows that share the chroma of row `r`; the last row may stand alone.
pub open spec fn second_row(r: int, height: int) -> int {
    if 2 * r + 1 < height {
        2 * r + 1
    } else {
        2 * r
    }
}

/// The luma plane of a frame.
pub open spec fn luma_plane(k: ColorKernel, captured: PixelBuffer, f: EncodeYuvFormat) -> spec_fn(
    int,
) -> Option<u8> {
    plane_write(
        Plane { offset: 0, stride: f.stride@[0] as i32 },
        captured.height as int,
        k.y_bytes,
        |r: int, c: int| (k.luma)(frame_row(captured, k.wide, r), c),
    )
}

/// A chroma plane of a frame, whose rows are shared by two rows of the frame.
pub open spec fn shared_plane(
    k: ColorKernel,
    captured: PixelBuffer,
    p: Plane,
    bytes: int,
    chroma: spec_fn(Seq<Color>, Seq<Color>, int) -> u8,
) -> spec_fn(int) -> Option<u8> {
    plane_write(
        p,
        (captured.height + 1) / 2,
        bytes,
        |r: int, c: int|
            chroma(
                frame_row(captured, k.wide, 2 * r),
                frame_row(captured, k.wide, second_row(r, captured.height as int)),
                c,
            ),
    )
}

/// A chroma plane of a frame that has as many rows as the frame.
pub open spec fn own_plane(
    k: ColorKernel,
    captured: PixelBuffer,
    p: Plane,
    bytes: int,
    chroma: spec_fn(Seq<Color>, int) -> u8,
) -> spec_fn(int) -> Option<u8> {
    plane_write(
        p,
        captured.height as int,
        bytes,
        |r: int, c: int| chroma(frame_row(captured, k.wide, r), c),
    )
}

/// The planes that an encoder is to be given for a frame.
pub open spec fn planes_of(k: ColorKernel, captured: PixelBuffer, f: EncodeYuvFormat) -> spec_fn(
    int,
) -> Option<u8> {
    let u = Plane { offset: f.u, stride: f.stride@[1] as i32 };
    match f.pixfmt {
        Pixfmt::NV12 => or_else(
            luma_plane(k, captured, f),
            shared_plane(k, captured, u, k.u_bytes, k.shared_u),
        ),
        Pixfmt::I420 => or_else(
            luma_plane(k, captured, f),
            or_else(
                shared_plane(k, captured, u, k.u_bytes, k.shared_u),
                shared_plane(
                    k,
                    captured,
                    Plane { offset: f.v, stride: f.stride@[1] as i32 },
                    k.v_bytes,
                    k.shared_v,
                ),
            ),
        ),
        _ => or_else(
            luma_plane(k, captured, f),
            or_else(
                own_plane(k, captured, u, k.u_bytes, k.own_u),
                own_plane(
                    k,
                    captured,
                    Plane { offset: f.v, stride: f.stride@[2] as i32 },
                    k.v_bytes,
                    k.own_v,
                ),
            ),
        ),
    }
}

/// Whether a byte of the destination belongs to no more than one plane. I444 may have its planes as
/// it likes.
pub open spec fn in_one_plane(
    k: ColorKernel,
    captured: PixelBuffer,
    f: EncodeYuvFormat,
    a: int,
) -> bool {
    let (h, half) = (captured.height as int, (captured.height + 1) / 2);
    let y = in_area(Plane { offset: 0, stride: f.stride@[0] as i32 }, h, k.y_bytes, a);
    let u = in_area(Plane { offset: f.u, stride: f.stride@[1] as i32 }, half, k.u_bytes, a);
    let v = in_area(Plane { offset: f.v, stride: f.stride@[1] as i32 }, half, k.v_bytes, a);
    match f.pixfmt {
        Pixfmt::NV12 => !(y && u),
        Pixfmt::I420 => !(y && u) && !(y && v) && !(u && v),
        _ => true,
    }
}

/// No byte of the destination belongs to two planes.
pub open spec fn planes_apart(k: ColorKernel, captured: PixelBuffer, f: EncodeYuvFormat) -> bool {
    forall|a: int| #[trigger] in_one_plane(k, captured, f, a)
}

/// A conversion that is not refused: it can be made, and its sizes are ones that a machine can hold.
pub open spec fn is_accepted(captured: PixelBuffer, f: EncodeYuvFormat) -> bool {
    yuv_checkable(captured, f) && yuv_refusal(captured, f) is None && yuv_sizes_fit(captured, f)
}

/// Each kernel of a conversion reads the format that the pixels have which it is given, and the last
/// one writes the format of the encoder.
pub proof fn law_kernels_read_the_format_there_is(
    captured: PixelBuffer,
    f: EncodeYuvFormat,
    c: YuvConversion,
    parallelism: Option<usize>,
)
    requires
        is_accepted(captured, f),
        c.converts(captured, f, parallelism),
    ensures
        ({
            let last = match c.main {
                YuvCalls::I420 { kernel, .. } => kernel,
                YuvCalls::NV12 { kernel, .. } => kernel,
                YuvCalls::I444 { call } => call.kernel,
            };
            &&& last.writes() == f.pixfmt
            &&& match c.prepare {
                Some(first) => first.kernel.reads() == captured.pixfmt && last.reads()
                    == first.kernel.writes(),
                None => last.reads() == captured.pixfmt,
            }
            &&& match c.main {
                YuvCalls::I420 { .. } => f.pixfmt is I420,
                YuvCalls::NV12 { .. } => f.pixfmt is NV12,
                YuvCalls::I444 { .. } => f.pixfmt is I444,
            }
        }),
{
}

/// The colors of a row of the captured frame are those of its bytes.
proof fn lemma_captured_row(k: ColorKernel, captured: PixelBuffer, f: EncodeYuvFormat, r: int)
    requires
        is_accepted(captured, f),
        0 <= r < captured.height,
    ensures
        colors_of(
            captured.pixfmt,
            k.wide,
            row_bytes(
                captured.data@,
                Plane { offset: 0, stride: captured.stride@[0] as i32 },
                r,
                pixel_len(captured.pixfmt) * captured.width,
            ),
            captured.width as int,
        ) == frame_row(captured, k.wide, r),
{
    let stride = captured.stride@[0] as int;
    let n = pixel_len(captured.pixfmt);
    let p = Plane { offset: 0, stride: captured.stride@[0] as i32 };
    lemma_row_fits(stride, captured.height as int, r);
    assert(0 <= r * stride) by (nonlinear_arith)
        requires
            0 <= r,
            0 <= stride,
    ;
    let row = row_bytes(captured.data@, p, r, n * captured.width);
    let seen = colors_of(captured.pixfmt, k.wide, row, captured.width as int);
    let colors = frame_row(captured, k.wide, r);
    assert forall|x: int| 0 <= x < captured.width implies seen[x] == colors[x] by {
        assert(row[n * x] == captured.data@[r * stride + n * x]);
        assert(row[n * x + 1] == captured.data@[r * stride + n * x + 1]);
        if n == 4 {
            assert(row[n * x + 2] == captured.data@[r * stride + n * x + 2]);
        }
    }
    assert(seen =~= colors);
}

/// The colors of a row of the intermediate buffer are those of the captured frame.
#[verifier::rlimit(40)]
#[verifier::spinoff_prover]
proof fn lemma_mid_row(
    k: ColorKernel,
    captured: PixelBuffer,
    f: EncodeYuvFormat,
    mid: Seq<u8>,
    r: int,
)
    requires
        is_accepted(captured, f),
        goes_through_mid(captured.pixfmt, f.pixfmt),
        mid.len() == mid_len(captured),
        0 <= r < captured.height,
    ensures
        ({
            let call = yuv_prepare(captured, f.pixfmt)->0;
            colors_of(
                Pixfmt::BGRA,
                k.wide,
                row_bytes(
                    overwrite(mid, packed_write(k, call, captured.data@)),
                    call.dst,
                    r,
                    4 * captured.width,
                ),
                captured.width as int,
            )
        }) == frame_row(captured, k.wide, r),
{
    let call = yuv_prepare(captured, f.pixfmt)->0;
    let w = captured.width as int;
    let n = pixel_len(captured.pixfmt);
    let (from, to) = (call.src.stride as int, call.dst.stride as int);
    let write = packed_write(k, call, captured.data@);
    let filled = overwrite(mid, write);
    lemma_row_fits(to, captured.height as int, r);
    assert(0 <= r * to) by (nonlinear_arith)
        requires
            0 <= r,
            0 <= to,
    ;
    let row = row_bytes(filled, call.dst, r, 4 * w);
    let seen = colors_of(Pixfmt::BGRA, k.wide, row, w);
    let colors = frame_row(captured, k.wide, r);
    assert forall|x: int| 0 <= x < w implies seen[x] == colors[x] by {
        let at = r * from + n * x;
        let color = color_at(captured.pixfmt, k.wide, captured.data@, at);
        assert forall|c: int| 4 * x <= c < 4 * x + 3 implies #[trigger] row[c] == (if c == 4 * x {
            color.blue
        } else if c == 4 * x + 1 {
            color.green
        } else {
            color.red
        }) by {
            lemma_place(to, r, c);
            let a = r * to + c;
            assert(row_at(call.dst, a) == r && col_at(call.dst, a) == c);
            assert(in_area(call.dst, call.height as int, 4 * call.width, a));
            assert(c / 4 == x);
            assert(row[c] == filled[a]);
        }
        assert(row[4 * x] == color.blue && row[4 * x + 1] == color.green && row[4 * x + 2]
            == color.red);
    }
    assert(seen =~= colors);
}

/// A plane whose rows are the same holds the same.
proof fn lemma_same_plane(
    p: Plane,
    rows: int,
    bytes: int,
    one: spec_fn(int, int) -> u8,
    two: spec_fn(int, int) -> u8,
    a: int,
)
    requires
        forall|r: int, c: int| 0 <= r < rows ==> #[trigger] one(r, c) == two(r, c),
    ensures
        plane_write(p, rows, bytes, one)(a) == plane_write(p, rows, bytes, two)(a),
{
    if in_area(p, rows, bytes, a) {
        vstd::arithmetic::div_mod::lemma_div_pos_is_pos(a - p.offset, p.stride as int);
        assert(one(row_at(p, a), col_at(p, a)) == two(row_at(p, a), col_at(p, a)));
    }
}

/// A single call does what it writes.
proof fn lemma_run_single<K: RowKernel>(k: K, src: Seq<u8>, dst: Seq<u8>, call: K::Call)
    ensures
        run(k, src, dst, seq![call]) == overwrite(dst, k.writes(call, src)),
{
    let single = seq![call].map_values(|c: K::Call| k.writes(c, src));
    assert(single.drop_last() =~= Seq::empty());
    assert(overwrite_all(dst, single) == overwrite(
        overwrite_all(dst, single.drop_last()),
        k.writes(call, src),
    ));
}

/// The rows that the main calls read have the colors of the captured frame.
proof fn lemma_input_rows(
    k: ColorKernel,
    captured: PixelBuffer,
    f: EncodeYuvFormat,
    c: YuvConversion,
    parallelism: Option<usize>,
    mid: Seq<u8>,
    kernel: Kernel,
)
    requires
        is_accepted(captured, f),
        c.converts(captured, f, parallelism),
        c.prepare is Some ==> mid.len() == mid_len(captured),
        kernel.reads() == (if c.prepare is Some {
            Pixfmt::BGRA
        } else {
            captured.pixfmt
        }),
    ensures
        forall|r: int|
            0 <= r < captured.height ==> #[trigger] colors_of(
                kernel.reads(),
                k.wide,
                row_bytes(
                    input_of(k, c, captured, mid),
                    yuv_input(captured, f.pixfmt),
                    r,
                    pixel_len(kernel.reads()) * captured.width,
                ),
                captured.width as int,
            ) == frame_row(captured, k.wide, r),
{
    assert forall|r: int| 0 <= r < captured.height implies #[trigger] colors_of(
        kernel.reads(),
        k.wide,
        row_bytes(
            input_of(k, c, captured, mid),
            yuv_input(captured, f.pixfmt),
            r,
            pixel_len(kernel.reads()) * captured.width,
        ),
        captured.width as int,
    ) == frame_row(captured, k.wide, r) by {
        if c.prepare is Some {
            lemma_mid_row(k, captured, f, mid, r);
            assert(yuv_prepare(captured, f.pixfmt)->0.dst == yuv_input(captured, f.pixfmt));
        } else {
            lemma_captured_row(k, captured, f, r);
        }
    }
}

#[verifier::rlimit(40)]
#[verifier::spinoff_prover]
proof fn lemma_nv12_of_colors(
    k: ColorKernel,
    captured: PixelBuffer,
    f: EncodeYuvFormat,
    c: YuvConversion,
    parallelism: Option<usize>,
    dst: Seq<u8>,
    mid: Seq<u8>,
)
    requires
        is_accepted(captured, f),
        f.pixfmt is NV12,
        c.converts(captured, f, parallelism),
        c.prepare is Some ==> mid.len() == mid_len(captured),
        planes_apart(k, captured, f),
    ensures
        converted(k, c, captured, dst, mid) == overwrite(dst, planes_of(k, captured, f)),
{
    let kernel = c.main->NV12_kernel;
    let calls = c.main->NV12_calls@;
    let call = nv12_call(captured, f);
    let w = captured.width as int;
    let h = captured.height as int;
    let rk = k.nv12(kernel, w);
    let src = input_of(k, c, captured, mid);
    lemma_planes_reach(captured, f);
    lemma_input_rows(k, captured, f, c, parallelism, mid, kernel);
    assert forall|a: int|
        !(#[trigger] in_area(call.dst_y, h, rk.y_bytes, a) && in_area(
            call.dst_uv,
            half_up(h),
            rk.uv_bytes,
            a,
        )) by {
        assert(in_one_plane(k, captured, f, a));
    }
    law_slices_match_single(rk, parallelism, call, src, dst, calls);
    lemma_run_single(rk, src, dst, call);
    let full = call.write(rk, src);
    let want = planes_of(k, captured, f);
    assert forall|a: int| full(a) == #[trigger] want(a) by {
        let p = kernel.reads();
        lemma_same_own(k, captured, src, call.src, p, call.dst_y, k.y_bytes, k.luma, a);
        lemma_same_shared(k, captured, src, call.src, p, call.dst_uv, k.u_bytes, k.shared_u, a);
    }
    assert(overwrite(dst, full) =~= overwrite(dst, want));
}

/// Chroma that two rows share is computed of the colors of both.
proof fn lemma_same_shared(
    k: ColorKernel,
    captured: PixelBuffer,
    src: Seq<u8>,
    input: Plane,
    p: Pixfmt,
    dst: Plane,
    bytes: int,
    chroma: spec_fn(Seq<Color>, Seq<Color>, int) -> u8,
    a: int,
)
    requires
        forall|r: int|
            0 <= r < captured.height ==> #[trigger] colors_of(
                p,
                k.wide,
                row_bytes(src, input, r, pixel_len(p) * captured.width),
                captured.width as int,
            ) == frame_row(captured, k.wide, r),
    ensures
        plane_write(
            dst,
            half_up(captured.height as int),
            bytes,
            chroma_value(
                |x: Seq<u8>, y: Seq<u8>, c: int|
                    chroma(
                        colors_of(p, k.wide, x, captured.width as int),
                        colors_of(p, k.wide, y, captured.width as int),
                        c,
                    ),
                src,
                input,
                pixel_len(p) * captured.width,
                captured.height as int,
            ),
        )(a) == shared_plane(k, captured, dst, bytes, chroma)(a),
{
    let w = captured.width as int;
    let h = captured.height as int;
    let n = pixel_len(p) * captured.width;
    let of_bytes = |x: Seq<u8>, y: Seq<u8>, c: int|
        chroma(colors_of(p, k.wide, x, w), colors_of(p, k.wide, y, w), c);
    let value = chroma_value(of_bytes, src, input, n, h);
    let want = |r: int, c: int|
        chroma(
            frame_row(captured, k.wide, 2 * r),
            frame_row(captured, k.wide, second_row(r, h)),
            c,
        );
    assert forall|r: int, c: int|
        0 <= r < half_up(h) implies #[trigger] value(r, c) == want(r, c) by {
        let (one, two) = (2 * r, second_row(r, h));
        assert(colors_of(p, k.wide, row_bytes(src, input, one, n), w) == frame_row(
            captured,
            k.wide,
            one,
        ));
        assert(colors_of(p, k.wide, row_bytes(src, input, two, n), w) == frame_row(
            captured,
            k.wide,
            two,
        ));
    }
    lemma_same_plane(dst, half_up(h), bytes, value, want, a);
}

#[verifier::rlimit(40)]
#[verifier::spinoff_prover]
proof fn lemma_i420_of_colors(
    k: ColorKernel,
    captured: PixelBuffer,
    f: EncodeYuvFormat,
    c: YuvConversion,
    parallelism: Option<usize>,
    dst: Seq<u8>,
    mid: Seq<u8>,
)
    requires
        is_accepted(captured, f),
        f.pixfmt is I420,
        c.converts(captured, f, parallelism),
        c.prepare is Some ==> mid.len() == mid_len(captured),
        planes_apart(k, captured, f),
    ensures
        converted(k, c, captured, dst, mid) == overwrite(dst, planes_of(k, captured, f)),
{
    let kernel = c.main->I420_kernel;
    let calls = c.main->I420_calls@;
    let call = i420_call(captured, f);
    let h = captured.height as int;
    let rk = k.i420(kernel, captured.width as int);
    let src = input_of(k, c, captured, mid);
    lemma_planes_reach(captured, f);
    lemma_input_rows(k, captured, f, c, parallelism, mid, kernel);
    assert forall|a: int|
        ({
            let y = #[trigger] in_area(call.dst_y, h, rk.y_bytes, a);
            let u = in_area(call.dst_u, half_up(h), rk.u_bytes, a);
            let v = in_area(call.dst_v, half_up(h), rk.v_bytes, a);
            !(y && u) && !(y && v) && !(u && v)
        }) by {
        assert(in_one_plane(k, captured, f, a));
    }
    law_slices_match_single(rk, parallelism, call, src, dst, calls);
    lemma_run_single(rk, src, dst, call);
    let full = call.write(rk, src);
    let want = planes_of(k, captured, f);
    let p = kernel.reads();
    assert forall|a: int| full(a) == #[trigger] want(a) by {
        lemma_same_own(k, captured, src, call.src, p, call.dst_y, k.y_bytes, k.luma, a);
        lemma_same_shared(k, captured, src, call.src, p, call.dst_u, k.u_bytes, k.shared_u, a);
        lemma_same_shared(k, captured, src, call.src, p, call.dst_v, k.v_bytes, k.shared_v, a);
    }
    assert(overwrite(dst, full) =~= overwrite(dst, want));
}

#[verifier::rlimit(40)]
#[verifier::spinoff_prover]
proof fn lemma_i444_of_colors(
    k: ColorKernel,
    captured: PixelBuffer,
    f: EncodeYuvFormat,
    c: YuvConversion,
    parallelism: Option<usize>,
    dst: Seq<u8>,
    mid: Seq<u8>,
)
    requires
        is_accepted(captured, f),
        f.pixfmt is I444,
        c.converts(captured, f, parallelism),
        c.prepare is Some ==> mid.len() == mid_len(captured),
    ensures
        converted(k, c, captured, dst, mid) == overwrite(dst, planes_of(k, captured, f)),
{
    let call = i444_call(captured, f);
    let src = input_of(k, c, captured, mid);
    let p = call.kernel.reads();
    lemma_input_rows(k, captured, f, c, parallelism, mid, call.kernel);
    let full = call.write(k.i444(call.kernel, captured.width as int), src);
    let want = planes_of(k, captured, f);
    assert forall|a: int| full(a) == #[trigger] want(a) by {
        lemma_same_own(k, captured, src, call.src, p, call.dst_y, k.y_bytes, k.luma, a);
        lemma_same_own(k, captured, src, call.src, p, call.dst_u, k.u_bytes, k.own_u, a);
        lemma_same_own(k, captured, src, call.src, p, call.dst_v, k.v_bytes, k.own_v, a);
    }
    assert(overwrite(dst, full) =~= overwrite(dst, want));
}

/// What is computed of one row is computed of its colors.
proof fn lemma_same_own(
    k: ColorKernel,
    captured: PixelBuffer,
    src: Seq<u8>,
    input: Plane,
    p: Pixfmt,
    dst: Plane,
    bytes: int,
    value_of: spec_fn(Seq<Color>, int) -> u8,
    a: int,
)
    requires
        forall|r: int|
            0 <= r < captured.height ==> #[trigger] colors_of(
                p,
                k.wide,
                row_bytes(src, input, r, pixel_len(p) * captured.width),
                captured.width as int,
            ) == frame_row(captured, k.wide, r),
    ensures
        plane_write(
            dst,
            captured.height as int,
            bytes,
            luma_value(
                |row: Seq<u8>, c: int|
                    value_of(colors_of(p, k.wide, row, captured.width as int), c),
                src,
                input,
                pixel_len(p) * captured.width,
            ),
        )(a) == own_plane(k, captured, dst, bytes, value_of)(a),
{
    let w = captured.width as int;
    let h = captured.height as int;
    let n = pixel_len(p) * captured.width;
    let of_bytes = |row: Seq<u8>, c: int| value_of(colors_of(p, k.wide, row, w), c);
    let value = luma_value(of_bytes, src, input, n);
    let want = |r: int, c: int| value_of(frame_row(captured, k.wide, r), c);
    assert forall|r: int, c: int| 0 <= r < h implies #[trigger] value(r, c) == want(r, c) by {
        assert(colors_of(p, k.wide, row_bytes(src, input, r, n), w) == frame_row(
            captured,
            k.wide,
            r,
        ));
    }
    lemma_same_plane(dst, h, bytes, value, want, a);
}

/// The planes of a converted frame are computed of the colors of its pixels, whatever their format
/// and however the frame is cut into slices: row by row, each plane where the encoder has it, and
/// nothing else is written.
pub proof fn law_planes_hold_the_colors(
    k: ColorKernel,
    captured: PixelBuffer,
    f: EncodeYuvFormat,
    c: YuvConversion,
    parallelism: Option<usize>,
    dst: Seq<u8>,
    mid: Seq<u8>,
)
    requires
        is_accepted(captured, f),
        c.converts(captured, f, parallelism),
        c.prepare is Some ==> mid.len() == mid_len(captured),
        planes_apart(k, captured, f),
    ensures
        converted(k, c, captured, dst, mid) == overwrite(dst, planes_of(k, captured, f)),
{
    match f.pixfmt {
        Pixfmt::NV12 => lemma_nv12_of_colors(k, captured, f, c, parallelism, dst, mid),
        Pixfmt::I420 => lemma_i420_of_colors(k, captured, f, c, parallelism, dst, mid),
        _ => lemma_i444_of_colors(k, captured, f, c, parallelism, dst, mid),
    }
}

/// Two frames of the same colors give the same planes, though their pixels are of different formats
/// and though they are cut differently. So do a frame of BGRA pixels and one of RGBA pixels that are
/// the same but for the exchange of red and blue.
pub proof fn law_same_colors_give_the_same_planes(
    k: ColorKernel,
    a: PixelBuffer,
    b: PixelBuffer,
    f: EncodeYuvFormat,
    ca: YuvConversion,
    cb: YuvConversion,
    parallelism_a: Option<usize>,
    parallelism_b: Option<usize>,
    dst: Seq<u8>,
    mid_a: Seq<u8>,
    mid_b: Seq<u8>,
)
    requires
        is_accepted(a, f),
        is_accepted(b, f),
        ca.converts(a, f, parallelism_a),
        cb.converts(b, f, parallelism_b),
        ca.prepare is Some ==> mid_a.len() == mid_len(a),
        cb.prepare is Some ==> mid_b.len() == mid_len(b),
        planes_apart(k, a, f),
        a.width == b.width,
        a.height == b.height,
        forall|r: int|
            0 <= r < a.height ==> #[trigger] frame_row(a, k.wide, r) == frame_row(b, k.wide, r),
    ensures
        converted(k, ca, a, dst, mid_a) == converted(k, cb, b, dst, mid_b),
{
    assert forall|x: int| #[trigger] in_one_plane(k, b, f, x) by {
        assert(in_one_plane(k, a, f, x));
    }
    law_planes_hold_the_colors(k, a, f, ca, parallelism_a, dst, mid_a);
    law_planes_hold_the_colors(k, b, f, cb, parallelism_b, dst, mid_b);
    let (pa, pb) = (planes_of(k, a, f), planes_of(k, b, f));
    assert forall|x: int| pa(x) == #[trigger] pb(x) by {
        let y = Plane { offset: 0, stride: f.stride@[0] as i32 };
        let u = Plane { offset: f.u, stride: f.stride@[1] as i32 };
        lemma_same_own_plane(k, a, b, y, k.y_bytes, k.luma, x);
        if f.pixfmt is NV12 {
            lemma_same_shared_plane(k, a, b, u, k.u_bytes, k.shared_u, x);
        } else if f.pixfmt is I420 {
            let v = Plane { offset: f.v, stride: f.stride@[1] as i32 };
            lemma_same_shared_plane(k, a, b, u, k.u_bytes, k.shared_u, x);
            lemma_same_shared_plane(k, a, b, v, k.v_bytes, k.shared_v, x);
        } else {
            let v = Plane { offset: f.v, stride: f.stride@[2] as i32 };
            lemma_same_own_plane(k, a, b, u, k.u_bytes, k.own_u, x);
            lemma_same_own_plane(k, a, b, v, k.v_bytes, k.own_v, x);
        }
    }
    assert(overwrite(dst, pa) =~= overwrite(dst, pb));
}

proof fn lemma_same_own_plane(
    k: ColorKernel,
    a: PixelBuffer,
    b: PixelBuffer,
    p: Plane,
    bytes: int,
    value_of: spec_fn(Seq<Color>, int) -> u8,
    x: int,
)
    requires
        a.height == b.height,
        forall|r: int|
            0 <= r < a.height ==> #[trigger] frame_row(a, k.wide, r) == frame_row(b, k.wide, r),
    ensures
        own_plane(k, a, p, bytes, value_of)(x) == own_plane(k, b, p, bytes, value_of)(x),
{
    let one = |r: int, c: int| value_of(frame_row(a, k.wide, r), c);
    let two = |r: int, c: int| value_of(frame_row(b, k.wide, r), c);
    lemma_same_plane(p, a.height as int, bytes, one, two, x);
}

proof fn lemma_same_shared_plane(
    k: ColorKernel,
    a: PixelBuffer,
    b: PixelBuffer,
    p: Plane,
    bytes: int,
    chroma: spec_fn(Seq<Color>, Seq<Color>, int) -> u8,
    x: int,
)
    requires
        a.height == b.height,
        forall|r: int|
            0 <= r < a.height ==> #[trigger] frame_row(a, k.wide, r) == frame_row(b, k.wide, r),
    ensures
        shared_plane(k, a, p, bytes, chroma)(x) == shared_plane(k, b, p, bytes, chroma)(x),
{
    let h = a.height as int;
    let one = |r: int, c: int|
        chroma(
            frame_row(a, k.wide, 2 * r),
            frame_row(a, k.wide, second_row(r, h)),
            c,
        );
    let two = |r: int, c: int|
        chroma(
            frame_row(b, k.wide, 2 * r),
            frame_row(b, k.wide, second_row(r, h)),
            c,
        );
    assert forall|r: int, c: int| 0 <= r < (h + 1) / 2 implies #[trigger] one(r, c) == two(
        r,
        c,
    ) by {
        assert(frame_row(a, k.wide, 2 * r) == frame_row(b, k.wide, 2 * r));
        assert(frame_row(a, k.wide, second_row(r, h)) == frame_row(b, k.wide, second_row(r, h)));
    }
    lemma_same_plane(p, (h + 1) / 2, bytes, one, two, x);
}

/// Converting a frame to the other of RGBA and BGRA keeps the color of every pixel.
pub proof fn law_swap_keeps_colors(
    captured: PixelBuffer,
    to: Pixfmt,
    wide: spec_fn(u8, u8) -> Color,
    dst: Seq<u8>,
    r: int,
    x: int,
)
    requires
        captured.pixfmt is BGRA && to is RGBA || captured.pixfmt is RGBA && to is BGRA,
        captured.stride@.len() >= 1,
        captured.stride@[0] <= i32::MAX,
        captured.width <= i32::MAX,
        captured.height <= i32::MAX,
        4 * captured.width <= captured.stride@[0],
        captured.stride@[0] * captured.height <= captured.data@.len(),
        0 <= r < captured.height,
        0 <= x < captured.width,
    ensures
        swaps_red_blue(captured.pixfmt, to),
        swap_result(captured, dst).len() == captured.data@.len(),
        ({
            let at = r * captured.stride@[0] + 4 * x;
            color_at(to, wide, swap_result(captured, dst), at) == color_at(
                captured.pixfmt,
                wide,
                captured.data@,
                at,
            )
        }),
{
    let call = swap_call(captured);
    let stride = captured.stride@[0] as int;
    lemma_row_fits(stride, captured.height as int, r);
    let result = swap_result(captured, dst);
    assert forall|c: int| 4 * x <= c < 4 * x + 3 implies result[r * stride + c] == #[trigger] (
    captured.data@[r * stride + partner(c)]) by {
        lemma_place(stride, r, c);
        let a = r * stride + c;
        assert(row_at(call.dst, a) == r && col_at(call.dst, a) == c);
        assert(in_area(call.dst, call.height as int, 4 * call.width, a));
    }
    let (c0, c1, c2) = (4 * x, 4 * x + 1, 4 * x + 2);
    assert(result[r * stride + c0] == captured.data@[r * stride + partner(c0)]);
    assert(result[r * stride + c1] == captured.data@[r * stride + partner(c1)]);
    assert(result[r * stride + c2] == captured.data@[r * stride + partner(c2)]);
}

} // verus!
