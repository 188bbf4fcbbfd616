//! Converting captured pixels to the formats that encoders take.
//!
//! The functions here decide whether a conversion is possible, size the buffers, and say which
//! kernels are to be called on which planes; the kernels themselves are libyuv's.
use crate::planes::{
    half_up, par_rgb_to_i420, par_rgb_to_nv12, slices, Plane, RgbToI420, RgbToNv12, Sliced,
};
use crate::text::{decimal, decimal_text, signed_decimal, signed_decimal_text};
use vstd::arithmetic::mul::{lemma_mul_is_distributive_add, lemma_mul_upper_bound};
use vstd::prelude::*;

verus! {

/// The layout of a pixel buffer.
#[derive(Debug, Clone, Copy, PartialEq, Eq, Structural)]
pub enum Pixfmt {
    BGRA,
    RGBA,
    RGB565LE,
    I420,
    NV12,
    I444,
}

/// Pixels that were captured. `stride` holds the length of a row, in bytes, of each plane.
#[derive(Debug)]
pub struct PixelBuffer<'a> {
    pub data: &'a [u8],
    pub pixfmt: Pixfmt,
    pub width: usize,
    pub height: usize,
    pub stride: Vec<usize>,
}

/// The format that an encoder takes: its size, the strides of its planes, and the offsets of its
/// second and third plane.
#[derive(Debug)]
pub struct EncodeYuvFormat {
    pub pixfmt: Pixfmt,
    pub w: usize,
    pub h: usize,
    pub stride: Vec<usize>,
    pub u: usize,
    pub v: usize,
}

/// Why a conversion was refused or failed.
#[derive(Debug, Clone, Copy, PartialEq, Eq, Structural)]
pub enum ConvertError {
    /// The captured rectangle does not fit into the encoder's.
    SrcTooLarge { src_width: usize, src_height: usize, dst_width: usize, dst_height: usize },
    /// A row of the captured buffer is shorter than its pixels.
    StrideTooSmall { stride: usize, needed: usize },
    /// The captured buffer is shorter than its rows.
    WrongSrcLen { len: usize, stride: usize, height: usize },
    /// There is no conversion between the two formats.
    Unsupported { from: Pixfmt, to: Pixfmt },
    /// A call ended with an error code.
    FailedCall { call: CallName, code: i32 },
}

/// The name of a call that may fail.
#[derive(Debug, Clone, Copy, PartialEq, Eq, Structural)]
pub enum CallName {
    /// The slices of a frame, converted to I420.
    ParRgbToI420,
    /// The slices of a frame, converted to NV12.
    ParRgbToNv12,
    /// One kernel, on a whole frame.
    Kernel(Kernel),
}

/// A kernel of libyuv.
#[derive(Debug, Clone, Copy, PartialEq, Eq, Structural)]
pub enum Kernel {
    ARGBToI420,
    ABGRToI420,
    RGB565ToI420,
    ARGBToNV12,
    ABGRToNV12,
    ARGBToI444,
    RGB565ToARGB,
    ABGRToARGB,
}

/// A call of a kernel from packed pixels to packed pixels.
#[derive(Debug, Clone, Copy, PartialEq, Eq, Structural)]
pub struct PackedCall {
    pub kernel: Kernel,
    pub src: Plane,
    pub dst: Plane,
    pub width: i32,
    pub height: i32,
}

/// A call of the kernel from packed pixels to I444.
#[derive(Debug, Clone, Copy, PartialEq, Eq, Structural)]
pub struct RgbToI444 {
    pub kernel: Kernel,
    pub src: Plane,
    pub dst_y: Plane,
    pub dst_u: Plane,
    pub dst_v: Plane,
    pub width: i32,
    pub height: i32,
}

/// The calls that write the encoder's planes.
#[derive(Debug)]
#[allow(inconsistent_fields)]
pub enum YuvCalls {
    I420 { kernel: Kernel, calls: Vec<RgbToI420> },
    NV12 { kernel: Kernel, calls: Vec<RgbToNv12> },
    I444 { call: RgbToI444 },
}

/// A conversion that is ready to run: first, where there is one, a call from the captured buffer
/// to the intermediate buffer; then the calls that write the destination, which read the
/// intermediate buffer if there is such a first call, and the captured buffer if there is none.
#[derive(Debug)]
pub struct YuvConversion {
    pub prepare: Option<PackedCall>,
    pub main: YuvCalls,
}

impl Pixfmt {
    /// The bytes that one pixel of a packed format takes.
    pub open spec fn packed_bytes(self) -> int {
        match self {
            Pixfmt::BGRA | Pixfmt::RGBA => 4,
            _ => 2,
        }
    }

    /// Whether the format holds whole pixels, one after the other.
    pub open spec fn is_packed(self) -> bool {
        self is BGRA || self is RGBA || self is RGB565LE
    }

    /// Whether the format is one that encoders take.
    pub open spec fn is_planar(self) -> bool {
        self is I420 || self is NV12 || self is I444
    }
}

/// The next multiple of 64.
pub open spec fn align(x: int) -> int {
    (x + 63) / 64 * 64
}

/// Why a conversion is refused, if it is.
pub open spec fn yuv_refusal(captured: PixelBuffer, dst_fmt: EncodeYuvFormat) -> Option<
    ConvertError,
> {
    let (w, h) = (captured.width, captured.height);
    let needed = w * captured.pixfmt.packed_bytes();
    let stride = captured.stride@[0];
    if w > dst_fmt.w || h > dst_fmt.h {
        Some(
            ConvertError::SrcTooLarge {
                src_width: w,
                src_height: h,
                dst_width: dst_fmt.w,
                dst_height: dst_fmt.h,
            },
        )
    } else if captured.pixfmt.is_packed() && stride < needed {
        Some(ConvertError::StrideTooSmall { stride, needed: needed as usize })
    } else if captured.pixfmt.is_packed() && captured.data@.len() < stride * h {
        Some(
            ConvertError::WrongSrcLen { len: captured.data@.len() as usize, stride, height: h },
        )
    } else if !captured.pixfmt.is_packed() || !dst_fmt.pixfmt.is_planar() {
        Some(ConvertError::Unsupported { from: captured.pixfmt, to: dst_fmt.pixfmt })
    } else {
        None
    }
}

/// The checks can be made: where they are reached, there is a stride, and the products fit.
pub open spec fn yuv_checkable(captured: PixelBuffer, dst_fmt: EncodeYuvFormat) -> bool {
    captured.width <= dst_fmt.w && captured.height <= dst_fmt.h && captured.pixfmt.is_packed()
        ==> {
        &&& captured.stride@.len() >= 1
        &&& captured.width * captured.pixfmt.packed_bytes() <= usize::MAX
        &&& captured.stride@[0] >= captured.width * captured.pixfmt.packed_bytes()
            ==> captured.stride@[0] * captured.height <= usize::MAX
    }
}

/// The length that the destination is given.
pub open spec fn yuv_len(f: EncodeYuvFormat) -> int {
    match f.pixfmt {
        Pixfmt::I420 => f.h * f.stride@[0] * 2,
        Pixfmt::NV12 => align(f.h as int) * (align(f.stride@[0] as int) + align(
            f.stride@[1] as int / 2,
        )),
        _ => align(f.h as int) * (align(f.stride@[0] as int) + align(f.stride@[1] as int) + align(
            f.stride@[2] as int,
        )),
    }
}

/// Whether the pixels go through the intermediate buffer.
pub open spec fn goes_through_mid(from: Pixfmt, to: Pixfmt) -> bool {
    from is RGB565LE && (to is NV12 || to is I444) || from is RGBA && to is I444
}

/// The length of a row in the intermediate buffer.
pub open spec fn mid_stride(captured: PixelBuffer) -> int {
    if captured.pixfmt is RGBA {
        captured.stride@[0] as int
    } else {
        captured.width * 4
    }
}

/// The length that the intermediate buffer is given.
pub open spec fn mid_len(captured: PixelBuffer) -> int {
    if captured.pixfmt is RGBA {
        captured.data@.len() as int
    } else {
        captured.width * 4 * captured.height
    }
}

/// The sizes of a conversion that is not refused are ones that a machine can hold: lengths and
/// offsets are addresses, the kernels' arguments are `i32`, and the planes start inside the
/// destination.
pub open spec fn yuv_sizes_fit(captured: PixelBuffer, f: EncodeYuvFormat) -> bool {
    let s = f.stride@;
    let chroma_rows = half_up(captured.height as int);
    &&& captured.width <= i32::MAX
    &&& captured.height <= i32::MAX
    &&& captured.stride@[0] <= i32::MAX
    &&& s.len() >= 2
    &&& s[0] <= i32::MAX
    &&& s[1] <= i32::MAX
    &&& f.u <= yuv_len(f) <= usize::MAX
    &&& match f.pixfmt {
        Pixfmt::I420 => {
            &&& f.v <= yuv_len(f)
            &&& chroma_rows > 0 ==> f.u + (chroma_rows - 1) * s[1] <= usize::MAX
            &&& chroma_rows > 0 ==> f.v + (chroma_rows - 1) * s[1] <= usize::MAX
        },
        Pixfmt::NV12 => {
            &&& f.h + 63 <= usize::MAX
            &&& s[0] + 63 <= usize::MAX
            &&& align(s[0] as int) + align(s[1] as int / 2) <= usize::MAX
            &&& chroma_rows > 0 ==> f.u + (chroma_rows - 1) * s[1] <= usize::MAX
        },
        _ => {
            &&& s.len() >= 3
            &&& s[2] <= i32::MAX
            &&& f.h + 63 <= usize::MAX
            &&& align(s[0] as int) + align(s[1] as int) + align(s[2] as int) <= usize::MAX
            &&& f.v <= yuv_len(f)
        },
    }
    &&& (goes_through_mid(captured.pixfmt, f.pixfmt) ==> mid_stride(captured) <= i32::MAX
        && mid_len(captured) <= usize::MAX)
}

/// The kernel that writes the encoder's planes.
pub open spec fn main_kernel(from: Pixfmt, to: Pixfmt) -> Kernel {
    match (from, to) {
        (Pixfmt::BGRA, Pixfmt::I420) => Kernel::ARGBToI420,
        (Pixfmt::RGBA, Pixfmt::I420) => Kernel::ABGRToI420,
        (_, Pixfmt::I420) => Kernel::RGB565ToI420,
        (Pixfmt::RGBA, Pixfmt::NV12) => Kernel::ABGRToNV12,
        (_, Pixfmt::NV12) => Kernel::ARGBToNV12,
        _ => Kernel::ARGBToI444,
    }
}

/// The call that fills the intermediate buffer, where pixels go through it.
pub open spec fn yuv_prepare(captured: PixelBuffer, to: Pixfmt) -> Option<PackedCall> {
    if goes_through_mid(captured.pixfmt, to) {
        Some(
            PackedCall {
                kernel: if captured.pixfmt is RGBA {
                    Kernel::ABGRToARGB
                } else {
                    Kernel::RGB565ToARGB
                },
                src: Plane { offset: 0, stride: captured.stride@[0] as i32 },
                dst: Plane { offset: 0, stride: mid_stride(captured) as i32 },
                width: captured.width as i32,
                height: captured.height as i32,
            },
        )
    } else {
        None
    }
}

/// The plane that the main calls read.
pub open spec fn yuv_input(captured: PixelBuffer, to: Pixfmt) -> Plane {
    Plane {
        offset: 0,
        stride: (if goes_through_mid(captured.pixfmt, to) {
            mid_stride(captured)
        } else {
            captured.stride@[0] as int
        }) as i32,
    }
}

/// The conversion of a whole frame to I420.
pub open spec fn i420_call(captured: PixelBuffer, f: EncodeYuvFormat) -> RgbToI420 {
    RgbToI420 {
        src: yuv_input(captured, f.pixfmt),
        dst_y: Plane { offset: 0, stride: f.stride@[0] as i32 },
        dst_u: Plane { offset: f.u, stride: f.stride@[1] as i32 },
        dst_v: Plane { offset: f.v, stride: f.stride@[1] as i32 },
        width: captured.width as i32,
        height: captured.height as i32,
    }
}

/// The conversion of a whole frame to NV12.
pub open spec fn nv12_call(captured: PixelBuffer, f: EncodeYuvFormat) -> RgbToNv12 {
    RgbToNv12 {
        src: yuv_input(captured, f.pixfmt),
        dst_y: Plane { offset: 0, stride: f.stride@[0] as i32 },
        dst_uv: Plane { offset: f.u, stride: f.stride@[1] as i32 },
        width: captured.width as i32,
        height: captured.height as i32,
    }
}

/// The conversion of a whole frame to I444.
pub open spec fn i444_call(captured: PixelBuffer, f: EncodeYuvFormat) -> RgbToI444 {
    RgbToI444 {
        kernel: Kernel::ARGBToI444,
        src: yuv_input(captured, f.pixfmt),
        dst_y: Plane { offset: 0, stride: f.stride@[0] as i32 },
        dst_u: Plane { offset: f.u, stride: f.stride@[1] as i32 },
        dst_v: Plane { offset: f.v, stride: f.stride@[2] as i32 },
        width: captured.width as i32,
        height: captured.height as i32,
    }
}

impl YuvConversion {
    /// Whether this is the conversion of a captured frame to a format.
    pub open spec fn converts(
        self,
        captured: PixelBuffer,
        f: EncodeYuvFormat,
        parallelism: Option<usize>,
    ) -> bool {
        &&& self.prepare == yuv_prepare(captured, f.pixfmt)
        &&& match self.main {
            YuvCalls::I420 { kernel, calls } => {
                &&& f.pixfmt is I420
                &&& kernel == main_kernel(captured.pixfmt, f.pixfmt)
                &&& calls@ == slices(i420_call(captured, f), parallelism)
            },
            YuvCalls::NV12 { kernel, calls } => {
                &&& f.pixfmt is NV12
                &&& kernel == main_kernel(captured.pixfmt, f.pixfmt)
                &&& calls@ == slices(nv12_call(captured, f), parallelism)
            },
            YuvCalls::I444 { call } => f.pixfmt is I444 && call == i444_call(captured, f),
        }
    }
}

/// A buffer brought to the length `n`: cut off, or filled up with zeros.
pub open spec fn resized(buffer: Seq<u8>, n: int) -> Seq<u8> {
    Seq::new(
        n as nat,
        |i: int|
            if i < buffer.len() {
                buffer[i]
            } else {
                0
            },
    )
}

fn resize(buffer: &mut Vec<u8>, n: usize)
    ensures
        final(buffer)@ == resized(old(buffer)@, n as int),
{
    let ghost before = buffer@;
    buffer.resize(n, 0);
    proof {
        assert(buffer@.len() == n);
        assert forall|i: int| 0 <= i < n implies #[trigger] buffer@[i] == resized(
            before,
            n as int,
        )[i] by {
            if n > before.len() && i < before.len() {
                assert(buffer@.subrange(0, before.len() as int)[i] == before[i]);
            }
        }
        assert(buffer@ =~= resized(before, n as int));
    }
}

fn align_up(x: usize) -> (r: usize)
    requires
        x + 63 <= usize::MAX,
    ensures
        r == align(x as int),
{
    (x + 63) / 64 * 64
}

/// Whether [`convert_to_yuv`] can be called: the checks can be made, and the sizes of a conversion
/// that they do not refuse are ones that a machine can hold.
pub fn yuv_fits(captured: &PixelBuffer, dst_fmt: &EncodeYuvFormat) -> (r: bool)
    ensures
        r == (yuv_checkable(*captured, *dst_fmt) && (yuv_refusal(*captured, *dst_fmt) is None
            ==> yuv_sizes_fit(*captured, *dst_fmt))),
{
    let (width, height) = (captured.width, captured.height);
    let bytes: u128 = match captured.pixfmt {
        Pixfmt::BGRA | Pixfmt::RGBA => 4,
        Pixfmt::RGB565LE => 2,
        _ => {
            return true;
        },
    };
    if width > dst_fmt.w || height > dst_fmt.h {
        return true;
    }
    if captured.stride.len() < 1 {
        return false;
    }
    let stride = captured.stride[0];
    let max: u128 = usize::MAX as u128;
    let needed: u128 = width as u128 * bytes;
    if needed > max {
        return false;
    }
    if (stride as u128) < needed {
        return true;
    }
    assert(0 <= stride as u128 * height as u128 <= 0xffff_ffff_ffff_ffff * 0xffff_ffff_ffff_ffff)
        by (nonlinear_arith)
        requires
            stride <= 0xffff_ffff_ffff_ffff,
            height <= 0xffff_ffff_ffff_ffff,
    ;
    let rows: u128 = stride as u128 * height as u128;
    if rows > max {
        return false;
    }
    if (captured.data.len() as u128) < rows {
        return true;
    }
    match dst_fmt.pixfmt {
        Pixfmt::I420 | Pixfmt::NV12 | Pixfmt::I444 => sizes_fit(captured, dst_fmt),
        _ => true,
    }
}

/// The next multiple of 64.
fn aligned(x: u128) -> (r: u128)
    requires
        x <= 0xffff_ffff_ffff_ffff,
    ensures
        r == align(x as int),
        x <= r <= x + 63,
{
    (x + 63) / 64 * 64
}

/// Whether `rows` rows of a plane start at addresses that exist.
fn plane_fits(offset: usize, stride: usize, rows: usize) -> (r: bool)
    requires
        stride <= i32::MAX,
        rows <= i32::MAX,
    ensures
        r == (rows > 0 ==> offset + (rows - 1) * stride <= usize::MAX),
{
    if rows == 0 {
        return true;
    }
    assert(0 <= (rows - 1) * stride <= 0x7fff_ffff * 0x7fff_ffff) by (nonlinear_arith)
        requires
            0 < rows <= 0x7fff_ffff,
            stride <= 0x7fff_ffff,
    ;
    offset as u128 + (rows - 1) as u128 * stride as u128 <= usize::MAX as u128
}

fn sizes_fit(captured: &PixelBuffer, f: &EncodeYuvFormat) -> (r: bool)
    requires
        captured.stride@.len() >= 1,
        captured.pixfmt.is_packed(),
        f.pixfmt.is_planar(),
    ensures
        r == yuv_sizes_fit(*captured, *f),
{
    let limit: usize = i32::MAX as usize;
    let max: u128 = usize::MAX as u128;
    let (w, h) = (captured.width, captured.height);
    if w > limit || h > limit || captured.stride[0] > limit || f.stride.len() < 2 || f.stride[0]
        > limit || f.stride[1] > limit {
        return false;
    }
    let (s0, s1) = (f.stride[0] as u128, f.stride[1] as u128);
    let fh = f.h as u128;
    let chroma_rows: usize = (h + 1) / 2;
    match f.pixfmt {
        Pixfmt::I420 => {
            assert(0 <= fh * s0 <= 0xffff_ffff_ffff_ffff * 0x7fff_ffff) by (nonlinear_arith)
                requires
                    fh <= 0xffff_ffff_ffff_ffff,
                    s0 <= 0x7fff_ffff,
            ;
            let len: u128 = fh * s0 * 2;
            assert(len == yuv_len(*f));
            if f.u as u128 > len || len > max || f.v as u128 > len {
                return false;
            }
            if !plane_fits(f.u, f.stride[1], chroma_rows) || !plane_fits(
                f.v,
                f.stride[1],
                chroma_rows,
            ) {
                return false;
            }
        },
        Pixfmt::NV12 => {
            let row: u128 = aligned(s0) + aligned(s1 / 2);
            let ah: u128 = aligned(fh);
            assert(0 <= ah * row <= 0x1_0000_0000_0000_0040 * 0x1_0000_0000) by (nonlinear_arith)
                requires
                    ah <= 0x1_0000_0000_0000_0040,
                    row <= 0x1_0000_0000,
            ;
            let len: u128 = ah * row;
            assert(len == yuv_len(*f));
            if f.u as u128 > len || len > max || fh + 63 > max || s0 + 63 > max || row > max {
                return false;
            }
            if !plane_fits(f.u, f.stride[1], chroma_rows) {
                return false;
            }
        },
        _ => {
            if f.stride.len() < 3 || f.stride[2] > limit {
                return false;
            }
            let s2 = f.stride[2] as u128;
            let row: u128 = aligned(s0) + aligned(s1) + aligned(s2);
            let ah: u128 = aligned(fh);
            assert(0 <= ah * row <= 0x1_0000_0000_0000_0040 * 0x2_0000_0000) by (nonlinear_arith)
                requires
                    ah <= 0x1_0000_0000_0000_0040,
                    row <= 0x2_0000_0000,
            ;
            let len: u128 = ah * row;
            assert(len == yuv_len(*f));
            if f.u as u128 > len || len > max || fh + 63 > max || row > max || f.v as u128 > len {
                return false;
            }
        },
    }
    let through = match (captured.pixfmt, f.pixfmt) {
        (Pixfmt::RGB565LE, Pixfmt::NV12) => true,
        (Pixfmt::RGB565LE, Pixfmt::I444) => true,
        (Pixfmt::RGBA, Pixfmt::I444) => true,
        _ => false,
    };
    if !through {
        return true;
    }
    let len: usize = captured.data.len();
    match captured.pixfmt {
        Pixfmt::RGBA => len as u128 <= max,
        _ => {
            assert(0 <= (w * 4) * h <= 0x1_ffff_fffc * 0x7fff_ffff) by (nonlinear_arith)
                requires
                    w <= 0x7fff_ffff,
                    h <= 0x7fff_ffff,
            ;
            let mid: u128 = w as u128 * 4;
            mid <= limit as u128 && mid * h as u128 <= max
        },
    }
}

/// Prepares the conversion of a captured frame for an encoder: sizes `dst`, and `mid_data` where
/// pixels go through it, and returns the calls to be made. Where the conversion is refused, both
/// buffers are left as they were.
pub fn convert_to_yuv(
    captured: &PixelBuffer,
    dst_fmt: &EncodeYuvFormat,
    dst: &mut Vec<u8>,
    mid_data: &mut Vec<u8>,
    parallelism: Option<usize>,
) -> (r: Result<YuvConversion, ConvertError>)
    requires
        yuv_checkable(*captured, *dst_fmt),
        yuv_refusal(*captured, *dst_fmt) is None ==> yuv_sizes_fit(*captured, *dst_fmt),
    ensures
        match r {
            Ok(c) => {
                &&& yuv_refusal(*captured, *dst_fmt) is None
                &&& c.converts(*captured, *dst_fmt, parallelism)
                &&& final(dst)@ == resized(old(dst)@, yuv_len(*dst_fmt))
                &&& final(mid_data)@ == (if goes_through_mid(captured.pixfmt, dst_fmt.pixfmt) {
                    resized(old(mid_data)@, mid_len(*captured))
                } else {
                    old(mid_data)@
                })
            },
            Err(e) => {
                &&& yuv_refusal(*captured, *dst_fmt) == Some(e)
                &&& final(dst)@ == old(dst)@
                &&& final(mid_data)@ == old(mid_data)@
            },
        },
{
    let (width, height) = (captured.width, captured.height);
    if width > dst_fmt.w || height > dst_fmt.h {
        return Err(
            ConvertError::SrcTooLarge {
                src_width: width,
                src_height: height,
                dst_width: dst_fmt.w,
                dst_height: dst_fmt.h,
            },
        );
    }
    let unsupported = ConvertError::Unsupported { from: captured.pixfmt, to: dst_fmt.pixfmt };
    let bytes: usize = match captured.pixfmt {
        Pixfmt::BGRA | Pixfmt::RGBA => 4,
        Pixfmt::RGB565LE => 2,
        _ => {
            return Err(unsupported);
        },
    };
    let src_stride = captured.stride[0];
    if src_stride < width * bytes {
        return Err(ConvertError::StrideTooSmall { stride: src_stride, needed: width * bytes });
    }
    if captured.data.len() < src_stride * height {
        return Err(
            ConvertError::WrongSrcLen { len: captured.data.len(), stride: src_stride, height },
        );
    }
    match dst_fmt.pixfmt {
        Pixfmt::I420 | Pixfmt::NV12 | Pixfmt::I444 => {},
        _ => {
            return Err(unsupported);
        },
    }
    let (w, h) = (width as i32, height as i32);
    let src = Plane { offset: 0, stride: src_stride as i32 };
    let prepare = prepare_call(captured, dst_fmt, mid_data);
    let input = match prepare {
        Some(call) => call.dst,
        None => src,
    };
    let y = Plane { offset: 0, stride: dst_fmt.stride[0] as i32 };
    let u = Plane { offset: dst_fmt.u, stride: dst_fmt.stride[1] as i32 };
    proof {
        lemma_planes_reach(*captured, *dst_fmt);
    }
    let main = match dst_fmt.pixfmt {
        Pixfmt::I420 => {
            proof {
                assert(dst_fmt.h * dst_fmt.stride@[0] <= yuv_len(*dst_fmt)) by (nonlinear_arith)
                    requires
                        yuv_len(*dst_fmt) == dst_fmt.h * dst_fmt.stride@[0] * 2,
                        dst_fmt.h >= 0,
                        dst_fmt.stride@[0] >= 0,
                ;
            }
            resize(dst, dst_fmt.h * dst_fmt.stride[0] * 2);
            let kernel = match captured.pixfmt {
                Pixfmt::BGRA => Kernel::ARGBToI420,
                Pixfmt::RGBA => Kernel::ABGRToI420,
                _ => Kernel::RGB565ToI420,
            };
            let call = RgbToI420 {
                src: input,
                dst_y: y,
                dst_u: u,
                dst_v: Plane { offset: dst_fmt.v, stride: dst_fmt.stride[1] as i32 },
                width: w,
                height: h,
            };
            YuvCalls::I420 { kernel, calls: par_rgb_to_i420(parallelism, call) }
        },
        Pixfmt::NV12 => {
            let row = align_up(dst_fmt.stride[0]) + align_up(dst_fmt.stride[1] / 2);
            resize(dst, align_up(dst_fmt.h) * row);
            let kernel = match captured.pixfmt {
                Pixfmt::RGBA => Kernel::ABGRToNV12,
                _ => Kernel::ARGBToNV12,
            };
            let call = RgbToNv12 { src: input, dst_y: y, dst_uv: u, width: w, height: h };
            YuvCalls::NV12 { kernel, calls: par_rgb_to_nv12(parallelism, call) }
        },
        _ => {
            let row = align_up(dst_fmt.stride[0]) + align_up(dst_fmt.stride[1]) + align_up(
                dst_fmt.stride[2],
            );
            resize(dst, align_up(dst_fmt.h) * row);
            let v = Plane { offset: dst_fmt.v, stride: dst_fmt.stride[2] as i32 };
            YuvCalls::I444 {
                call: RgbToI444 {
                    kernel: Kernel::ARGBToI444,
                    src: input,
                    dst_y: y,
                    dst_u: u,
                    dst_v: v,
                    width: w,
                    height: h,
                },
            }
        },
    };
    Ok(YuvConversion { prepare, main })
}

/// The call into the intermediate buffer, which is brought to its length.
fn prepare_call(captured: &PixelBuffer, dst_fmt: &EncodeYuvFormat, mid_data: &mut Vec<u8>) -> (r:
    Option<PackedCall>)
    requires
        captured.pixfmt.is_packed(),
        dst_fmt.pixfmt.is_planar(),
        captured.stride@.len() >= 1,
        yuv_sizes_fit(*captured, *dst_fmt),
    ensures
        r == yuv_prepare(*captured, dst_fmt.pixfmt),
        final(mid_data)@ == (if goes_through_mid(captured.pixfmt, dst_fmt.pixfmt) {
            resized(old(mid_data)@, mid_len(*captured))
        } else {
            old(mid_data)@
        }),
{
    let through = match (captured.pixfmt, dst_fmt.pixfmt) {
        (Pixfmt::RGB565LE, Pixfmt::NV12) => true,
        (Pixfmt::RGB565LE, Pixfmt::I444) => true,
        (Pixfmt::RGBA, Pixfmt::I444) => true,
        _ => false,
    };
    if !through {
        return None;
    }
    let (kernel, stride) = match captured.pixfmt {
        Pixfmt::RGBA => {
            resize(mid_data, captured.data.len());
            (Kernel::ABGRToARGB, captured.stride[0])
        },
        _ => {
            let stride = captured.width * 4;
            resize(mid_data, stride * captured.height);
            (Kernel::RGB565ToARGB, stride)
        },
    };
    Some(
        PackedCall {
            kernel,
            src: Plane { offset: 0, stride: captured.stride[0] as i32 },
            dst: Plane { offset: 0, stride: stride as i32 },
            width: captured.width as i32,
            height: captured.height as i32,
        },
    )
}

/// Every row that the main calls touch starts at an address that exists.
pub proof fn lemma_planes_reach(captured: PixelBuffer, f: EncodeYuvFormat)
    requires
        yuv_checkable(captured, f),
        yuv_refusal(captured, f) is None,
        yuv_sizes_fit(captured, f),
    ensures
        f.pixfmt is I420 ==> i420_call(captured, f).reaches(),
        f.pixfmt is NV12 ==> nv12_call(captured, f).reaches(),
{
    let h = captured.height as int;
    let st = captured.stride@[0] as int;
    let sy = f.stride@[0] as int;
    if h > 0 {
        assert((h - 1) * st <= st * h) by (nonlinear_arith)
            requires
                st >= 0,
        ;
        let mid = mid_stride(captured);
        if goes_through_mid(captured.pixfmt, f.pixfmt) && !(captured.pixfmt is RGBA) {
            assert((h - 1) * mid <= mid * h) by (nonlinear_arith)
                requires
                    mid >= 0,
            ;
        }
        if f.pixfmt is I420 {
            assert((h - 1) * sy <= f.h * sy * 2) by (nonlinear_arith)
                requires
                    0 < h <= f.h,
                    sy >= 0,
            ;
        } else if f.pixfmt is NV12 {
            let row = align(sy) + align(f.stride@[1] as int / 2);
            assert((h - 1) * sy <= align(f.h as int) * row) by (nonlinear_arith)
                requires
                    0 < h <= f.h <= align(f.h as int),
                    0 <= sy <= row,
            ;
        }
    }
}

/// What the code that a call ended with means for the conversion.
pub fn call_outcome(call: CallName, code: i32) -> (r: Result<(), ConvertError>)
    ensures
        r == (if code == 0 {
            Ok::<(), ConvertError>(())
        } else {
            Err(ConvertError::FailedCall { call, code })
        }),
{
    if code == 0 {
        Ok(())
    } else {
        Err(ConvertError::FailedCall { call, code })
    }
}

impl YuvCalls {
    /// What the calls are named as, if they fail.
    pub open spec fn called(self) -> CallName {
        match self {
            YuvCalls::I420 { .. } => CallName::ParRgbToI420,
            YuvCalls::NV12 { .. } => CallName::ParRgbToNv12,
            YuvCalls::I444 { call } => CallName::Kernel(call.kernel),
        }
    }

    /// What the calls are named as, if they fail.
    pub fn name(&self) -> (r: CallName)
        ensures
            r == self.called(),
    {
        match self {
            YuvCalls::I420 { .. } => CallName::ParRgbToI420,
            YuvCalls::NV12 { .. } => CallName::ParRgbToNv12,
            YuvCalls::I444 { call } => CallName::Kernel(call.kernel),
        }
    }
}

impl Pixfmt {
    /// The name of the format.
    pub open spec fn words(self) -> Seq<char> {
        match self {
            Pixfmt::BGRA => "BGRA"@,
            Pixfmt::RGBA => "RGBA"@,
            Pixfmt::RGB565LE => "RGB565LE"@,
            Pixfmt::I420 => "I420"@,
            Pixfmt::NV12 => "NV12"@,
            Pixfmt::I444 => "I444"@,
        }
    }

    fn name(self) -> (r: &'static str)
        ensures
            r@ == self.words(),
    {
        match self {
            Pixfmt::BGRA => "BGRA",
            Pixfmt::RGBA => "RGBA",
            Pixfmt::RGB565LE => "RGB565LE",
            Pixfmt::I420 => "I420",
            Pixfmt::NV12 => "NV12",
            Pixfmt::I444 => "I444",
        }
    }
}

impl CallName {
    /// The name of the call.
    pub open spec fn words(self) -> Seq<char> {
        match self {
            CallName::ParRgbToI420 => "par_rgb_to_i420"@,
            CallName::ParRgbToNv12 => "par_rgb_to_nv12"@,
            CallName::Kernel(Kernel::ARGBToI420) => "ARGBToI420"@,
            CallName::Kernel(Kernel::ABGRToI420) => "ABGRToI420"@,
            CallName::Kernel(Kernel::RGB565ToI420) => "RGB565ToI420"@,
            CallName::Kernel(Kernel::ARGBToNV12) => "ARGBToNV12"@,
            CallName::Kernel(Kernel::ABGRToNV12) => "ABGRToNV12"@,
            CallName::Kernel(Kernel::ARGBToI444) => "ARGBToI444"@,
            CallName::Kernel(Kernel::ABGRToARGB) => "ABGRToARGB"@,
            CallName::Kernel(Kernel::RGB565ToARGB) => "RGB565ToARGB"@,
        }
    }

    fn name(self) -> (r: &'static str)
        ensures
            r@ == self.words(),
    {
        match self {
            CallName::ParRgbToI420 => "par_rgb_to_i420",
            CallName::ParRgbToNv12 => "par_rgb_to_nv12",
            CallName::Kernel(Kernel::ARGBToI420) => "ARGBToI420",
            CallName::Kernel(Kernel::ABGRToI420) => "ABGRToI420",
            CallName::Kernel(Kernel::RGB565ToI420) => "RGB565ToI420",
            CallName::Kernel(Kernel::ARGBToNV12) => "ARGBToNV12",
            CallName::Kernel(Kernel::ABGRToNV12) => "ABGRToNV12",
            CallName::Kernel(Kernel::ARGBToI444) => "ARGBToI444",
            CallName::Kernel(Kernel::ABGRToARGB) => "ABGRToARGB",
            CallName::Kernel(Kernel::RGB565ToARGB) => "RGB565ToARGB",
        }
    }
}

/// What an error says.
pub open spec fn error_text(e: ConvertError) -> Seq<char> {
    match e {
        ConvertError::SrcTooLarge { src_width, src_height, dst_width, dst_height } =>
            "src rect > dst rect: ("@ + decimal(src_width as nat) + ", "@ + decimal(
            src_height as nat,
        ) + ") > ("@ + decimal(dst_width as nat) + ","@ + decimal(dst_height as nat) + ")"@,
        ConvertError::StrideTooSmall { stride, needed } => "src_stride too small: "@ + decimal(
            stride as nat,
        ) + " < "@ + decimal(needed as nat),
        ConvertError::WrongSrcLen { len, stride, height } => "wrong src len, "@ + decimal(
            len as nat,
        ) + " < "@ + decimal(stride as nat) + " * "@ + decimal(height as nat),
        ConvertError::Unsupported { from, to } => "unsupported pixfmt conversion: "@ + from.words()
            + " -> "@ + to.words(),
        ConvertError::FailedCall { call, code } => "errcode="@ + signed_decimal(code as int) + " "@
            + call.words(),
    }
}

impl ConvertError {
    /// What the error says.
    pub fn message(&self) -> (r: String)
        ensures
            r@ == error_text(*self),
    {
        match *self {
            ConvertError::SrcTooLarge { src_width, src_height, dst_width, dst_height } => {
                let mut r = "src rect > dst rect: (".to_owned();
                r.append(decimal_text(src_width as u64).as_str());
                r.append(", ");
                r.append(decimal_text(src_height as u64).as_str());
                r.append(") > (");
                r.append(decimal_text(dst_width as u64).as_str());
                r.append(",");
                r.append(decimal_text(dst_height as u64).as_str());
                r.append(")");
                r
            },
            ConvertError::StrideTooSmall { stride, needed } => {
                let mut r = "src_stride too small: ".to_owned();
                r.append(decimal_text(stride as u64).as_str());
                r.append(" < ");
                r.append(decimal_text(needed as u64).as_str());
                r
            },
            ConvertError::WrongSrcLen { len, stride, height } => {
                let mut r = "wrong src len, ".to_owned();
                r.append(decimal_text(len as u64).as_str());
                r.append(" < ");
                r.append(decimal_text(stride as u64).as_str());
                r.append(" * ");
                r.append(decimal_text(height as u64).as_str());
                r
            },
            ConvertError::Unsupported { from, to } => {
                let mut r = "unsupported pixfmt conversion: ".to_owned();
                r.append(from.name());
                r.append(" -> ");
                r.append(to.name());
                r
            },
            ConvertError::FailedCall { call, code } => {
                let mut r = "errcode=".to_owned();
                r.append(signed_decimal_text(code).as_str());
                r.append(" ");
                r.append(call.name());
                r
            },
        }
    }
}

/// Whether one packed format is had from the other by exchanging red and blue.
pub open spec fn swaps_red_blue(from: Pixfmt, to: Pixfmt) -> bool {
    from is BGRA && to is RGBA || from is RGBA && to is BGRA
}

/// The call that exchanges red and blue in a captured frame.
pub open spec fn swap_call(captured: PixelBuffer) -> PackedCall {
    PackedCall {
        kernel: Kernel::ABGRToARGB,
        src: Plane { offset: 0, stride: captured.stride@[0] as i32 },
        dst: Plane { offset: 0, stride: captured.stride@[0] as i32 },
        width: captured.width as i32,
        height: captured.height as i32,
    }
}

/// Prepares the conversion of a captured frame to another packed format. Pixels that are in that
/// format already are appended to `dst`, and nothing is left to be called; otherwise `dst` is
/// brought to the length of the frame for the call that is returned.
pub fn convert(captured: &PixelBuffer, pixfmt: Pixfmt, dst: &mut Vec<u8>) -> (r: Result<
    Option<PackedCall>,
    ConvertError,
>)
    requires
        swaps_red_blue(captured.pixfmt, pixfmt) ==> {
            &&& captured.stride@.len() >= 1
            &&& captured.stride@[0] <= i32::MAX
            &&& captured.width <= i32::MAX
            &&& captured.height <= i32::MAX
        },
    ensures
        if captured.pixfmt == pixfmt {
            r == Ok::<_, ConvertError>(None::<PackedCall>) && final(dst)@ == old(dst)@
                + captured.data@
        } else if swaps_red_blue(captured.pixfmt, pixfmt) {
            &&& r == Ok::<_, ConvertError>(Some(swap_call(*captured)))
            &&& final(dst)@ == resized(old(dst)@, captured.data@.len() as int)
        } else {
            &&& r == Err::<Option<PackedCall>, _>(
                (ConvertError::Unsupported { from: captured.pixfmt, to: pixfmt }),
            )
            &&& final(dst)@ == old(dst)@
        },
{
    if captured.pixfmt == pixfmt {
        dst.extend_from_slice(captured.data);
        assert(dst@ =~= old(dst)@ + captured.data@);
        return Ok(None);
    }
    match (captured.pixfmt, pixfmt) {
        (Pixfmt::BGRA, Pixfmt::RGBA) | (Pixfmt::RGBA, Pixfmt::BGRA) => {
            resize(dst, captured.data.len());
            let plane = Plane { offset: 0, stride: captured.stride[0] as i32 };
            Ok(
                Some(
                    PackedCall {
                        kernel: Kernel::ABGRToARGB,
                        src: plane,
                        dst: plane,
                        width: captured.width as i32,
                        height: captured.height as i32,
                    },
                ),
            )
        },
        _ => Err(ConvertError::Unsupported { from: captured.pixfmt, to: pixfmt }),
    }
}

/// Every row of a captured frame that is not refused lies inside its buffer.
pub proof fn law_source_rows_in_bounds(captured: PixelBuffer, f: EncodeYuvFormat, r: int)
    requires
        yuv_refusal(captured, f) is None,
        0 <= r < captured.height,
    ensures
        r * captured.stride@[0] + captured.width * captured.pixfmt.packed_bytes()
            <= captured.data@.len(),
{
    let st = captured.stride@[0] as int;
    let h = captured.height as int;
    assert((r + 1) * st <= st * h) by (nonlinear_arith)
        requires
            r + 1 <= h,
            st >= 0,
    ;
    assert((r + 1) * st == r * st + st) by (nonlinear_arith);
}

/// The destination holds all planes of a format whose planes follow one another.
pub proof fn law_destination_holds_planes(f: EncodeYuvFormat)
    requires
        f.pixfmt.is_planar(),
        f.u == f.h * f.stride@[0],
        match f.pixfmt {
            Pixfmt::I420 => {
                &&& 2 * f.stride@[1] <= f.stride@[0]
                &&& f.v == f.u + half_up(f.h as int) * f.stride@[1]
            },
            Pixfmt::NV12 => f.stride@[1] % 2 == 0,
            _ => f.v == f.u + f.h * f.stride@[1],
        },
    ensures
        match f.pixfmt {
            Pixfmt::I420 => f.v + half_up(f.h as int) * f.stride@[1] <= yuv_len(f),
            Pixfmt::NV12 => f.u + half_up(f.h as int) * f.stride@[1] <= yuv_len(f),
            _ => f.v + f.h * f.stride@[2] <= yuv_len(f),
        },
{
    let h = f.h as int;
    let (s0, s1) = (f.stride@[0] as int, f.stride@[1] as int);
    let c = half_up(h);
    if f.pixfmt is I420 {
        assert(h * s0 + c * s1 + c * s1 <= h * s0 * 2) by (nonlinear_arith)
            requires
                2 * s1 <= s0,
                0 <= s1,
                0 <= c <= h,
        ;
    } else if f.pixfmt is NV12 {
        let (a, b0, b1) = (align(h), align(s0), align(s1 / 2));
        lemma_mul_upper_bound(h, a, s0, b0);
        lemma_mul_upper_bound(s1, 2 * b1, c, c);
        lemma_mul_upper_bound(2 * c, a, b1, b1);
        assert(c * s1 == s1 * c && 2 * b1 * c == 2 * c * b1) by (nonlinear_arith);
        lemma_mul_is_distributive_add(a, b0, b1);
    } else {
        let s2 = f.stride@[2] as int;
        let (a, b0, b1, b2) = (align(h), align(s0), align(s1), align(s2));
        lemma_mul_upper_bound(h, a, s0, b0);
        lemma_mul_upper_bound(h, a, s1, b1);
        lemma_mul_upper_bound(h, a, s2, b2);
        lemma_mul_is_distributive_add(a, b0 + b1, b2);
        lemma_mul_is_distributive_add(a, b0, b1);
    }
}

/// What is wrong with a frame, if anything is, in the order in which it is looked at: it is larger
/// than the encoder's; its pixels are of no packed format; its rows are shorter than their pixels; its
/// buffer is shorter than its rows; the encoder takes no planar format. A frame with which nothing is
/// wrong is converted.
pub proof fn law_refusals_have_a_cause(captured: PixelBuffer, f: EncodeYuvFormat)
    requires
        yuv_checkable(captured, f),
        captured.data@.len() <= usize::MAX,
    ensures
        ({
            let (w, h) = (captured.width, captured.height);
            let four = captured.pixfmt is BGRA || captured.pixfmt is RGBA;
            let row = if four {
                w * 4
            } else {
                w * 2
            };
            let stride = captured.stride@[0];
            let refusal = yuv_refusal(captured, f);
            if w > f.w || h > f.h {
                refusal matches Some(
                    ConvertError::SrcTooLarge { src_width, src_height, dst_width, dst_height },
                ) && src_width == w && src_height == h && dst_width == f.w && dst_height == f.h
            } else if !four && !(captured.pixfmt is RGB565LE) {
                refusal matches Some(ConvertError::Unsupported { from, to }) && from
                    == captured.pixfmt && to == f.pixfmt
            } else if stride < row {
                refusal matches Some(ConvertError::StrideTooSmall { stride: s, needed }) && s
                    == stride && needed == row
            } else if captured.data@.len() < stride * h {
                refusal matches Some(ConvertError::WrongSrcLen { len, stride: s, height }) && len
                    == captured.data@.len() && s == stride && height == h
            } else if !(f.pixfmt is I420 || f.pixfmt is NV12 || f.pixfmt is I444) {
                refusal matches Some(ConvertError::Unsupported { from, to }) && from
                    == captured.pixfmt && to == f.pixfmt
            } else {
                refusal is None
            }
        }),
{
}

/// Whether `a` is the least multiple of 64 that is not less than `x`.
pub open spec fn is_aligned(x: int, a: int) -> bool {
    a % 64 == 0 && x <= a < x + 64
}

/// The destination of NV12 and I444 is as long as rows of all planes, of which each is brought to a
/// multiple of 64 bytes, times the height, brought to a multiple of 64 too; of the interleaved chroma
/// of NV12 half a row counts. That of I420 is twice as long as its luma.
pub proof fn law_destination_is_aligned(
    f: EncodeYuvFormat,
    h: int,
    s0: int,
    s1: int,
    half: int,
    s2: int,
)
    requires
        is_aligned(f.h as int, h),
        is_aligned(f.stride@[0] as int, s0),
        is_aligned(f.stride@[1] as int, s1),
        is_aligned(f.stride@[1] as int / 2, half),
        is_aligned(f.stride@[2] as int, s2),
    ensures
        f.pixfmt is NV12 ==> yuv_len(f) == h * (s0 + half),
        f.pixfmt is I444 ==> yuv_len(f) == h * (s0 + s1 + s2),
        f.pixfmt is I420 ==> yuv_len(f) == f.h * f.stride@[0] + f.h * f.stride@[0],
{
    assert(align(f.h as int) == h);
    assert(align(f.stride@[0] as int) == s0);
    assert(align(f.stride@[1] as int) == s1);
    assert(align(f.stride@[1] as int / 2) == half);
    assert(align(f.stride@[2] as int) == s2);
}

/// A buffer that is brought to a length has that length, keeps the bytes that it had there, and has
/// zeros behind them.
pub proof fn law_resized_buffer(buffer: Seq<u8>, n: int, i: int)
    requires
        0 <= i < n,
    ensures
        resized(buffer, n).len() == n,
        i < buffer.len() ==> resized(buffer, n)[i] == buffer[i],
        i >= buffer.len() ==> resized(buffer, n)[i] == 0,
{
}

/// The intermediate buffer holds the rows that are put into it, four bytes to a pixel.
pub proof fn law_intermediate_buffer_holds_rows(captured: PixelBuffer, f: EncodeYuvFormat)
    requires
        yuv_refusal(captured, f) is None,
        goes_through_mid(captured.pixfmt, f.pixfmt),
    ensures
        mid_stride(captured) >= 4 * captured.width,
        mid_len(captured) >= mid_stride(captured) * captured.height,
        captured.pixfmt is RGB565LE ==> mid_len(captured) == 4 * (captured.width * captured.height),
        captured.pixfmt is RGBA ==> mid_len(captured) == captured.data@.len(),
{
    assert((captured.width * 4) * captured.height == 4 * (captured.width * captured.height))
        by (nonlinear_arith);
}

/// Frames of up to 16384 pixels in each direction can be converted: their sizes fit, whatever the
/// format, if the planes start inside the destination.
pub proof fn law_ordinary_frames_fit(captured: PixelBuffer, f: EncodeYuvFormat)
    requires
        captured.pixfmt is BGRA || captured.pixfmt is RGBA || captured.pixfmt is RGB565LE,
        f.pixfmt is I420 || f.pixfmt is NV12 || f.pixfmt is I444,
        captured.width <= 16384,
        captured.height <= 16384,
        captured.stride@.len() >= 1,
        captured.stride@[0] <= 0x1_0000,
        captured.data@.len() <= usize::MAX,
        f.h <= 16384,
        f.stride@.len() >= 3,
        f.stride@[0] <= 16384,
        f.stride@[1] <= 16384,
        f.stride@[2] <= 16384,
        f.u <= yuv_len(f),
        f.v <= yuv_len(f),
    ensures
        yuv_checkable(captured, f),
        yuv_sizes_fit(captured, f),
{
    let (w, h, fh) = (captured.width as int, captured.height as int, f.h as int);
    let st = captured.stride@[0] as int;
    let (s0, s1, s2) = (f.stride@[0] as int, f.stride@[1] as int, f.stride@[2] as int);
    let (ah, a0, a1, a2, half) = (align(fh), align(s0), align(s1), align(s2), align(s1 / 2));
    let rows = half_up(h);
    assert(0 <= st * h <= 0x1_0000 * 16384) by (nonlinear_arith)
        requires
            0 <= st <= 0x1_0000,
            0 <= h <= 16384,
    ;
    assert(0 <= (w * 4) * h <= 0x1_0000 * 16384) by (nonlinear_arith)
        requires
            0 <= w <= 16384,
            0 <= h <= 16384,
    ;
    assert(0 <= fh * s0 * 2 <= 0x2000_0000) by (nonlinear_arith)
        requires
            0 <= fh <= 16384,
            0 <= s0 <= 16384,
    ;
    assert(0 <= ah * (a0 + half) <= 0x2000_0000) by (nonlinear_arith)
        requires
            0 <= ah <= 16384,
            0 <= a0 <= 16384,
            0 <= half <= 16384,
    ;
    assert(0 <= ah * (a0 + a1 + a2) <= 0x3000_0000) by (nonlinear_arith)
        requires
            0 <= ah <= 16384,
            0 <= a0 <= 16384,
            0 <= a1 <= 16384,
            0 <= a2 <= 16384,
    ;
    assert(rows > 0 ==> 0 <= (rows - 1) * s1 <= 0x1000_0000) by (nonlinear_arith)
        requires
            0 <= rows <= 16384,
            0 <= s1 <= 16384,
    ;
}

/// Red and blue are exchanged between BGRA and RGBA, in both directions, and between no others.
pub proof fn law_only_bgra_and_rgba_are_exchanged(from: Pixfmt, to: Pixfmt)
    ensures
        swaps_red_blue(from, to) <==> (from == Pixfmt::BGRA && to == Pixfmt::RGBA) || (from
            == Pixfmt::RGBA && to == Pixfmt::BGRA),
{
}

/// Calls of different names are told apart in what is said of them.
#[verifier::rlimit(40)]
#[verifier::spinoff_prover]
pub proof fn law_call_names_differ(a: CallName, b: CallName)
    ensures
        a.words() == b.words() ==> a == b,
{
    reveal_strlit("par_rgb_to_i420");
    reveal_strlit("par_rgb_to_nv12");
    reveal_strlit("ARGBToI420");
    reveal_strlit("ABGRToI420");
    reveal_strlit("RGB565ToI420");
    reveal_strlit("ARGBToNV12");
    reveal_strlit("ABGRToNV12");
    reveal_strlit("ARGBToI444");
    reveal_strlit("ABGRToARGB");
    reveal_strlit("RGB565ToARGB");
    let (s, t) = (a.words(), b.words());
    assert(s == t ==> s.len() == t.len() && s[0] == t[0] && s[1] == t[1] && s[4] == t[4] && s[6]
        == t[6] && s[7] == t[7] && s[8] == t[8] && s[9] == t[9] && s.last() == t.last() && s[s.len()
        - 4] == t[t.len() - 4] && s[s.len() - 2] == t[t.len() - 2]);
}

} // verus!
