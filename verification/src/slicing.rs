//! Why cutting a frame into row slices does not change a single byte of it.
//!
//! A 4:2:0 kernel derives each luma row from one row of the frame and each chroma row from a pair
//! of rows. A kernel is described here by what it computes for one row; everything else (planes,
//! strides, slices) is as the calls have it.
use crate::planes::{
    below, half_up, lemma_slice_inside, reaches, slices, Sliced, I420ToRgb, Nv12ToRgb, Plane,
    RgbToI420, RgbToNv12,
};
use crate::rows::{count_of, row_slices};
use vstd::arithmetic::div_mod::{lemma_fundamental_div_mod, lemma_fundamental_div_mod_converse};
use vstd::prelude::*;

verus! {

/// The buffer `dst` after the bytes for which `w` gives a value have been written.
pub open spec fn overwrite(dst: Seq<u8>, w: spec_fn(int) -> Option<u8>) -> Seq<u8> {
    Seq::new(
        dst.len(),
        |a: int|
            match w(a) {
                Some(b) => b,
                None => dst[a],
            },
    )
}

/// The buffer `dst` after several such writes, one after the other.
pub open spec fn overwrite_all(dst: Seq<u8>, ws: Seq<spec_fn(int) -> Option<u8>>) -> Seq<u8>
    decreases ws.len(),
{
    if ws.len() == 0 {
        dst
    } else {
        overwrite(overwrite_all(dst, ws.drop_last()), ws.last())
    }
}

/// Of two writes, the first where it gives a value.
pub open spec fn or_else(
    first: spec_fn(int) -> Option<u8>,
    second: spec_fn(int) -> Option<u8>,
) -> spec_fn(int) -> Option<u8> {
    |a: int|
        match first(a) {
            Some(b) => Some(b),
            None => second(a),
        }
}

/// The row of a plane that an address lies in.
pub open spec fn row_at(p: Plane, a: int) -> int {
    (a - p.offset) / (p.stride as int)
}

/// The distance of an address from the start of its row.
pub open spec fn col_at(p: Plane, a: int) -> int {
    (a - p.offset) % (p.stride as int)
}

/// Whether an address is one of the first `bytes` bytes of one of the first `rows` rows.
pub open spec fn in_area(p: Plane, rows: int, bytes: int, a: int) -> bool {
    &&& p.stride > 0
    &&& a >= p.offset
    &&& row_at(p, a) < rows
    &&& col_at(p, a) < bytes
}

/// Writing `bytes` bytes of each of `rows` rows, whose values depend on row and column.
pub open spec fn plane_write(
    p: Plane,
    rows: int,
    bytes: int,
    value: spec_fn(int, int) -> u8,
) -> spec_fn(int) -> Option<u8> {
    |a: int|
        if in_area(p, rows, bytes, a) {
            Some(value(row_at(p, a), col_at(p, a)))
        } else {
            None
        }
}

/// `bytes` bytes of row `r` of a plane.
pub open spec fn row_bytes(buffer: Seq<u8>, p: Plane, r: int, bytes: int) -> Seq<u8> {
    buffer.subrange(p.offset + r * p.stride, p.offset + r * p.stride + bytes)
}

/// The second row of the pair that starts at row `r`; the last row of a frame may stand alone.
pub open spec fn pair_row(r: int, h: int) -> int {
    if r + 1 < h {
        r + 1
    } else {
        r
    }
}

/// A kernel from packed pixels to NV12, at one width: how many bytes of a row it reads and
/// writes, and what it computes.
pub struct RgbToNv12Kernel {
    pub src_bytes: int,
    pub y_bytes: int,
    pub uv_bytes: int,
    pub luma: spec_fn(Seq<u8>, int) -> u8,
    pub chroma: spec_fn(Seq<u8>, Seq<u8>, int) -> u8,
}

/// A kernel from packed pixels to I420, at one width.
pub struct RgbToI420Kernel {
    pub src_bytes: int,
    pub y_bytes: int,
    pub u_bytes: int,
    pub v_bytes: int,
    pub luma: spec_fn(Seq<u8>, int) -> u8,
    pub chroma_u: spec_fn(Seq<u8>, Seq<u8>, int) -> u8,
    pub chroma_v: spec_fn(Seq<u8>, Seq<u8>, int) -> u8,
}

/// A kernel from NV12 to packed pixels, at one width.
pub struct Nv12ToRgbKernel {
    pub y_bytes: int,
    pub uv_bytes: int,
    pub dst_bytes: int,
    pub pixel: spec_fn(Seq<u8>, Seq<u8>, int) -> u8,
}

/// A kernel from I420 to packed pixels, at one width.
pub struct I420ToRgbKernel {
    pub y_bytes: int,
    pub u_bytes: int,
    pub v_bytes: int,
    pub dst_bytes: int,
    pub pixel: spec_fn(Seq<u8>, Seq<u8>, Seq<u8>, int) -> u8,
}

/// What a chroma row is computed from: a pair of rows of the frame.
pub open spec fn chroma_value(
    chroma: spec_fn(Seq<u8>, Seq<u8>, int) -> u8,
    src: Seq<u8>,
    p: Plane,
    bytes: int,
    h: int,
) -> spec_fn(int, int) -> u8 {
    |r: int, c: int|
        chroma(
            row_bytes(src, p, 2 * r, bytes),
            row_bytes(src, p, pair_row(2 * r, h), bytes),
            c,
        )
}

/// What a luma row is computed from: the row of the frame.
pub open spec fn luma_value(
    luma: spec_fn(Seq<u8>, int) -> u8,
    src: Seq<u8>,
    p: Plane,
    bytes: int,
) -> spec_fn(int, int) -> u8 {
    |r: int, c: int| luma(row_bytes(src, p, r, bytes), c)
}

/// What a row of packed pixels is computed from: its luma row, and the chroma row that it shares
/// with its neighbour.
pub open spec fn nv12_pixel_value(
    pixel: spec_fn(Seq<u8>, Seq<u8>, int) -> u8,
    src: Seq<u8>,
    y: Plane,
    y_bytes: int,
    uv: Plane,
    uv_bytes: int,
) -> spec_fn(int, int) -> u8 {
    |r: int, c: int|
        pixel(row_bytes(src, y, r, y_bytes), row_bytes(src, uv, r / 2, uv_bytes), c)
}

/// As [`nv12_pixel_value`], with the chroma in two planes.
pub open spec fn i420_pixel_value(
    k: I420ToRgbKernel,
    src: Seq<u8>,
    y: Plane,
    u: Plane,
    v: Plane,
) -> spec_fn(int, int) -> u8 {
    |r: int, c: int|
        (k.pixel)(
            row_bytes(src, y, r, k.y_bytes),
            row_bytes(src, u, r / 2, k.u_bytes),
            row_bytes(src, v, r / 2, k.v_bytes),
            c,
        )
}

impl RgbToNv12 {
    pub open spec fn luma_write(self, k: RgbToNv12Kernel, src: Seq<u8>) -> spec_fn(int) -> Option<
        u8,
    > {
        plane_write(
            self.dst_y,
            self.height as int,
            k.y_bytes,
            luma_value(k.luma, src, self.src, k.src_bytes),
        )
    }

    pub open spec fn chroma_write(self, k: RgbToNv12Kernel, src: Seq<u8>) -> spec_fn(int) -> Option<
        u8,
    > {
        plane_write(
            self.dst_uv,
            half_up(self.height as int),
            k.uv_bytes,
            chroma_value(k.chroma, src, self.src, k.src_bytes, self.height as int),
        )
    }

    /// What this call writes into the destination buffer.
    pub open spec fn write(self, k: RgbToNv12Kernel, src: Seq<u8>) -> spec_fn(int) -> Option<u8> {
        or_else(self.luma_write(k, src), self.chroma_write(k, src))
    }

    /// No byte of the destination belongs to both planes.
    pub open spec fn planes_apart(self, k: RgbToNv12Kernel) -> bool {
        let h = self.height as int;
        forall|a: int|
            !(#[trigger] in_area(self.dst_y, h, k.y_bytes, a) && in_area(
                self.dst_uv,
                half_up(h),
                k.uv_bytes,
                a,
            ))
    }
}

impl RgbToI420 {
    pub open spec fn luma_write(self, k: RgbToI420Kernel, src: Seq<u8>) -> spec_fn(int) -> Option<
        u8,
    > {
        plane_write(
            self.dst_y,
            self.height as int,
            k.y_bytes,
            luma_value(k.luma, src, self.src, k.src_bytes),
        )
    }

    pub open spec fn u_write(self, k: RgbToI420Kernel, src: Seq<u8>) -> spec_fn(int) -> Option<u8> {
        plane_write(
            self.dst_u,
            half_up(self.height as int),
            k.u_bytes,
            chroma_value(k.chroma_u, src, self.src, k.src_bytes, self.height as int),
        )
    }

    pub open spec fn v_write(self, k: RgbToI420Kernel, src: Seq<u8>) -> spec_fn(int) -> Option<u8> {
        plane_write(
            self.dst_v,
            half_up(self.height as int),
            k.v_bytes,
            chroma_value(k.chroma_v, src, self.src, k.src_bytes, self.height as int),
        )
    }

    /// What this call writes into the destination buffer.
    pub open spec fn write(self, k: RgbToI420Kernel, src: Seq<u8>) -> spec_fn(int) -> Option<u8> {
        or_else(self.luma_write(k, src), or_else(self.u_write(k, src), self.v_write(k, src)))
    }

    /// No byte of the destination belongs to two planes.
    pub open spec fn planes_apart(self, k: RgbToI420Kernel) -> bool {
        let h = self.height as int;
        forall|a: int|
            {
                let y = #[trigger] in_area(self.dst_y, h, k.y_bytes, a);
                let u = in_area(self.dst_u, half_up(h), k.u_bytes, a);
                let v = in_area(self.dst_v, half_up(h), k.v_bytes, a);
                !(y && u) && !(y && v) && !(u && v)
            }
    }
}

impl Nv12ToRgb {
    /// What this call writes into the destination buffer.
    pub open spec fn write(self, k: Nv12ToRgbKernel, src: Seq<u8>) -> spec_fn(int) -> Option<u8> {
        plane_write(
            self.dst,
            self.height as int,
            k.dst_bytes,
            nv12_pixel_value(k.pixel, src, self.src_y, k.y_bytes, self.src_uv, k.uv_bytes),
        )
    }
}

impl I420ToRgb {
    /// What this call writes into the destination buffer.
    pub open spec fn write(self, k: I420ToRgbKernel, src: Seq<u8>) -> spec_fn(int) -> Option<u8> {
        plane_write(
            self.dst,
            self.height as int,
            k.dst_bytes,
            i420_pixel_value(k, src, self.src_y, self.src_u, self.src_v),
        )
    }
}

/// Writes that agree with `full`, and together give a value wherever it does, have its effect,
/// in whatever order they come.
pub proof fn lemma_overwrite_all(
    dst: Seq<u8>,
    ws: Seq<spec_fn(int) -> Option<u8>>,
    full: spec_fn(int) -> Option<u8>,
)
    requires
        forall|i: int, a: int|
            0 <= i < ws.len() && (#[trigger] ws[i](a)) is Some ==> ws[i](a) == full(a),
        forall|a: int|
            (#[trigger] full(a)) is Some ==> exists|i: int|
                0 <= i < ws.len() && (#[trigger] ws[i](a)) is Some,
    ensures
        overwrite_all(dst, ws) == overwrite(dst, full),
{
    assert forall|a: int| 0 <= a < dst.len() implies overwrite_all(dst, ws)[a] == overwrite(
        dst,
        full,
    )[a] by {
        lemma_overwritten_byte(dst, ws, full, a);
    }
    lemma_overwrite_len(dst, ws);
    assert(overwrite_all(dst, ws) =~= overwrite(dst, full));
}

proof fn lemma_overwrite_len(dst: Seq<u8>, ws: Seq<spec_fn(int) -> Option<u8>>)
    ensures
        overwrite_all(dst, ws).len() == dst.len(),
    decreases ws.len(),
{
    if ws.len() > 0 {
        lemma_overwrite_len(dst, ws.drop_last());
    }
}

proof fn lemma_overwritten_byte(
    dst: Seq<u8>,
    ws: Seq<spec_fn(int) -> Option<u8>>,
    full: spec_fn(int) -> Option<u8>,
    a: int,
)
    requires
        0 <= a < dst.len(),
        forall|i: int| 0 <= i < ws.len() && (#[trigger] ws[i](a)) is Some ==> ws[i](a) == full(a),
    ensures
        (exists|i: int| 0 <= i < ws.len() && (#[trigger] ws[i](a)) is Some) ==> full(a) is Some
            && overwrite_all(dst, ws)[a] == full(a)->0,
        !(exists|i: int| 0 <= i < ws.len() && (#[trigger] ws[i](a)) is Some) ==> overwrite_all(
            dst,
            ws,
        )[a] == dst[a],
    decreases ws.len(),
{
    if ws.len() > 0 {
        let front = ws.drop_last();
        assert forall|i: int| 0 <= i < front.len() && (#[trigger] front[i](a)) is Some implies front[i](
            a,
        ) == full(a) by {
            assert(ws[i](a) == front[i](a));
        }
        lemma_overwritten_byte(dst, front, full, a);
        lemma_overwrite_len(dst, front);
        let last = ws.len() - 1;
        if ws[last](a) is Some {
            assert(ws.last()(a) is Some);
        } else if exists|i: int| 0 <= i < ws.len() && (#[trigger] ws[i](a)) is Some {
            let i = choose|i: int| 0 <= i < ws.len() && (#[trigger] ws[i](a)) is Some;
            assert(front[i](a) is Some);
        } else {
            assert forall|i: int| 0 <= i < front.len() implies (#[trigger] front[i](a)) is None by {
                assert(ws[i](a) is None);
            }
        }
    }
}

/// An address of the plane `rows` rows further down, seen from the plane itself.
proof fn lemma_below(p: Plane, s0: int, a: int)
    requires
        p.stride > 0,
        0 <= s0,
        p.offset + s0 * p.stride <= usize::MAX,
    ensures
        below(p, s0).offset == p.offset + s0 * p.stride,
        row_at(below(p, s0), a) == row_at(p, a) - s0,
        col_at(below(p, s0), a) == col_at(p, a),
        a >= p.offset ==> (a >= below(p, s0).offset <==> row_at(p, a) >= s0),
        a >= below(p, s0).offset ==> a >= p.offset,
{
    let st = p.stride as int;
    let d = a - p.offset;
    assert(0 <= s0 * st) by (nonlinear_arith)
        requires
            0 <= s0,
            0 < st,
    ;
    lemma_fundamental_div_mod(d, st);
    let (q, m) = (d / st, d % st);
    assert(d - s0 * st == (q - s0) * st + m) by (nonlinear_arith)
        requires
            d == st * q + m,
    ;
    lemma_fundamental_div_mod_converse(d - s0 * st, st, q - s0, m);
    if q >= s0 {
        assert(d >= s0 * st) by (nonlinear_arith)
            requires
                d == st * q + m,
                m >= 0,
                q >= s0,
                st > 0,
        ;
    } else {
        assert(d < s0 * st) by (nonlinear_arith)
            requires
                d == st * q + m,
                m < st,
                q <= s0 - 1,
                st > 0,
        ;
    }
}

/// A slice of a plane is written as the whole plane is, on the rows of the slice.
proof fn lemma_plane_slice(
    p: Plane,
    total: int,
    bytes: int,
    value: spec_fn(int, int) -> u8,
    s0: int,
    rows: int,
    part: spec_fn(int, int) -> u8,
    a: int,
)
    requires
        0 <= s0,
        0 <= rows,
        s0 + rows <= total,
        p.offset + s0 * p.stride <= usize::MAX,
        forall|r: int, c: int|
            0 <= r < rows ==> #[trigger] part(r, c) == value(s0 + r, c),
    ensures
        plane_write(below(p, s0), rows, bytes, part)(a) == (if s0 <= row_at(p, a) < s0 + rows {
            plane_write(p, total, bytes, value)(a)
        } else {
            None
        }),
{
    if p.stride > 0 {
        lemma_below(p, s0, a);
        if in_area(below(p, s0), rows, bytes, a) {
            let r = row_at(below(p, s0), a);
            let c = col_at(below(p, s0), a);
            assert(r >= 0) by {
                vstd::arithmetic::div_mod::lemma_div_pos_is_pos(
                    a - below(p, s0).offset,
                    p.stride as int,
                );
            }
            assert(part(r, c) == value(s0 + r, c));
        }
    }
}

/// Some slice of a cut frame holds row `r`.
proof fn lemma_row_covered(parallelism: Option<usize>, width: i32, height: i32, r: int) -> (k: int)
    requires
        row_slices(parallelism, width, height).len() > 1,
        0 <= r < height,
    ensures
        0 <= k < row_slices(parallelism, width, height).len(),
        row_slices(parallelism, width, height)[k].0 <= r,
        r < row_slices(parallelism, width, height)[k].0 + row_slices(
            parallelism,
            width,
            height,
        )[k].1,
{
    let threads = crate::rows::thread_budget(parallelism);
    let (w, h) = (count_of(width), count_of(height));
    crate::rows::lemma_cut_has_rows(threads, w, h);
    let rows = crate::rows::rows_per_slice(threads, h);
    let n = crate::rows::slice_count(rows, h) as int;
    let k = r / rows;
    lemma_fundamental_div_mod(r, rows);
    assert(0 <= k) by (nonlinear_arith)
        requires
            k == r / rows,
            r >= 0,
            rows > 0,
    ;
    assert(k < n) by (nonlinear_arith)
        requires
            k == r / rows,
            n == (h + rows - 1) / rows,
            r <= h - 1,
            rows > 0,
    ;
    assert(k * rows <= r < k * rows + rows) by (nonlinear_arith)
        requires
            r == rows * k + r % rows,
            0 <= r % rows < rows,
    ;
    crate::rows::lemma_slices_tile(threads, w, h, k);
    k
}

/// A row of a slice of the source is a row of the source.
proof fn lemma_row_bytes_below(buffer: Seq<u8>, p: Plane, s0: int, r: int, bytes: int)
    requires
        0 <= s0,
        0 <= p.stride,
        p.offset + s0 * p.stride <= usize::MAX,
    ensures
        row_bytes(buffer, below(p, s0), r, bytes) == row_bytes(buffer, p, s0 + r, bytes),
{
    let st = p.stride as int;
    assert((s0 + r) * st == s0 * st + r * st) by (nonlinear_arith);
    assert(0 <= s0 * st) by (nonlinear_arith)
        requires
            0 <= s0,
            0 <= st,
    ;
}

proof fn lemma_reaches_below(p: Plane, all: int, s0: int)
    requires
        reaches(p, all),
        0 <= s0 < all,
    ensures
        p.offset + s0 * p.stride <= usize::MAX,
{
    assert(s0 * p.stride <= (all - 1) * p.stride) by (nonlinear_arith)
        requires
            0 <= s0 <= all - 1,
            p.stride >= 0,
    ;
}

/// Where a luma slice writes, it writes what the whole frame's luma has there.
proof fn lemma_luma_slice(
    luma: spec_fn(Seq<u8>, int) -> u8,
    buffer: Seq<u8>,
    src: Plane,
    src_bytes: int,
    dst: Plane,
    dst_bytes: int,
    h: int,
    y0: int,
    rows: int,
    a: int,
)
    requires
        0 <= y0,
        0 < rows,
        y0 + rows <= h,
        reaches(src, h),
        reaches(dst, h),
    ensures
        plane_write(
            below(dst, y0),
            rows,
            dst_bytes,
            luma_value(luma, buffer, below(src, y0), src_bytes),
        )(a) == (if y0 <= row_at(dst, a) < y0 + rows {
            plane_write(dst, h, dst_bytes, luma_value(luma, buffer, src, src_bytes))(a)
        } else {
            None
        }),
{
    lemma_reaches_below(src, h, y0);
    lemma_reaches_below(dst, h, y0);
    let value = luma_value(luma, buffer, src, src_bytes);
    let part = luma_value(luma, buffer, below(src, y0), src_bytes);
    assert forall|r: int, c: int| 0 <= r < rows implies #[trigger] part(r, c) == value(
        y0 + r,
        c,
    ) by {
        lemma_row_bytes_below(buffer, src, y0, r, src_bytes);
    }
    lemma_plane_slice(dst, h, dst_bytes, value, y0, rows, part, a);
}

/// Where a chroma slice writes, it writes what the whole frame's chroma has there.
proof fn lemma_chroma_slice(
    chroma: spec_fn(Seq<u8>, Seq<u8>, int) -> u8,
    buffer: Seq<u8>,
    src: Plane,
    src_bytes: int,
    dst: Plane,
    dst_bytes: int,
    h: int,
    y0: int,
    rows: int,
    a: int,
)
    requires
        0 <= y0,
        y0 % 2 == 0,
        0 < rows,
        y0 + rows <= h,
        rows % 2 == 1 ==> y0 + rows == h,
        reaches(src, h),
        reaches(dst, half_up(h)),
    ensures
        plane_write(
            below(dst, y0 / 2),
            half_up(rows),
            dst_bytes,
            chroma_value(chroma, buffer, below(src, y0), src_bytes, rows),
        )(a) == (if y0 / 2 <= row_at(dst, a) < y0 / 2 + half_up(rows) {
            plane_write(
                dst,
                half_up(h),
                dst_bytes,
                chroma_value(chroma, buffer, src, src_bytes, h),
            )(a)
        } else {
            None
        }),
{
    lemma_reaches_below(src, h, y0);
    lemma_reaches_below(dst, half_up(h), y0 / 2);
    let value = chroma_value(chroma, buffer, src, src_bytes, h);
    let part = chroma_value(chroma, buffer, below(src, y0), src_bytes, rows);
    assert forall|r: int, c: int| 0 <= r < half_up(rows) implies #[trigger] part(r, c) == value(
        y0 / 2 + r,
        c,
    ) by {
        lemma_row_bytes_below(buffer, src, y0, 2 * r, src_bytes);
        lemma_row_bytes_below(buffer, src, y0, pair_row(2 * r, rows), src_bytes);
        assert(2 * (y0 / 2 + r) == y0 + 2 * r);
        assert(pair_row(y0 + 2 * r, h) == y0 + pair_row(2 * r, rows));
    }
    lemma_plane_slice(dst, half_up(h), dst_bytes, value, y0 / 2, half_up(rows), part, a);
}

/// The slices of a cut frame share no row, and no pair of rows.
proof fn lemma_slices_ordered(parallelism: Option<usize>, width: i32, height: i32, i: int, j: int)
    requires
        row_slices(parallelism, width, height).len() > 1,
        0 <= i < j < row_slices(parallelism, width, height).len(),
    ensures
        ({
            let cut = row_slices(parallelism, width, height);
            &&& cut[i].0 + cut[i].1 <= cut[j].0
            &&& cut[i].0 / 2 + half_up(cut[i].1 as int) <= cut[j].0 / 2
        }),
{
    let threads = crate::rows::thread_budget(parallelism);
    let (w, h) = (count_of(width), count_of(height));
    let rows = crate::rows::rows_per_slice(threads, h);
    crate::rows::lemma_cut_has_rows(threads, w, h);
    crate::rows::lemma_slices_tile(threads, w, h, i);
    crate::rows::lemma_slices_tile(threads, w, h, j);
    assert((i + 1) * rows <= j * rows) by (nonlinear_arith)
        requires
            i + 1 <= j,
            rows > 0,
    ;
    assert((i + 1) * rows == i * rows + rows) by (nonlinear_arith);
}

/// Where a slice of packed pixels is written from NV12, it is written as in the whole frame.
proof fn lemma_nv12_pixel_slice(
    k: Nv12ToRgbKernel,
    buffer: Seq<u8>,
    call: Nv12ToRgb,
    y0: int,
    rows: int,
    a: int,
)
    requires
        0 <= y0,
        y0 % 2 == 0,
        0 < rows,
        y0 + rows <= call.height,
        call.reaches(),
    ensures
        call.slice(y0, rows).write(k, buffer)(a) == (if y0 <= row_at(call.dst, a) < y0 + rows {
            call.write(k, buffer)(a)
        } else {
            None
        }),
{
    let h = call.height as int;
    lemma_reaches_below(call.src_y, h, y0);
    lemma_reaches_below(call.src_uv, half_up(h), y0 / 2);
    lemma_reaches_below(call.dst, h, y0);
    let cut = call.slice(y0, rows);
    let value = nv12_pixel_value(k.pixel, buffer, call.src_y, k.y_bytes, call.src_uv, k.uv_bytes);
    let part = nv12_pixel_value(k.pixel, buffer, cut.src_y, k.y_bytes, cut.src_uv, k.uv_bytes);
    assert forall|r: int, c: int| 0 <= r < rows implies #[trigger] part(r, c) == value(
        y0 + r,
        c,
    ) by {
        lemma_row_bytes_below(buffer, call.src_y, y0, r, k.y_bytes);
        lemma_row_bytes_below(buffer, call.src_uv, y0 / 2, r / 2, k.uv_bytes);
        assert((y0 + r) / 2 == y0 / 2 + r / 2);
    }
    lemma_plane_slice(call.dst, h, k.dst_bytes, value, y0, rows, part, a);
}

/// Where a slice of packed pixels is written from I420, it is written as in the whole frame.
proof fn lemma_i420_pixel_slice(
    k: I420ToRgbKernel,
    buffer: Seq<u8>,
    call: I420ToRgb,
    y0: int,
    rows: int,
    a: int,
)
    requires
        0 <= y0,
        y0 % 2 == 0,
        0 < rows,
        y0 + rows <= call.height,
        call.reaches(),
    ensures
        call.slice(y0, rows).write(k, buffer)(a) == (if y0 <= row_at(call.dst, a) < y0 + rows {
            call.write(k, buffer)(a)
        } else {
            None
        }),
{
    let h = call.height as int;
    lemma_reaches_below(call.src_y, h, y0);
    lemma_reaches_below(call.src_u, half_up(h), y0 / 2);
    lemma_reaches_below(call.src_v, half_up(h), y0 / 2);
    lemma_reaches_below(call.dst, h, y0);
    let cut = call.slice(y0, rows);
    let value = i420_pixel_value(k, buffer, call.src_y, call.src_u, call.src_v);
    let part = i420_pixel_value(k, buffer, cut.src_y, cut.src_u, cut.src_v);
    assert forall|r: int, c: int| 0 <= r < rows implies #[trigger] part(r, c) == value(
        y0 + r,
        c,
    ) by {
        lemma_row_bytes_below(buffer, call.src_y, y0, r, k.y_bytes);
        lemma_row_bytes_below(buffer, call.src_u, y0 / 2, r / 2, k.u_bytes);
        lemma_row_bytes_below(buffer, call.src_v, y0 / 2, r / 2, k.v_bytes);
        assert((y0 + r) / 2 == y0 / 2 + r / 2);
    }
    lemma_plane_slice(call.dst, h, k.dst_bytes, value, y0, rows, part, a);
}

/// Where a slice of NV12 is written, it is written as in the whole frame.
proof fn lemma_to_nv12_slice(
    k: RgbToNv12Kernel,
    buffer: Seq<u8>,
    call: RgbToNv12,
    y0: int,
    rows: int,
    a: int,
)
    requires
        0 <= y0,
        y0 % 2 == 0,
        0 < rows,
        y0 + rows <= call.height,
        rows % 2 == 1 ==> y0 + rows == call.height,
        call.reaches(),
    ensures
        call.slice(y0, rows).luma_write(k, buffer)(a) == (if y0 <= row_at(call.dst_y, a) < y0 + rows {
            call.luma_write(k, buffer)(a)
        } else {
            None
        }),
        call.slice(y0, rows).chroma_write(k, buffer)(a) == (if y0 / 2 <= row_at(call.dst_uv, a) < y0
            / 2 + half_up(rows) {
            call.chroma_write(k, buffer)(a)
        } else {
            None
        }),
{
    let h = call.height as int;
    lemma_luma_slice(k.luma, buffer, call.src, k.src_bytes, call.dst_y, k.y_bytes, h, y0, rows, a);
    lemma_chroma_slice(
        k.chroma,
        buffer,
        call.src,
        k.src_bytes,
        call.dst_uv,
        k.uv_bytes,
        h,
        y0,
        rows,
        a,
    );
}

/// Where a slice of I420 is written, it is written as in the whole frame.
proof fn lemma_to_i420_slice(
    k: RgbToI420Kernel,
    buffer: Seq<u8>,
    call: RgbToI420,
    y0: int,
    rows: int,
    a: int,
)
    requires
        0 <= y0,
        y0 % 2 == 0,
        0 < rows,
        y0 + rows <= call.height,
        rows % 2 == 1 ==> y0 + rows == call.height,
        call.reaches(),
    ensures
        call.slice(y0, rows).luma_write(k, buffer)(a) == (if y0 <= row_at(call.dst_y, a) < y0 + rows {
            call.luma_write(k, buffer)(a)
        } else {
            None
        }),
        call.slice(y0, rows).u_write(k, buffer)(a) == (if y0 / 2 <= row_at(call.dst_u, a) < y0 / 2
            + half_up(rows) {
            call.u_write(k, buffer)(a)
        } else {
            None
        }),
        call.slice(y0, rows).v_write(k, buffer)(a) == (if y0 / 2 <= row_at(call.dst_v, a) < y0 / 2
            + half_up(rows) {
            call.v_write(k, buffer)(a)
        } else {
            None
        }),
{
    let h = call.height as int;
    let n = k.src_bytes;
    lemma_luma_slice(k.luma, buffer, call.src, n, call.dst_y, k.y_bytes, h, y0, rows, a);
    lemma_chroma_slice(k.chroma_u, buffer, call.src, n, call.dst_u, k.u_bytes, h, y0, rows, a);
    lemma_chroma_slice(k.chroma_v, buffer, call.src, n, call.dst_v, k.v_bytes, h, y0, rows, a);
}

/// An address inside a plane lies in a row of it.
proof fn lemma_row_at_nonneg(p: Plane, a: int)
    requires
        p.stride > 0,
        a >= p.offset,
    ensures
        row_at(p, a) >= 0,
{
    vstd::arithmetic::div_mod::lemma_div_pos_is_pos(a - p.offset, p.stride as int);
}

/// The first row of a pair is a row of the frame.
proof fn lemma_first_of_pair(r: int, h: int)
    requires
        r < half_up(h),
    ensures
        2 * r < h,
{
}

/// A kernel that can be called on slices of a frame, at one width.
pub trait RowKernel: Sized {
    type Call: Sliced;

    /// What a call writes into the destination buffer.
    spec fn writes(self, call: Self::Call, src: Seq<u8>) -> spec_fn(int) -> Option<u8>;

    /// No byte of the destination belongs to two planes.
    spec fn apart(self, call: Self::Call) -> bool;

    /// The row of the frame that a byte of the destination is derived from, or the first of two.
    spec fn row_of(self, call: Self::Call, a: int) -> int;

    /// What is written is derived from a row of the frame.
    proof fn lemma_row(self, call: Self::Call, src: Seq<u8>, a: int)
        requires
            self.writes(call, src)(a) is Some,
        ensures
            0 <= self.row_of(call, a) < call.size().1,
    ;

    /// A slice is written as in the whole frame, and nothing else is.
    proof fn lemma_slice(self, call: Self::Call, src: Seq<u8>, y0: int, rows: int, a: int)
        requires
            call.reaches(),
            self.apart(call),
            0 <= y0,
            y0 % 2 == 0,
            0 < rows,
            y0 + rows <= call.size().1,
            rows % 2 == 1 ==> y0 + rows == call.size().1,
        ensures
            self.writes(call.slice(y0, rows), src)(a) == (if y0 <= self.row_of(call, a) < y0
                + rows {
                self.writes(call, src)(a)
            } else {
                None
            }),
    ;
}

impl RowKernel for RgbToNv12Kernel {
    type Call = RgbToNv12;

    open spec fn writes(self, call: RgbToNv12, src: Seq<u8>) -> spec_fn(int) -> Option<u8> {
        call.write(self, src)
    }

    open spec fn apart(self, call: RgbToNv12) -> bool {
        call.planes_apart(self)
    }

    open spec fn row_of(self, call: RgbToNv12, a: int) -> int {
        if in_area(call.dst_y, call.height as int, self.y_bytes, a) {
            row_at(call.dst_y, a)
        } else {
            2 * row_at(call.dst_uv, a)
        }
    }

    proof fn lemma_row(self, call: RgbToNv12, src: Seq<u8>, a: int) {
        assert(call.size() == (call.width, call.height));
        if in_area(call.dst_y, call.height as int, self.y_bytes, a) {
            lemma_row_at_nonneg(call.dst_y, a);
        } else {
            assert(in_area(call.dst_uv, half_up(call.height as int), self.uv_bytes, a));
            lemma_row_at_nonneg(call.dst_uv, a);
            lemma_first_of_pair(row_at(call.dst_uv, a), call.height as int);
        }
    }

    proof fn lemma_slice(self, call: RgbToNv12, src: Seq<u8>, y0: int, rows: int, a: int) {
        lemma_to_nv12_slice(self, src, call, y0, rows, a);
    }
}

impl RowKernel for RgbToI420Kernel {
    type Call = RgbToI420;

    open spec fn writes(self, call: RgbToI420, src: Seq<u8>) -> spec_fn(int) -> Option<u8> {
        call.write(self, src)
    }

    open spec fn apart(self, call: RgbToI420) -> bool {
        call.planes_apart(self)
    }

    open spec fn row_of(self, call: RgbToI420, a: int) -> int {
        let h = call.height as int;
        if in_area(call.dst_y, h, self.y_bytes, a) {
            row_at(call.dst_y, a)
        } else if in_area(call.dst_u, half_up(h), self.u_bytes, a) {
            2 * row_at(call.dst_u, a)
        } else {
            2 * row_at(call.dst_v, a)
        }
    }

    proof fn lemma_row(self, call: RgbToI420, src: Seq<u8>, a: int) {
        assert(call.size() == (call.width, call.height));
        let h = call.height as int;
        if in_area(call.dst_y, h, self.y_bytes, a) {
            lemma_row_at_nonneg(call.dst_y, a);
        } else if in_area(call.dst_u, half_up(h), self.u_bytes, a) {
            lemma_row_at_nonneg(call.dst_u, a);
            lemma_first_of_pair(row_at(call.dst_u, a), h);
        } else {
            assert(in_area(call.dst_v, half_up(h), self.v_bytes, a));
            lemma_row_at_nonneg(call.dst_v, a);
            lemma_first_of_pair(row_at(call.dst_v, a), h);
        }
    }

    proof fn lemma_slice(self, call: RgbToI420, src: Seq<u8>, y0: int, rows: int, a: int) {
        lemma_to_i420_slice(self, src, call, y0, rows, a);
    }
}

impl RowKernel for Nv12ToRgbKernel {
    type Call = Nv12ToRgb;

    open spec fn writes(self, call: Nv12ToRgb, src: Seq<u8>) -> spec_fn(int) -> Option<u8> {
        call.write(self, src)
    }

    open spec fn apart(self, call: Nv12ToRgb) -> bool {
        true
    }

    open spec fn row_of(self, call: Nv12ToRgb, a: int) -> int {
        row_at(call.dst, a)
    }

    proof fn lemma_row(self, call: Nv12ToRgb, src: Seq<u8>, a: int) {
        lemma_row_at_nonneg(call.dst, a);
    }

    proof fn lemma_slice(self, call: Nv12ToRgb, src: Seq<u8>, y0: int, rows: int, a: int) {
        lemma_nv12_pixel_slice(self, src, call, y0, rows, a);
    }
}

impl RowKernel for I420ToRgbKernel {
    type Call = I420ToRgb;

    open spec fn writes(self, call: I420ToRgb, src: Seq<u8>) -> spec_fn(int) -> Option<u8> {
        call.write(self, src)
    }

    open spec fn apart(self, call: I420ToRgb) -> bool {
        true
    }

    open spec fn row_of(self, call: I420ToRgb, a: int) -> int {
        row_at(call.dst, a)
    }

    proof fn lemma_row(self, call: I420ToRgb, src: Seq<u8>, a: int) {
        lemma_row_at_nonneg(call.dst, a);
    }

    proof fn lemma_slice(self, call: I420ToRgb, src: Seq<u8>, y0: int, rows: int, a: int) {
        lemma_i420_pixel_slice(self, src, call, y0, rows, a);
    }
}

/// The effect of calls of a kernel, one after the other, on the buffer `dst`.
pub open spec fn run<K: RowKernel>(k: K, src: Seq<u8>, dst: Seq<u8>, calls: Seq<K::Call>) -> Seq<
    u8,
> {
    overwrite_all(dst, calls.map_values(|c: K::Call| k.writes(c, src)))
}

/// Converting the slices of a frame, in any order, leaves the same bytes as converting the frame by
/// a single call.
pub proof fn law_slices_match_single<K: RowKernel>(
    k: K,
    parallelism: Option<usize>,
    call: K::Call,
    src: Seq<u8>,
    dst: Seq<u8>,
    order: Seq<K::Call>,
)
    requires
        call.reaches(),
        k.apart(call),
        forall|c: K::Call| order.contains(c) <==> slices(call, parallelism).contains(c),
    ensures
        run(k, src, dst, order) == run(k, src, dst, seq![call]),
{
    let parts = slices(call, parallelism);
    let (width, height) = call.size();
    let cut = row_slices(parallelism, width, height);
    let ws = order.map_values(|c: K::Call| k.writes(c, src));
    let full = k.writes(call, src);
    assert forall|i: int, a: int| 0 <= i < ws.len() && (#[trigger] ws[i](a)) is Some implies ws[i](
        a,
    ) == full(a) by {
        assert(order.contains(order[i]));
        let j = choose|j: int| 0 <= j < parts.len() && parts[j] == order[i];
        if cut.len() > 1 {
            lemma_slice_inside(parallelism, width, height, j);
            k.lemma_slice(call, src, cut[j].0 as int, cut[j].1 as int, a);
        }
    }
    assert forall|a: int| (#[trigger] full(a)) is Some implies exists|i: int|
        0 <= i < ws.len() && (#[trigger] ws[i](a)) is Some by {
        let j = if cut.len() > 1 {
            k.lemma_row(call, src, a);
            let j = lemma_row_covered(parallelism, width, height, k.row_of(call, a));
            lemma_slice_inside(parallelism, width, height, j);
            k.lemma_slice(call, src, cut[j].0 as int, cut[j].1 as int, a);
            j
        } else {
            0
        };
        assert(k.writes(parts[j], src)(a) is Some);
        assert(parts.contains(parts[j]));
        assert(order.contains(parts[j]));
        let i = choose|i: int| 0 <= i < order.len() && order[i] == parts[j];
        assert(ws[i](a) is Some);
    }
    lemma_overwrite_all(dst, ws, full);
    let single = seq![call].map_values(|c: K::Call| k.writes(c, src));
    assert(single.drop_last() =~= Seq::empty());
    assert(overwrite_all(dst, single) == overwrite(overwrite_all(dst, single.drop_last()), full));
}

/// No byte is written by two slices of a frame: the slices may be converted at the same time.
pub proof fn law_slices_apart<K: RowKernel>(
    k: K,
    parallelism: Option<usize>,
    call: K::Call,
    src: Seq<u8>,
    i: int,
    j: int,
    a: int,
)
    requires
        call.reaches(),
        k.apart(call),
        0 <= i < j < slices(call, parallelism).len(),
    ensures
        k.writes(slices(call, parallelism)[i], src)(a) is None || k.writes(
            slices(call, parallelism)[j],
            src,
        )(a) is None,
{
    let (width, height) = call.size();
    let cut = row_slices(parallelism, width, height);
    lemma_slices_ordered(parallelism, width, height, i, j);
    lemma_slice_inside(parallelism, width, height, i);
    lemma_slice_inside(parallelism, width, height, j);
    k.lemma_slice(call, src, cut[i].0 as int, cut[i].1 as int, a);
    k.lemma_slice(call, src, cut[j].0 as int, cut[j].1 as int, a);
}

/// Converting the slices of a frame from packed pixels to NV12, in any order, leaves the same bytes
/// as converting the frame by a single call.
pub proof fn law_par_rgb_to_nv12_matches_single(
    k: RgbToNv12Kernel,
    parallelism: Option<usize>,
    call: RgbToNv12,
    src: Seq<u8>,
    dst: Seq<u8>,
    order: Seq<RgbToNv12>,
)
    requires
        call.reaches(),
        call.planes_apart(k),
        forall|c: RgbToNv12| order.contains(c) <==> slices(call, parallelism).contains(c),
    ensures
        run(k, src, dst, order) == run(k, src, dst, seq![call]),
{
    law_slices_match_single(k, parallelism, call, src, dst, order);
}

/// Converting the slices of a frame from packed pixels to I420, in any order, leaves the same bytes
/// as converting the frame by a single call.
pub proof fn law_par_rgb_to_i420_matches_single(
    k: RgbToI420Kernel,
    parallelism: Option<usize>,
    call: RgbToI420,
    src: Seq<u8>,
    dst: Seq<u8>,
    order: Seq<RgbToI420>,
)
    requires
        call.reaches(),
        call.planes_apart(k),
        forall|c: RgbToI420| order.contains(c) <==> slices(call, parallelism).contains(c),
    ensures
        run(k, src, dst, order) == run(k, src, dst, seq![call]),
{
    law_slices_match_single(k, parallelism, call, src, dst, order);
}

/// Converting the slices of a frame from NV12 to packed pixels, in any order, leaves the same bytes
/// as converting the frame by a single call.
pub proof fn law_par_nv12_to_rgb_matches_single(
    k: Nv12ToRgbKernel,
    parallelism: Option<usize>,
    call: Nv12ToRgb,
    src: Seq<u8>,
    dst: Seq<u8>,
    order: Seq<Nv12ToRgb>,
)
    requires
        call.reaches(),
        forall|c: Nv12ToRgb| order.contains(c) <==> slices(call, parallelism).contains(c),
    ensures
        run(k, src, dst, order) == run(k, src, dst, seq![call]),
{
    law_slices_match_single(k, parallelism, call, src, dst, order);
}

/// Converting the slices of a frame from I420 to packed pixels, in any order, leaves the same bytes
/// as converting the frame by a single call.
pub proof fn law_par_i420_to_rgb_matches_single(
    k: I420ToRgbKernel,
    parallelism: Option<usize>,
    call: I420ToRgb,
    src: Seq<u8>,
    dst: Seq<u8>,
    order: Seq<I420ToRgb>,
)
    requires
        call.reaches(),
        forall|c: I420ToRgb| order.contains(c) <==> slices(call, parallelism).contains(c),
    ensures
        run(k, src, dst, order) == run(k, src, dst, seq![call]),
{
    law_slices_match_single(k, parallelism, call, src, dst, order);
}

} // verus!
