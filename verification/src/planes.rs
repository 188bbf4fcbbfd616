//! Calls of pixel conversion kernels, and the row slices that one call falls into.
//!
//! The kernels convert a frame to or from a format whose chroma is shared by two rows (4:2:0).
//! A call is described by the planes it reads and writes, each an offset into a buffer and the
//! distance of its rows.
use crate::rows::{count_of, par_rows, row_slices};
use vstd::prelude::*;

verus! {

/// A plane of pixels: where its first row starts in its buffer, and how far apart its rows are.
#[derive(Debug, Clone, Copy, PartialEq, Eq, Structural)]
pub struct Plane {
    pub offset: usize,
    pub stride: i32,
}

/// One call of a kernel from packed pixels to NV12.
#[derive(Debug, Clone, Copy, PartialEq, Eq, Structural)]
pub struct RgbToNv12 {
    pub src: Plane,
    pub dst_y: Plane,
    pub dst_uv: Plane,
    pub width: i32,
    pub height: i32,
}

/// One call of a kernel from packed pixels to I420.
#[derive(Debug, Clone, Copy, PartialEq, Eq, Structural)]
pub struct RgbToI420 {
    pub src: Plane,
    pub dst_y: Plane,
    pub dst_u: Plane,
    pub dst_v: Plane,
    pub width: i32,
    pub height: i32,
}

/// One call of a kernel from NV12 to packed pixels.
#[derive(Debug, Clone, Copy, PartialEq, Eq, Structural)]
pub struct Nv12ToRgb {
    pub src_y: Plane,
    pub src_uv: Plane,
    pub dst: Plane,
    pub width: i32,
    pub height: i32,
}

/// One call of a kernel from I420 to packed pixels.
#[derive(Debug, Clone, Copy, PartialEq, Eq, Structural)]
pub struct I420ToRgb {
    pub src_y: Plane,
    pub src_u: Plane,
    pub src_v: Plane,
    pub dst: Plane,
    pub width: i32,
    pub height: i32,
}

/// The plane that starts `rows` rows below the first row of `p`.
pub open spec fn below(p: Plane, rows: int) -> Plane {
    Plane { offset: (p.offset + rows * p.stride) as usize, stride: p.stride }
}

/// Whether the first `rows` rows of a plane start at addresses that exist.
pub open spec fn reaches(p: Plane, rows: int) -> bool {
    p.stride >= 0 && (rows > 0 ==> p.offset + (rows - 1) * p.stride <= usize::MAX)
}

/// The number of chroma rows that belong to `rows` rows.
pub open spec fn half_up(rows: int) -> int {
    (rows + 1) / 2
}

/// The plane `rows` rows below, where the first `all` rows are known to exist.
fn row_below(p: Plane, rows: usize, Ghost(all): Ghost<int>) -> (r: Plane)
    requires
        reaches(p, all),
        rows < all,
    ensures
        r == below(p, rows as int),
        p.offset + rows * p.stride <= usize::MAX,
{
    proof {
        assert(0 <= rows * p.stride <= (all - 1) * p.stride) by (nonlinear_arith)
            requires
                0 <= rows <= all - 1,
                p.stride >= 0,
        ;
    }
    Plane { offset: p.offset + rows * (p.stride as usize), stride: p.stride }
}

/// A conversion of a frame that can be cut into slices of rows.
pub trait Sliced: Copy {
    /// The width and the height of the frame.
    spec fn size(self) -> (i32, i32);

    /// The same conversion for `rows` rows from row `y0` on; `y0` is even.
    spec fn slice(self, y0: int, rows: int) -> Self;

    /// Every row of every plane starts at an address that exists.
    spec fn reaches(self) -> bool;

    fn frame_size(&self) -> (r: (i32, i32))
        ensures
            r == self.size(),
    ;

    fn cut(&self, y0: usize, rows: usize) -> (r: Self)
        requires
            self.reaches(),
            y0 % 2 == 0,
            0 < rows,
            y0 + rows <= self.size().1,
        ensures
            r == self.slice(y0 as int, rows as int),
    ;
}

/// The calls that a frame is converted by, given the parallelism of the system.
pub open spec fn slices<C: Sliced>(call: C, parallelism: Option<usize>) -> Seq<C> {
    let cut = row_slices(parallelism, call.size().0, call.size().1);
    if cut.len() <= 1 {
        seq![call]
    } else {
        Seq::new(cut.len(), |k: int| call.slice(cut[k].0 as int, cut[k].1 as int))
    }
}

/// The calls that convert a frame slice by slice. A frame that is not cut is converted by the call
/// as it was given.
fn cut_frame<C: Sliced>(parallelism: Option<usize>, call: C) -> (calls: Vec<C>)
    requires
        row_slices(parallelism, call.size().0, call.size().1).len() > 1 ==> call.reaches(),
    ensures
        calls@ == slices(call, parallelism),
{
    let (width, height) = call.frame_size();
    let cut = par_rows(parallelism, width, height);
    let mut calls: Vec<C> = Vec::new();
    if cut.len() <= 1 {
        calls.push(call);
        assert(calls@ =~= slices(call, parallelism));
        return calls;
    }
    let mut k: usize = 0;
    while k < cut.len()
        invariant
            (width, height) == call.size(),
            cut@ == row_slices(parallelism, width, height),
            cut@.len() > 1,
            call.reaches(),
            k <= cut@.len(),
            calls@.len() == k,
            forall|i: int|
                0 <= i < k ==> #[trigger] calls@[i] == call.slice(
                    cut@[i].0 as int,
                    cut@[i].1 as int,
                ),
        decreases cut@.len() - k,
    {
        let (y0, rows) = cut[k];
        proof {
            lemma_slice_inside(parallelism, width, height, k as int);
        }
        calls.push(call.cut(y0, rows));
        k = k + 1;
    }
    assert(calls@ =~= slices(call, parallelism));
    calls
}

impl Sliced for RgbToNv12 {
    open spec fn size(self) -> (i32, i32) {
        (self.width, self.height)
    }

    open spec fn slice(self, y0: int, rows: int) -> RgbToNv12 {
        RgbToNv12 {
            src: below(self.src, y0),
            dst_y: below(self.dst_y, y0),
            dst_uv: below(self.dst_uv, y0 / 2),
            width: self.width,
            height: rows as i32,
        }
    }

    open spec fn reaches(self) -> bool {
        let h = count_of(self.height);
        &&& reaches(self.src, h)
        &&& reaches(self.dst_y, h)
        &&& reaches(self.dst_uv, half_up(h))
    }

    fn frame_size(&self) -> (r: (i32, i32)) {
        (self.width, self.height)
    }

    fn cut(&self, y0: usize, rows: usize) -> (r: RgbToNv12) {
        let ghost h = count_of(self.height);
        RgbToNv12 {
            src: row_below(self.src, y0, Ghost(h)),
            dst_y: row_below(self.dst_y, y0, Ghost(h)),
            dst_uv: row_below(self.dst_uv, y0 / 2, Ghost(half_up(h))),
            width: self.width,
            height: rows as i32,
        }
    }
}

impl Sliced for RgbToI420 {
    open spec fn size(self) -> (i32, i32) {
        (self.width, self.height)
    }

    open spec fn slice(self, y0: int, rows: int) -> RgbToI420 {
        RgbToI420 {
            src: below(self.src, y0),
            dst_y: below(self.dst_y, y0),
            dst_u: below(self.dst_u, y0 / 2),
            dst_v: below(self.dst_v, y0 / 2),
            width: self.width,
            height: rows as i32,
        }
    }

    open spec fn reaches(self) -> bool {
        let h = count_of(self.height);
        &&& reaches(self.src, h)
        &&& reaches(self.dst_y, h)
        &&& reaches(self.dst_u, half_up(h))
        &&& reaches(self.dst_v, half_up(h))
    }

    fn frame_size(&self) -> (r: (i32, i32)) {
        (self.width, self.height)
    }

    fn cut(&self, y0: usize, rows: usize) -> (r: RgbToI420) {
        let ghost h = count_of(self.height);
        RgbToI420 {
            src: row_below(self.src, y0, Ghost(h)),
            dst_y: row_below(self.dst_y, y0, Ghost(h)),
            dst_u: row_below(self.dst_u, y0 / 2, Ghost(half_up(h))),
            dst_v: row_below(self.dst_v, y0 / 2, Ghost(half_up(h))),
            width: self.width,
            height: rows as i32,
        }
    }
}

impl Sliced for Nv12ToRgb {
    open spec fn size(self) -> (i32, i32) {
        (self.width, self.height)
    }

    open spec fn slice(self, y0: int, rows: int) -> Nv12ToRgb {
        Nv12ToRgb {
            src_y: below(self.src_y, y0),
            src_uv: below(self.src_uv, y0 / 2),
            dst: below(self.dst, y0),
            width: self.width,
            height: rows as i32,
        }
    }

    open spec fn reaches(self) -> bool {
        let h = count_of(self.height);
        &&& reaches(self.src_y, h)
        &&& reaches(self.src_uv, half_up(h))
        &&& reaches(self.dst, h)
    }

    fn frame_size(&self) -> (r: (i32, i32)) {
        (self.width, self.height)
    }

    fn cut(&self, y0: usize, rows: usize) -> (r: Nv12ToRgb) {
        let ghost h = count_of(self.height);
        Nv12ToRgb {
            src_y: row_below(self.src_y, y0, Ghost(h)),
            src_uv: row_below(self.src_uv, y0 / 2, Ghost(half_up(h))),
            dst: row_below(self.dst, y0, Ghost(h)),
            width: self.width,
            height: rows as i32,
        }
    }
}

impl Sliced for I420ToRgb {
    open spec fn size(self) -> (i32, i32) {
        (self.width, self.height)
    }

    open spec fn slice(self, y0: int, rows: int) -> I420ToRgb {
        I420ToRgb {
            src_y: below(self.src_y, y0),
            src_u: below(self.src_u, y0 / 2),
            src_v: below(self.src_v, y0 / 2),
            dst: below(self.dst, y0),
            width: self.width,
            height: rows as i32,
        }
    }

    open spec fn reaches(self) -> bool {
        let h = count_of(self.height);
        &&& reaches(self.src_y, h)
        &&& reaches(self.src_u, half_up(h))
        &&& reaches(self.src_v, half_up(h))
        &&& reaches(self.dst, h)
    }

    fn frame_size(&self) -> (r: (i32, i32)) {
        (self.width, self.height)
    }

    fn cut(&self, y0: usize, rows: usize) -> (r: I420ToRgb) {
        let ghost h = count_of(self.height);
        I420ToRgb {
            src_y: row_below(self.src_y, y0, Ghost(h)),
            src_u: row_below(self.src_u, y0 / 2, Ghost(half_up(h))),
            src_v: row_below(self.src_v, y0 / 2, Ghost(half_up(h))),
            dst: row_below(self.dst, y0, Ghost(h)),
            width: self.width,
            height: rows as i32,
        }
    }
}

/// The calls that convert a frame from packed pixels to NV12 slice by slice. A frame that is not cut
/// is converted by the call as it was given.
pub fn par_rgb_to_nv12(parallelism: Option<usize>, call: RgbToNv12) -> (calls: Vec<RgbToNv12>)
    requires
        row_slices(parallelism, call.width, call.height).len() > 1 ==> call.reaches(),
    ensures
        calls@ == slices(call, parallelism),
{
    cut_frame(parallelism, call)
}

/// The calls that convert a frame from packed pixels to I420 slice by slice. A frame that is not cut
/// is converted by the call as it was given.
pub fn par_rgb_to_i420(parallelism: Option<usize>, call: RgbToI420) -> (calls: Vec<RgbToI420>)
    requires
        row_slices(parallelism, call.width, call.height).len() > 1 ==> call.reaches(),
    ensures
        calls@ == slices(call, parallelism),
{
    cut_frame(parallelism, call)
}

/// The calls that convert a frame from NV12 to packed pixels slice by slice. A frame that is not cut
/// is converted by the call as it was given.
pub fn par_nv12_to_rgb(parallelism: Option<usize>, call: Nv12ToRgb) -> (calls: Vec<Nv12ToRgb>)
    requires
        row_slices(parallelism, call.width, call.height).len() > 1 ==> call.reaches(),
    ensures
        calls@ == slices(call, parallelism),
{
    cut_frame(parallelism, call)
}

/// The calls that convert a frame from I420 to packed pixels slice by slice. A frame that is not cut
/// is converted by the call as it was given.
pub fn par_i420_to_rgb(parallelism: Option<usize>, call: I420ToRgb) -> (calls: Vec<I420ToRgb>)
    requires
        row_slices(parallelism, call.width, call.height).len() > 1 ==> call.reaches(),
    ensures
        calls@ == slices(call, parallelism),
{
    cut_frame(parallelism, call)
}

/// Whether every slice was converted: `0`, or else the code of the last slice that failed.
pub open spec fn last_failure(codes: Seq<i32>) -> i32
    decreases codes.len(),
{
    if codes.len() == 0 {
        0
    } else if codes.last() != 0 {
        codes.last()
    } else {
        last_failure(codes.drop_last())
    }
}

/// The outcome of a frame whose slices ended with `codes`: `0` if all of them did, else the code
/// of one that failed (the last of them).
pub fn par_run(codes: &Vec<i32>) -> (code: i32)
    ensures
        code == last_failure(codes@),
        code == 0 <==> (forall|k: int| 0 <= k < codes@.len() ==> codes@[k] == 0),
        code != 0 ==> codes@.contains(code),
{
    let mut k: usize = codes.len();
    assert(codes@.take(k as int) =~= codes@);
    while k > 0
        invariant
            k <= codes@.len(),
            last_failure(codes@) == last_failure(codes@.take(k as int)),
            forall|i: int| k <= i < codes@.len() ==> codes@[i] == 0,
        decreases k,
    {
        assert(codes@.take(k as int).drop_last() =~= codes@.take(k - 1));
        if codes[k - 1] != 0 {
            return codes[k - 1];
        }
        k = k - 1;
    }
    0
}

/// The slices of a frame lie inside it.
pub proof fn lemma_slice_inside(parallelism: Option<usize>, width: i32, height: i32, k: int)
    requires
        row_slices(parallelism, width, height).len() > 1,
        0 <= k < row_slices(parallelism, width, height).len(),
    ensures
        ({
            let (y0, rows) = row_slices(parallelism, width, height)[k];
            &&& height > 0
            &&& y0 % 2 == 0
            &&& 0 < rows
            &&& y0 + rows <= height
            &&& (rows % 2 == 1 ==> y0 + rows == height)
        }),
{
    let threads = crate::rows::thread_budget(parallelism);
    let (w, h) = (count_of(width), count_of(height));
    crate::rows::lemma_slices_tile(threads, w, h, k);
    crate::rows::lemma_cut_has_rows(threads, w, h);
}

} // verus!
