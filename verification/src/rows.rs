//! Cutting a frame into row slices that are converted side by side.
use vstd::prelude::*;

verus! {

/// Frames with fewer pixels are converted in one piece.
pub const PAR_MIN_PIXELS: usize = 2 * 1024 * 1024;

/// No frame is cut for more workers than this.
pub const PAR_MAX_THREADS: usize = 8;

/// A height or width as a count; what is negative counts as nothing.
pub open spec fn count_of(x: i32) -> int {
    if x > 0 {
        x as int
    } else {
        0
    }
}

/// The number of workers to cut for, given the parallelism that the system reports.
pub open spec fn thread_budget(parallelism: Option<usize>) -> int {
    match parallelism {
        Some(n) => if n < PAR_MAX_THREADS {
            n as int
        } else {
            PAR_MAX_THREADS as int
        },
        None => 1,
    }
}

/// Whether a frame of `w` by `h` pixels is worth cutting at all.
pub open spec fn is_cut(threads: int, w: int, h: int) -> bool {
    threads >= 2 && w * h >= PAR_MIN_PIXELS
}

/// The rows of every slice but the last: an even share of the frame, of at least 64 rows
/// where the frame has them, rounded up to an even number.
pub open spec fn rows_per_slice(threads: int, h: int) -> int {
    let fair = if h / 64 < threads {
        h / 64
    } else {
        threads
    };
    let n = if fair < 1 {
        1
    } else {
        fair
    };
    let share = (h + n - 1) / n;
    share + share % 2
}

/// The number of slices of `rows` rows that cover `h` rows.
pub open spec fn slice_count(rows: int, h: int) -> nat {
    ((h + rows - 1) / rows) as nat
}

/// The slice with index `k`: its first row and its number of rows.
pub open spec fn slice_at(rows: int, h: int, k: int) -> (usize, usize) {
    let y0 = k * rows;
    (
        y0 as usize,
        (if h - y0 < rows {
            h - y0
        } else {
            rows
        }) as usize,
    )
}

/// The slices of a frame, from the top down.
pub open spec fn row_slices(parallelism: Option<usize>, width: i32, height: i32) -> Seq<
    (usize, usize),
> {
    let (w, h) = (count_of(width), count_of(height));
    let threads = thread_budget(parallelism);
    if is_cut(threads, w, h) {
        let rows = rows_per_slice(threads, h);
        Seq::new(slice_count(rows, h), |k: int| slice_at(rows, h, k))
    } else {
        seq![(0usize, h as usize)]
    }
}

/// A frame that is cut has rows, and its slices an even, positive number of them.
pub proof fn lemma_cut_has_rows(threads: int, w: int, h: int)
    requires
        is_cut(threads, w, h),
        0 <= w <= i32::MAX,
        0 <= h <= i32::MAX,
        threads <= PAR_MAX_THREADS,
    ensures
        h > 0,
        0 < rows_per_slice(threads, h) <= h + 1,
        rows_per_slice(threads, h) % 2 == 0,
        slice_count(rows_per_slice(threads, h), h) >= 1,
{
    assert(h > 0) by (nonlinear_arith)
        requires
            w * h >= 2097152,
            0 <= w,
            0 <= h,
    ;
    let fair = if h / 64 < threads {
        h / 64
    } else {
        threads
    };
    let n = if fair < 1 {
        1
    } else {
        fair
    };
    let share = (h + n - 1) / n;
    assert(1 <= share <= h) by (nonlinear_arith)
        requires
            share == (h + n - 1) / n,
            1 <= n,
            1 <= h,
    ;
    let rows = share + share % 2;
    assert((h + rows - 1) / rows >= 1) by (nonlinear_arith)
        requires
            rows >= 1,
            h >= 1,
    ;
}

/// The slices of a cut frame start on even rows, follow one another without a gap, and end
/// with the frame; each holds at least one row.
pub proof fn lemma_slices_tile(threads: int, w: int, h: int, k: int)
    requires
        is_cut(threads, w, h),
        0 <= w <= i32::MAX,
        0 <= h <= i32::MAX,
        threads <= PAR_MAX_THREADS,
        0 <= k < slice_count(rows_per_slice(threads, h), h),
    ensures
        ({
            let rows = rows_per_slice(threads, h);
            let n = slice_count(rows, h);
            let (y0, r) = slice_at(rows, h, k);
            &&& y0 == k * rows
            &&& y0 % 2 == 0
            &&& 0 < r <= rows
            &&& y0 + r <= h
            &&& (k + 1 < n ==> r == rows)
            &&& (k + 1 == n ==> y0 + r == h)
        }),
{
    lemma_cut_has_rows(threads, w, h);
    let rows = rows_per_slice(threads, h);
    let n = slice_count(rows, h) as int;
    assert((n - 1) * rows < h && h <= n * rows) by (nonlinear_arith)
        requires
            n == (h + rows - 1) / rows,
            rows > 0,
            h > 0,
    ;
    assert(0 <= k * rows <= (n - 1) * rows) by (nonlinear_arith)
        requires
            0 <= k <= n - 1,
            rows > 0,
    ;
    let half = rows / 2;
    assert(k * rows == 2 * (k * half)) by (nonlinear_arith)
        requires
            rows == 2 * half,
    ;
    if k + 1 < n {
        assert((k + 1) * rows <= (n - 1) * rows) by (nonlinear_arith)
            requires
                k + 1 <= n - 1,
                rows > 0,
        ;
        assert((k + 1) * rows == k * rows + rows) by (nonlinear_arith);
    } else {
        assert(n * rows == k * rows + rows) by (nonlinear_arith)
            requires
                k == n - 1,
        ;
    }
}

/// `(first row, rows)` of each slice; every slice starts on an even row, so that the chroma of
/// two rows never falls into two slices. A single slice means that the frame stays whole.
pub fn par_rows(parallelism: Option<usize>, width: i32, height: i32) -> (slices: Vec<
    (usize, usize),
>)
    ensures
        slices@ == row_slices(parallelism, width, height),
{
    let w: usize = if width > 0 {
        width as usize
    } else {
        0
    };
    let h: usize = if height > 0 {
        height as usize
    } else {
        0
    };
    let threads: usize = match parallelism {
        Some(n) => if n < PAR_MAX_THREADS {
            n
        } else {
            PAR_MAX_THREADS
        },
        None => 1,
    };
    assert((w as u64) * (h as u64) <= 0x7fff_ffff * 0x7fff_ffff) by (nonlinear_arith)
        requires
            w <= 0x7fff_ffff,
            h <= 0x7fff_ffff,
    ;
    if threads < 2 || (w as u64) * (h as u64) < PAR_MIN_PIXELS as u64 {
        let whole = vec![(0usize, h)];
        assert(whole@ =~= row_slices(parallelism, width, height));
        return whole;
    }
    let fair: usize = if h / 64 < threads {
        h / 64
    } else {
        threads
    };
    let n: usize = if fair < 1 {
        1
    } else {
        fair
    };
    let share: usize = (h + n - 1) / n;
    proof {
        lemma_cut_has_rows(threads as int, w as int, h as int);
        assert(((share + 1) as usize & !1usize) == share + share % 2) by (bit_vector)
            requires
                share <= 0x8000_0000usize,
        ;
    }
    let rows: usize = (share + 1) & !1usize;
    let ghost count = slice_count(rows as int, h as int);
    let mut slices: Vec<(usize, usize)> = Vec::new();
    let mut y0: usize = 0;
    while y0 < h
        invariant
            is_cut(threads as int, w as int, h as int),
            w <= i32::MAX,
            h <= i32::MAX,
            threads <= PAR_MAX_THREADS,
            rows == rows_per_slice(threads as int, h as int),
            count == slice_count(rows as int, h as int),
            slices@.len() <= count,
            y0 <= h,
            y0 < h ==> y0 == slices@.len() * rows && slices@.len() < count,
            y0 == h ==> slices@.len() == count,
            forall|k: int|
                0 <= k < slices@.len() ==> #[trigger] slices@[k] == slice_at(
                    rows as int,
                    h as int,
                    k,
                ),
        decreases h - y0,
    {
        let r: usize = if h - y0 < rows {
            h - y0
        } else {
            rows
        };
        proof {
            let k = slices@.len() as int;
            lemma_slices_tile(threads as int, w as int, h as int, k);
            assert((k + 1) * rows == k * rows + rows) by (nonlinear_arith);
            if k + 1 < count {
                lemma_slices_tile(threads as int, w as int, h as int, k + 1);
            }
        }
        slices.push((y0, r));
        y0 = y0 + r;
    }
    assert(slices@ =~= row_slices(parallelism, width, height));
    slices
}

/// How many slices a frame of `h` rows is cut into at most: one for each worker, of whom no more
/// than eight are used, and of at least 64 rows each.
pub open spec fn most_slices(workers: int, h: int) -> int {
    if workers > 8 && h / 64 > 8 {
        8
    } else if workers < h / 64 {
        workers
    } else {
        h / 64
    }
}

/// An even share of rows is the least even number of which as many shares as there are slices cover
/// the frame.
proof fn lemma_share(n: int, h: int)
    requires
        1 <= n <= 8,
        n == 1 || 64 * n <= h,
        1 <= h,
    ensures
        ({
            let share = (h + n - 1) / n;
            let rows = share + share % 2;
            &&& h <= rows * n
            &&& (rows - 2) * n < h
            &&& 1 <= share
            &&& 64 * n <= h ==> 64 <= share
            &&& 2 <= n && 128 <= h ==> rows < h
        }),
{
    let share = (h + n - 1) / n;
    assert(h <= share * n && (share - 1) * n < h) by (nonlinear_arith)
        requires
            share == (h + n - 1) / n,
            1 <= n,
            1 <= h,
    ;
    let rows = share + share % 2;
    assert(share * n <= rows * n) by (nonlinear_arith)
        requires
            share <= rows,
            1 <= n,
    ;
    assert((rows - 2) * n <= (share - 1) * n) by (nonlinear_arith)
        requires
            rows - 2 <= share - 1,
            1 <= n,
    ;
    assert(1 <= share) by (nonlinear_arith)
        requires
            1 <= h <= share * n,
            1 <= n,
    ;
    if 64 * n <= h {
        assert(64 <= share) by (nonlinear_arith)
            requires
                64 * n <= h <= share * n,
                1 <= n,
        ;
    }
    if 2 <= n && 128 <= h {
        assert((share - 1) * 2 <= (share - 1) * n) by (nonlinear_arith)
            requires
                1 <= share,
                2 <= n,
        ;
    }
}

/// A frame is cut into slices that follow one another from the top to the bottom. It is cut only if
/// there are two workers for its two million pixels or more, and then into no more slices than
/// workers, of whom eight are used at most. All slices but the last have the same number of rows: an
/// even one, of 64 or more, and the least of which as many as there may be slices cover the frame.
#[verifier::rlimit(40)]
#[verifier::spinoff_prover]
pub proof fn law_frame_is_cut_fairly(parallelism: Option<usize>, width: i32, height: i32, k: int)
    requires
        0 <= k < row_slices(parallelism, width, height).len(),
    ensures
        ({
            let cut = row_slices(parallelism, width, height);
            let h = if height > 0 {
                height as int
            } else {
                0
            };
            let workers = match parallelism {
                Some(n) => n as int,
                None => 1,
            };
            let big = width > 0 && workers >= 2 && width * h >= 2 * 1024 * 1024;
            let most = most_slices(workers, h);
            &&& cut[0].0 == 0
            &&& cut[k].0 + cut[k].1 == (if k + 1 < cut.len() {
                cut[k + 1].0 as int
            } else {
                h
            })
            &&& (cut.len() > 1 ==> big && cut.len() <= most && most <= workers && most <= 8)
            &&& (big && h >= 128 ==> cut.len() > 1)
            &&& (cut.len() > 1 && k + 1 < cut.len() ==> {
                &&& cut[k].1 == cut[0].1
                &&& cut[k].1 % 2 == 0
                &&& cut[k].1 >= 64
                &&& h <= cut[k].1 * most
                &&& (cut[k].1 - 2) * most < h
            })
            &&& (cut.len() > 1 ==> 0 < cut[k].1 <= cut[0].1)
        }),
{
    let cut = row_slices(parallelism, width, height);
    let (w, h) = (count_of(width), count_of(height));
    let threads = thread_budget(parallelism);
    if is_cut(threads, w, h) {
        lemma_cut_has_rows(threads, w, h);
        let rows = rows_per_slice(threads, h);
        let count = slice_count(rows, h) as int;
        let fair = if h / 64 < threads {
            h / 64
        } else {
            threads
        };
        let n = if fair < 1 {
            1
        } else {
            fair
        };
        assert(width > 0) by {
            if width <= 0 {
                assert(w * h == 0) by (nonlinear_arith)
                    requires
                        w == 0,
                ;
            }
        }
        lemma_share(n, h);
        lemma_slices_tile(threads, w, h, k);
        lemma_slices_tile(threads, w, h, 0);
        if k + 1 < count {
            lemma_slices_tile(threads, w, h, k + 1);
            assert((k + 1) * rows == k * rows + rows) by (nonlinear_arith);
        }
        assert((count - 1) * rows < h && h <= count * rows) by (nonlinear_arith)
            requires
                count == (h + rows - 1) / rows,
                rows > 0,
                h > 0,
        ;
        assert(count <= n) by (nonlinear_arith)
            requires
                (count - 1) * rows < h,
                h <= rows * n,
                rows > 0,
        ;
        if count == 1 {
            assert(h <= rows);
        }
    } else if width > 0 {
        assert(cut.len() == 1);
    }
}

} // verus!
