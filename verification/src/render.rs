//! How image rows are handed out to render workers.
//!
//! The image is cut into bands of consecutive rows, all of the same height
//! except possibly the last, so that each worker renders one band.

use vstd::prelude::*;

verus! {

/// A band of consecutive image rows: `rows` rows starting at row `start`.
#[derive(Clone, Copy, Debug, PartialEq, Eq, Structural)]
pub struct RowChunk {
    pub start: usize,
    pub rows: usize,
}

/// Rows per band: the image height divided by the worker count, rounded up,
/// and at least one.
pub open spec fn rows_per_chunk(height: int, threads: int) -> int {
    let c = (height + threads - 1) / threads;
    if c == 0 {
        1
    } else {
        c
    }
}

/// The number of bands of `c` rows that cover `height` rows.
pub open spec fn chunk_count(height: int, c: int) -> int {
    (height + c - 1) / c
}

/// The bands, in order from the top of the image.
pub open spec fn row_plan(height: int, threads: int) -> Seq<RowChunk> {
    let c = rows_per_chunk(height, threads);
    Seq::new(
        chunk_count(height, c) as nat,
        |j: int|
            RowChunk {
                start: (j * c) as usize,
                rows: (if c <= height - j * c {
                    c
                } else {
                    height - j * c
                }) as usize,
            },
    )
}

proof fn lemma_ceil_div(h: int, t: int, q: int, r: int)
    requires
        t > 0,
        h >= 0,
        h == q * t + r,
        0 <= r < t,
    ensures
        (h + t - 1) / t == if r == 0 {
            q
        } else {
            q + 1
        },
{
    if r == 0 {
        assert((h + t - 1) / t == q) by (nonlinear_arith)
            requires
                h == q * t,
                t > 0,
        {
            assert(h + t - 1 == q * t + (t - 1));
            vstd::arithmetic::div_mod::lemma_fundamental_div_mod_converse(h + t - 1, t, q, t - 1);
        }
    } else {
        assert((h + t - 1) / t == q + 1) by (nonlinear_arith)
            requires
                h == q * t + r,
                t > 0,
                0 < r < t,
        {
            assert(h + t - 1 == (q + 1) * t + (r - 1));
            vstd::arithmetic::div_mod::lemma_fundamental_div_mod_converse(
                h + t - 1,
                t,
                q + 1,
                r - 1,
            );
        }
    }
}

proof fn lemma_ceil_unique(h: int, c: int, n: int)
    requires
        c > 0,
        h >= 0,
        n >= 0,
        n * c >= h,
        n == 0 || (n - 1) * c < h,
    ensures
        n == (h + c - 1) / c,
{
    let q = (h + c - 1) / c;
    vstd::arithmetic::div_mod::lemma_fundamental_div_mod(h + c - 1, c);
    let r = (h + c - 1) % c;
    assert(h + c - 1 == c * q + r);
    assert(0 <= r < c);
    if n < q {
        assert(n * c <= (q - 1) * c) by (nonlinear_arith)
            requires
                n <= q - 1,
                c > 0,
        ;
        assert((q - 1) * c == c * q - c) by (nonlinear_arith);
    } else if n > q {
        assert((n - 1) * c >= q * c) by (nonlinear_arith)
            requires
                n - 1 >= q,
                c > 0,
        ;
        assert(q * c == c * q) by (nonlinear_arith);
    }
}

/// Rows per band for an image of `height` rows shared by `threads` workers.
pub fn chunk_rows(height: usize, threads: usize) -> (c: usize)
    requires
        threads > 0,
    ensures
        c == rows_per_chunk(height as int, threads as int),
        1 <= c,
        c <= height || c == 1,
{
    let q = height / threads;
    let r = height % threads;
    proof {
        vstd::arithmetic::div_mod::lemma_fundamental_div_mod(height as int, threads as int);
        assert(height as int == q * threads + r) by (nonlinear_arith)
            requires
                height as int == threads * (height as int / threads as int) + height as int
                    % threads as int,
                q == height as int / threads as int,
                r == height as int % threads as int,
        ;
        lemma_ceil_div(height as int, threads as int, q as int, r as int);
        assert(q + r <= height) by (nonlinear_arith)
            requires
                height as int == q * threads + r,
                threads >= 1,
                r >= 0,
                q >= 0,
        ;
    }
    let c = if r == 0 {
        q
    } else {
        q + 1
    };
    if c == 0 {
        1
    } else {
        c
    }
}

/// The bands for an image of `height` rows shared by `threads` workers:
/// band `j` starts at row `j * c` and holds `c` rows, or fewer for the last
/// band, where `c` is [`chunk_rows`].
pub fn row_chunks(height: usize, threads: usize) -> (chunks: Vec<RowChunk>)
    requires
        threads > 0,
    ensures
        chunks@ == row_plan(height as int, threads as int),
{
    let c = chunk_rows(height, threads);
    let ghost ci = c as int;
    let mut chunks: Vec<RowChunk> = Vec::new();
    let mut start: usize = 0;
    assert(chunks@.len() * ci == 0) by (nonlinear_arith)
        requires
            chunks@.len() == 0,
    ;
    while start < height
        invariant
            ci == c as int,
            c >= 1,
            start <= height,
            start < height ==> start as int == chunks@.len() * ci,
            start == height && height > 0 ==> chunks@.len() * ci >= height && chunks@.len() > 0
                && (chunks@.len() - 1) * ci < height,
            forall|j: int|
                0 <= j < chunks@.len() ==> #[trigger] chunks@[j] == (RowChunk {
                    start: (j * ci) as usize,
                    rows: (if ci <= height - j * ci {
                        ci
                    } else {
                        height - j * ci
                    }) as usize,
                }),
            forall|j: int| 0 <= j < chunks@.len() ==> #[trigger] (j * ci) < height,
        decreases height - start,
    {
        let rows = if c <= height - start {
            c
        } else {
            height - start
        };
        let ghost k = chunks@.len() as int;
        chunks.push(RowChunk { start, rows });
        proof {
            assert((k + 1) * ci == k * ci + ci) by (nonlinear_arith);
            assert((k + 1 - 1) * ci == k * ci);
        }
        start = start + rows;
    }
    proof {
        let n = chunks@.len() as int;
        if height == 0 {
            assert(n == 0);
        }
        if n > 0 {
            assert(n * ci >= height);
        } else {
            assert(n * ci == 0) by (nonlinear_arith)
                requires
                    n == 0,
            ;
        }
        lemma_ceil_unique(height as int, ci, n);
        assert(chunks@ =~= row_plan(height as int, threads as int));
    }
    chunks
}

proof fn lemma_ceil_props(h: int, c: int)
    requires
        c > 0,
        h >= 0,
    ensures
        chunk_count(h, c) >= 0,
        chunk_count(h, c) * c >= h,
        chunk_count(h, c) > 0 ==> (chunk_count(h, c) - 1) * c < h,
        h > 0 ==> chunk_count(h, c) > 0,
        h == 0 ==> chunk_count(h, c) == 0,
{
    let n = chunk_count(h, c);
    vstd::arithmetic::div_mod::lemma_fundamental_div_mod(h + c - 1, c);
    let r = (h + c - 1) % c;
    assert(h + c - 1 == c * n + r);
    assert(n * c == c * n) by (nonlinear_arith);
    assert((n - 1) * c == c * n - c) by (nonlinear_arith);
    if n < 0 {
        assert(c * n <= -c) by (nonlinear_arith)
            requires
                n <= -1,
                c > 0,
        ;
    }
    if h > 0 && n <= 0 {
        assert(c * n <= 0) by (nonlinear_arith)
            requires
                n <= 0,
                c > 0,
        ;
    }
    if h == 0 && n >= 1 {
        assert(c * n >= c) by (nonlinear_arith)
            requires
                n >= 1,
                c > 0,
        ;
    }
}

proof fn lemma_rows_per_chunk_props(h: int, t: int)
    requires
        t > 0,
        h >= 0,
    ensures
        rows_per_chunk(h, t) >= 1,
        h > 0 ==> rows_per_chunk(h, t) * t >= h,
        h > 0 ==> (rows_per_chunk(h, t) - 1) * t < h,
        h > 0 ==> rows_per_chunk(h, t) <= h,
{
    let q = (h + t - 1) / t;
    vstd::arithmetic::div_mod::lemma_fundamental_div_mod(h + t - 1, t);
    let r = (h + t - 1) % t;
    assert(h + t - 1 == t * q + r);
    if q < 0 {
        assert(t * q <= -t) by (nonlinear_arith)
            requires
                q <= -1,
                t > 0,
        ;
    }
    if h > 0 {
        if q == 0 {
            assert(t * q == 0) by (nonlinear_arith)
                requires
                    q == 0,
            ;
        }
        assert(q * t == t * q) by (nonlinear_arith);
        assert((q - 1) * t == t * q - t) by (nonlinear_arith);
        if q > h {
            assert(t * q >= t * (h + 1)) by (nonlinear_arith)
                requires
                    q >= h + 1,
                    t > 0,
            ;
            assert(t * (h + 1) == t * h + t) by (nonlinear_arith);
            assert(t * h >= h) by (nonlinear_arith)
                requires
                    t >= 1,
                    h >= 0,
            ;
        }
    }
}

/// The bands of the row plan are non-empty, lie inside the image, follow one
/// another without gap or overlap from row 0 to the last row, and there are
/// never more of them than workers. All bands but the last have the same
/// height, the smallest one with which the workers can cover the image.
pub proof fn lemma_row_plan_tiles_image(height: int, threads: int)
    requires
        0 <= height <= usize::MAX,
        threads > 0,
    ensures
        row_plan(height, threads).len() <= threads,
        height == 0 <==> row_plan(height, threads).len() == 0,
        height > 0 ==> row_plan(height, threads)[0].rows * threads >= height,
        height > 0 ==> (row_plan(height, threads)[0].rows - 1) * threads < height,
        forall|k: int|
            0 <= k < row_plan(height, threads).len() - 1 ==> #[trigger] row_plan(
                height,
                threads,
            )[k].rows == row_plan(height, threads)[0].rows,
        height > 0 ==> row_plan(height, threads)[0].start == 0,
        height > 0 ==> row_plan(height, threads).last().start + row_plan(
            height,
            threads,
        ).last().rows == height,
        forall|k: int|
            0 <= k < row_plan(height, threads).len() ==> (#[trigger] row_plan(height, threads)[k]).rows
                >= 1 && row_plan(height, threads)[k].start + row_plan(height, threads)[k].rows
                <= height,
        forall|k: int|
            0 <= k < row_plan(height, threads).len() - 1 ==> #[trigger] row_plan(
                height,
                threads,
            )[k + 1].start == row_plan(height, threads)[k].start + row_plan(
                height,
                threads,
            )[k].rows,
{
    let c = rows_per_chunk(height, threads);
    let n = chunk_count(height, c);
    let plan = row_plan(height, threads);
    lemma_rows_per_chunk_props(height, threads);
    lemma_ceil_props(height, c);
    assert forall|k: int| 0 <= k < n implies #[trigger] (k * c) < height && k * c >= 0 by {
        assert(k * c <= (n - 1) * c) by (nonlinear_arith)
            requires
                k <= n - 1,
                c > 0,
        ;
        assert(k * c >= 0) by (nonlinear_arith)
            requires
                k >= 0,
                c > 0,
        ;
    }
    assert forall|k: int|
        0 <= k < plan.len() implies (#[trigger] plan[k]).rows >= 1 && plan[k].start
        + plan[k].rows <= height by {
        assert(k * c < height);
    }
    assert forall|k: int| 0 <= k < plan.len() - 1 implies #[trigger] plan[k + 1].start
        == plan[k].start + plan[k].rows by {
        assert(k * c < height);
        assert((k + 1) * c < height);
        assert((k + 1) * c == k * c + c) by (nonlinear_arith);
    }
    assert forall|k: int| 0 <= k < plan.len() - 1 implies #[trigger] plan[k].rows
        == plan[0].rows by {
        assert((k + 1) * c <= (n - 1) * c) by (nonlinear_arith)
            requires
                k + 1 <= n - 1,
                c > 0,
        ;
        assert((k + 1) * c == k * c + c) by (nonlinear_arith);
        assert(k * c < height);
        assert(0 * c == 0);
    }
    if height > 0 {
        assert(0 * c == 0);
        assert((n - 1) * c < height);
        assert(n * c == (n - 1) * c + c) by (nonlinear_arith);
        assert(plan.last() == plan[n - 1]);
        if n > threads {
            assert((n - 1) * c >= threads * c) by (nonlinear_arith)
                requires
                    n - 1 >= threads,
                    c > 0,
            ;
            assert(threads * c == c * threads) by (nonlinear_arith);
        }
    }
}

/// Every image row belongs to exactly one band: the band whose index is the
/// row divided by the band height.
pub proof fn lemma_row_plan_covers_each_row(height: int, threads: int, row: int)
    requires
        threads > 0,
        0 <= row < height <= usize::MAX,
    ensures
        ({
            let plan = row_plan(height, threads);
            let j = row / rows_per_chunk(height, threads);
            &&& 0 <= j < plan.len()
            &&& forall|k: int|
                0 <= k < plan.len() ==> ((#[trigger] plan[k]).start <= row < plan[k].start
                    + plan[k].rows <==> k == j)
        }),
{
    let c = rows_per_chunk(height, threads);
    let n = chunk_count(height, c);
    let plan = row_plan(height, threads);
    let j = row / c;
    lemma_rows_per_chunk_props(height, threads);
    lemma_ceil_props(height, c);
    lemma_row_plan_tiles_image(height, threads);
    vstd::arithmetic::div_mod::lemma_fundamental_div_mod(row, c);
    assert(row == c * j + row % c);
    assert(c * j == j * c) by (nonlinear_arith);
    if j < 0 {
        assert(j * c <= -c) by (nonlinear_arith)
            requires
                j <= -1,
                c > 0,
        ;
    }
    if j >= n {
        assert(j * c >= n * c) by (nonlinear_arith)
            requires
                j >= n,
                c > 0,
        ;
    }
    assert forall|k: int|
        0 <= k < plan.len() implies ((#[trigger] plan[k]).start <= row < plan[k].start
        + plan[k].rows <==> k == j) by {
        assert(k * c < height) by {
            assert(k * c <= (n - 1) * c) by (nonlinear_arith)
                requires
                    k <= n - 1,
                    c > 0,
            ;
        }
        assert(k * c >= 0) by (nonlinear_arith)
            requires
                k >= 0,
                c > 0,
        ;
        if plan[k].start <= row < plan[k].start + plan[k].rows {
            vstd::arithmetic::div_mod::lemma_fundamental_div_mod_converse(row, c, k, row - k * c);
        }
        if k == j {
            assert(plan[k].start == j * c);
        }
    }
}

} // verus!
