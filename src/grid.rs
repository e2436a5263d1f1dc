//! The uniform bucket grid used for the broad phase.
//!
//! The domain `[0, width) × [0, height)` is cut into `GRID_SIZE × GRID_SIZE`
//! buckets. A coordinate outside the domain falls into the nearest boundary
//! bucket. The bucket width should be at least twice the largest particle
//! radius: a particle can only meet neighbours found in the 3×3 block of
//! buckets around its own, so a wider circle may miss a collision.
use vstd::prelude::*;

verus! {

/// Number of buckets along each axis.
pub const GRID_SIZE: usize = 320;

/// Total number of buckets.
pub const BUCKET_COUNT: usize = 102400;

/// The bucket column (or row) of coordinate `v` on an axis of length
/// `extent`: `⌊v·GRID_SIZE / extent⌋` clamped to `[0, GRID_SIZE − 1]`. An
/// empty axis sends every positive coordinate to the last bucket.
pub open spec fn axis_bucket(v: int, extent: int) -> int {
    if v <= 0 {
        0
    } else if extent == 0 {
        GRID_SIZE - 1
    } else if v * GRID_SIZE / extent > GRID_SIZE - 1 {
        GRID_SIZE - 1
    } else {
        v * GRID_SIZE / extent
    }
}

pub open spec fn bucket_spec(x: int, y: int, width: int, height: int) -> int {
    axis_bucket(x, width) + axis_bucket(y, height) * GRID_SIZE
}

fn axis_index(v: i64, extent: u32) -> (r: usize)
    ensures
        r == axis_bucket(v as int, extent as int),
        r < GRID_SIZE,
{
    if v <= 0 {
        0
    } else if extent == 0 {
        GRID_SIZE - 1
    } else {
        let vv = v as i128;
        assert(0 < vv * 320 <= 320 * 0x7fff_ffff_ffff_ffff) by (nonlinear_arith)
            requires
                0 < vv <= 0x7fff_ffff_ffff_ffff,
        ;
        let scaled = vv * 320 / (extent as i128);
        assert(scaled >= 0) by (nonlinear_arith)
            requires
                vv > 0,
                extent > 0,
                scaled == vv * 320 / (extent as int),
        ;
        if scaled > 319 {
            319
        } else {
            scaled as usize
        }
    }
}

/// The bucket holding the point `(x, y)`; always a valid bucket index.
pub fn bucket_of(x: i64, y: i64, width: u32, height: u32) -> (r: usize)
    ensures
        r == bucket_spec(x as int, y as int, width as int, height as int),
        r < BUCKET_COUNT,
{
    let bx = axis_index(x, width);
    let by = axis_index(y, height);
    bx + by * GRID_SIZE
}

/// Column and row offsets of the `i`-th cell of the 3×3 block (`i < 9`),
/// column offset varying slowest.
pub open spec fn block_cell(b: int, i: int) -> (int, int) {
    (b % GRID_SIZE as int + i / 3 - 1, b / GRID_SIZE as int + i % 3 - 1)
}

pub open spec fn cell_in_grid(c: (int, int)) -> bool {
    0 <= c.0 < GRID_SIZE && 0 <= c.1 < GRID_SIZE
}

pub open spec fn cell_index(c: (int, int)) -> int {
    c.0 + c.1 * GRID_SIZE
}

/// The `i`-th cell of the block around `b` lies in the grid and is bucket `k`.
pub open spec fn block_hit(b: int, i: int, k: int) -> bool {
    cell_in_grid(block_cell(b, i)) && k == cell_index(block_cell(b, i))
}

/// `k` is one of the buckets of the 3×3 block centred on `b`.
pub open spec fn is_neighbor(b: int, k: int) -> bool {
    exists|i: int| 0 <= i < 9 && #[trigger] block_hit(b, i, k)
}

/// The in-grid cells among the first `m` cells of the block around `b`, in order.
pub open spec fn block_upto(b: int, m: nat) -> Seq<usize>
    decreases m,
{
    if m == 0 {
        Seq::empty()
    } else {
        let prev = block_upto(b, (m - 1) as nat);
        if cell_in_grid(block_cell(b, m - 1)) {
            prev.push(cell_index(block_cell(b, m - 1)) as usize)
        } else {
            prev
        }
    }
}

/// The buckets of the 3×3 block centred on `b`, column offset slowest.
pub open spec fn neighbor_seq(b: int) -> Seq<usize> {
    block_upto(b, 9)
}

/// The buckets of the 3×3 block centred on `bucket` that lie inside the
/// grid; the block is cut at the grid's edges and never wraps.
pub fn neighbor_buckets(bucket: usize) -> (r: Vec<usize>)
    requires
        bucket < BUCKET_COUNT,
    ensures
        r@ == neighbor_seq(bucket as int),
        r@.len() <= 9,
        forall|j: int| 0 <= j < r@.len() ==> #[trigger] r@[j] < BUCKET_COUNT,
        forall|k: usize| #[trigger] r@.contains(k) <==> is_neighbor(bucket as int, k as int),
{
    let bx = bucket % GRID_SIZE;
    let by = bucket / GRID_SIZE;
    let mut r: Vec<usize> = Vec::new();
    let mut i: usize = 0;
    while i < 9
        invariant
            i <= 9,
            r@.len() <= i,
            r@ == block_upto(bucket as int, i as nat),
            bx == bucket % GRID_SIZE,
            by == bucket / GRID_SIZE,
            by < GRID_SIZE,
            forall|j: int| 0 <= j < r@.len() ==> #[trigger] is_neighbor(bucket as int, r@[j] as int),
            forall|m: int|
                0 <= m < i && cell_in_grid(block_cell(bucket as int, m)) ==> r@.contains(
                    cell_index(block_cell(bucket as int, m)) as usize,
                ),
        decreases 9 - i,
    {
        let ghost old_r = r@;
        let cx = bx as i64 + (i / 3) as i64 - 1;
        let cy = by as i64 + (i % 3) as i64 - 1;
        assert(cx == block_cell(bucket as int, i as int).0);
        assert(cy == block_cell(bucket as int, i as int).1);
        if 0 <= cx && cx < 320 && 0 <= cy && cy < 320 {
            let k = cx as usize + cy as usize * GRID_SIZE;
            r.push(k);
            assert(r@[r@.len() - 1] == k);
            assert(r@.contains(k));
        }
        let ghost gi = i as int;
        i = i + 1;
        assert forall|j: int| 0 <= j < r@.len() implies #[trigger] is_neighbor(
            bucket as int,
            r@[j] as int,
        ) by {
            if j < old_r.len() {
                assert(r@[j] == old_r[j]);
                assert(is_neighbor(bucket as int, old_r[j] as int));
            } else {
                assert(block_hit(bucket as int, gi, r@[j] as int));
            }
        }
        assert forall|m: int|
            0 <= m < i && cell_in_grid(block_cell(bucket as int, m)) implies r@.contains(
                cell_index(block_cell(bucket as int, m)) as usize,
            ) by {
            if m < gi {
                let w = cell_index(block_cell(bucket as int, m)) as usize;
                assert(old_r.contains(w));
                let j = choose|j: int| 0 <= j < old_r.len() && old_r[j] == w;
                assert(r@[j] == w);
            }
        }
    }
    proof {
        assert forall|j: int| 0 <= j < r@.len() implies #[trigger] r@[j] < BUCKET_COUNT by {
            assert(is_neighbor(bucket as int, r@[j] as int));
        }
        assert forall|k: usize| is_neighbor(bucket as int, k as int) implies #[trigger] r@.contains(
            k,
        ) by {
            let m = choose|m: int|
                0 <= m < 9 && #[trigger] block_hit(bucket as int, m, k as int);
        }
        assert forall|k: usize| #[trigger] r@.contains(k) implies is_neighbor(
            bucket as int,
            k as int,
        ) by {
            let j = choose|j: int| 0 <= j < r@.len() && r@[j] == k;
            assert(is_neighbor(bucket as int, r@[j] as int));
        }
    }
    r
}

/// Every bucket of a block lies in the grid.
pub proof fn lemma_block_valid(b: int, m: nat)
    ensures
        forall|k: int| 0 <= k < block_upto(b, m).len() ==> #[trigger] block_upto(b, m)[k] < BUCKET_COUNT,
    decreases m,
{
    if m > 0 {
        lemma_block_valid(b, (m - 1) as nat);
        let prev = block_upto(b, (m - 1) as nat);
        if cell_in_grid(block_cell(b, m - 1)) {
            assert forall|k: int| 0 <= k < block_upto(b, m).len() implies #[trigger] block_upto(
                b,
                m,
            )[k] < BUCKET_COUNT by {
                if k < prev.len() {
                    assert(block_upto(b, m)[k] == prev[k]);
                }
            }
        }
    }
}

} // verus!
