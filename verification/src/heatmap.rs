//! The windowed-histogram backend: observations land, weighted, in
//! linear value buckets of the youngest of a ring of time windows;
//! recording at a later timestamp expires the oldest windows, and a
//! percentile query walks the bucket totals of all live windows.

use vstd::prelude::*;
use vstd::arithmetic::div_mod::{
    lemma_div_is_strictly_smaller, lemma_div_nonincreasing, lemma_remainder_lower,
};
use vstd::arithmetic::mul::lemma_mul_inequality;
use crate::error::SummaryError;
use crate::percentile::{rank_count, rank_count_exec, valid_percentile, PERCENTILE_SCALE};

verus! {

/// At most this many whole time windows are kept live at once.
pub const WINDOW_LIMIT: usize = 65_536;

/// At most this many value buckets per window.
pub const BUCKET_LIMIT: usize = 1_000_001;

/// The quantization target a precision asks for: ten to the precision
/// (clamped between one and six significant digits) buckets across the
/// value range.
pub open spec fn precision_cap(precision: u8) -> int {
    if precision <= 1 {
        10
    } else if precision == 2 {
        100
    } else if precision == 3 {
        1_000
    } else if precision == 4 {
        10_000
    } else if precision == 5 {
        100_000
    } else {
        1_000_000
    }
}

/// The linear bucket width chosen for a value bound and precision.
pub open spec fn width_of(max_value: u64, precision: u8) -> int {
    max_value as int / precision_cap(precision) + 1
}

/// How many buckets cover the value range at that width, capped by
/// `BUCKET_LIMIT`.
pub open spec fn buckets_of(max_value: u64, precision: u8) -> int {
    let q = max_value as int / width_of(max_value, precision);
    if q >= 1_000_000 {
        1_000_001
    } else {
        q + 1
    }
}

/// The live window count, clamped between one and `WINDOW_LIMIT`.
pub open spec fn clamp_windows(windows: usize) -> int {
    if windows < 1 {
        1
    } else if windows > WINDOW_LIMIT {
        WINDOW_LIMIT as int
    } else {
        windows as int
    }
}

/// The window duration in ticks, at least one.
pub open spec fn clamp_resolution(resolution: u64) -> int {
    if resolution < 1 {
        1
    } else {
        resolution as int
    }
}

/// A window with nothing recorded in it.
pub open spec fn zero_row(nb: nat) -> Seq<u64> {
    Seq::new(nb, |i: int| 0u64)
}

/// A whole grid of empty windows.
pub open spec fn zero_grid(wc: nat, nb: nat) -> Seq<Seq<u64>> {
    Seq::new(wc, |i: int| zero_row(nb))
}

/// Saturating accumulation of observation weight into a bucket cell.
pub open spec fn sat_add(a: u64, w: u64) -> u64 {
    if a + w > u64::MAX {
        u64::MAX
    } else {
        (a + w) as u64
    }
}

/// The bucket a value falls in: linear buckets of `width`, the last
/// bucket absorbing anything beyond the declared bound.
pub open spec fn bucket_of(value: u64, width: u64, nb: int) -> int {
    let b = value as int / width as int;
    if b >= nb {
        nb - 1
    } else {
        b
    }
}

/// The value a bucket reports for its contents: the bucket's upper edge,
/// clamped to the declared bound.
pub open spec fn bucket_rep(j: int, width: u64, max_value: u64) -> int {
    let hi = j * width + (width - 1);
    if hi > max_value {
        max_value as int
    } else {
        hi
    }
}

/// The window index a timestamp falls in.
pub open spec fn epoch_of(time: u64, res: u64) -> int {
    time as int / res as int
}

/// The epoch after recording at `time`: epochs never move backwards, so
/// a late observation lands in the current window.
pub open spec fn step_epoch(epoch: u64, time: u64, res: u64) -> int {
    if epoch_of(time, res) > epoch {
        epoch_of(time, res)
    } else {
        epoch as int
    }
}

/// How many windows expire when recording at `time`.
pub open spec fn step_count(g_len: int, epoch: u64, time: u64, res: u64) -> int {
    let e = epoch_of(time, res);
    if e > epoch {
        if e - epoch > g_len {
            g_len
        } else {
            e - epoch
        }
    } else {
        0
    }
}

/// The grid after `s` windows expire: the oldest `s` are dropped and as
/// many empty windows take their place at the young end.
pub open spec fn rotate_grid(g: Seq<Seq<u64>>, s: int, nb: nat) -> Seq<Seq<u64>> {
    g.skip(s) + Seq::new(s as nat, |i: int| zero_row(nb))
}

/// The grid after weight `w` lands in bucket `b` of the youngest window.
pub open spec fn bump_grid(g: Seq<Seq<u64>>, b: int, w: u64) -> Seq<Seq<u64>> {
    let li = g.len() - 1;
    g.update(li, g[li].update(b, sat_add(g[li][b], w)))
}

/// Everything one recording does to the grid: expired windows leave,
/// then the weight lands in the youngest window.
pub open spec fn step_grid(
    g: Seq<Seq<u64>>,
    epoch: u64,
    time: u64,
    res: u64,
    nb: nat,
    b: int,
    w: u64,
) -> Seq<Seq<u64>> {
    bump_grid(rotate_grid(g, step_count(g.len() as int, epoch, time, res), nb), b, w)
}

/// Total weight recorded in bucket `j` across all live windows.
pub open spec fn col_sum(g: Seq<Seq<u64>>, j: int) -> int
    decreases g.len(),
{
    if g.len() == 0 {
        0
    } else {
        col_sum(g.drop_last(), j) + g.last()[j]
    }
}

/// Total weight recorded in buckets 0 through `j` across all live
/// windows.
pub open spec fn cum_weight(g: Seq<Seq<u64>>, j: int) -> int
    decreases j + 1,
{
    if j < 0 {
        0
    } else {
        cum_weight(g, j - 1) + col_sum(g, j)
    }
}

proof fn lemma_col_sum_bounds(g: Seq<Seq<u64>>, j: int)
    requires
        g.len() <= WINDOW_LIMIT,
    ensures
        0 <= col_sum(g, j) <= g.len() * 0xffff_ffff_ffff_ffff,
    decreases g.len(),
{
    if g.len() > 0 {
        lemma_col_sum_bounds(g.drop_last(), j);
    }
}

proof fn lemma_cum_bounds(g: Seq<Seq<u64>>, j: int)
    requires
        g.len() <= WINDOW_LIMIT,
        j >= -1,
    ensures
        0 <= cum_weight(g, j) <= (j + 1) * (0xffff_ffff_ffff_ffff * 0x1_0000),
    decreases j + 1,
{
    if j >= 0 {
        lemma_cum_bounds(g, j - 1);
        lemma_col_sum_bounds(g, j);
        lemma_mul_inequality(g.len() as int, WINDOW_LIMIT as int, 0xffff_ffff_ffff_ffff);
        let k = (0xffff_ffff_ffff_ffff * 0x1_0000) as int;
        assert(col_sum(g, j) <= k);
        assert((j + 1) * k == j * k + k) by (nonlinear_arith);
    }
}

proof fn lemma_col_sum_ge_cell(g: Seq<Seq<u64>>, i: int, j: int)
    requires
        g.len() <= WINDOW_LIMIT,
        0 <= i < g.len(),
    ensures
        col_sum(g, j) >= g[i][j],
    decreases g.len(),
{
    if i == g.len() - 1 {
        lemma_col_sum_bounds(g.drop_last(), j);
    } else {
        lemma_col_sum_ge_cell(g.drop_last(), i, j);
        assert(g.drop_last()[i] == g[i]);
    }
}

/// A recording with positive weight leaves the histogram nonempty: the
/// bumped cell alone puts weight into the bucket totals, so a valid
/// percentile query afterwards is owed an answer.
pub proof fn lemma_step_grid_has_data(
    g: Seq<Seq<u64>>,
    epoch: u64,
    time: u64,
    res: u64,
    nb: nat,
    b: int,
    w: u64,
)
    requires
        1 <= w,
        1 <= g.len() <= WINDOW_LIMIT,
        0 <= b < nb,
        forall|i: int| 0 <= i < g.len() ==> (#[trigger] g[i]).len() == nb,
    ensures
        cum_weight(step_grid(g, epoch, time, res, nb, b, w), nb as int - 1) > 0,
{
    let s = step_count(g.len() as int, epoch, time, res);
    let rot = rotate_grid(g, s, nb);
    assert(0 <= s <= g.len());
    assert(rot.len() == g.len());
    let li = rot.len() - 1;
    let g2 = bump_grid(rot, b, w);
    assert(g2.len() == rot.len());
    assert(g2[li] == rot[li].update(b, sat_add(rot[li][b], w)));
    assert(g2[li][b] == sat_add(rot[li][b], w));
    assert(g2[li][b] >= 1);
    lemma_col_sum_ge_cell(g2, li, b);
    lemma_cum_bounds(g2, b - 1);
    lemma_cum_monotone(g2, b, nb as int - 1);
}

proof fn lemma_cum_monotone(g: Seq<Seq<u64>>, a: int, b: int)
    requires
        g.len() <= WINDOW_LIMIT,
        a <= b,
    ensures
        cum_weight(g, a) <= cum_weight(g, b),
    decreases b - a,
{
    if a < b {
        lemma_cum_monotone(g, a, b - 1);
        lemma_col_sum_bounds(g, b);
    }
}

/// An empty grid holds no weight in any bucket range.
pub proof fn lemma_zero_grid_cum(wc: nat, nb: nat, j: int)
    requires
        j < nb,
    ensures
        cum_weight(zero_grid(wc, nb), j) == 0,
    decreases j + 1,
{
    if j >= 0 {
        lemma_zero_grid_cum(wc, nb, j - 1);
        lemma_zero_col_sum(wc, nb, j);
    }
}

proof fn lemma_zero_col_sum(wc: nat, nb: nat, j: int)
    requires
        0 <= j < nb,
    ensures
        col_sum(zero_grid(wc, nb), j) == 0,
    decreases wc,
{
    if wc > 0 {
        assert(zero_grid(wc, nb).drop_last() =~= zero_grid((wc - 1) as nat, nb));
        lemma_zero_col_sum((wc - 1) as nat, nb, j);
        assert(zero_grid(wc, nb).last() == zero_row(nb));
        assert(zero_row(nb)[j] == 0u64);
    }
}

fn zero_row_vec(n: usize) -> (r: Vec<u64>)
    ensures
        r@ == zero_row(n as nat),
{
    let mut r: Vec<u64> = Vec::new();
    let mut i: usize = 0;
    while i < n
        invariant
            i <= n,
            r@.len() == i,
            forall|k: int| 0 <= k < i ==> (#[trigger] r@[k]) == 0u64,
        decreases n - i,
    {
        r.push(0);
        i += 1;
    }
    proof {
        assert(r@ =~= zero_row(n as nat));
    }
    r
}

/// A time-windowed, linearly bucketed histogram.
pub struct Heatmap {
    max_value: u64,
    bucket_width: u64,
    n_buckets: usize,
    resolution: u64,
    epoch: u64,
    windows: Vec<Vec<u64>>,
}

impl Heatmap {
    /// The live windows, oldest first, each a row of bucket weights.
    pub closed spec fn grid(self) -> Seq<Seq<u64>> {
        self.windows@.map(|i: int, w: Vec<u64>| w@)
    }

    /// The declared value bound.
    pub closed spec fn max_spec(self) -> u64 {
        self.max_value
    }

    /// The linear bucket width.
    pub closed spec fn width(self) -> u64 {
        self.bucket_width
    }

    /// The window duration in ticks.
    pub closed spec fn res(self) -> u64 {
        self.resolution
    }

    /// The window index of the youngest live window.
    pub closed spec fn epoch_spec(self) -> u64 {
        self.epoch
    }

    /// How many buckets each window has.
    pub closed spec fn buckets(self) -> int {
        self.n_buckets as int
    }

    /// How many windows are live.
    pub closed spec fn window_count(self) -> int {
        self.windows@.len() as int
    }

    /// Structural soundness: window and bucket counts lie within their
    /// limits, every window has the same bucket count, and every bucket's
    /// representative value stays within the declared bound.
    pub closed spec fn wf(self) -> bool {
        &&& 1 <= self.windows@.len() <= WINDOW_LIMIT
        &&& 1 <= self.n_buckets <= BUCKET_LIMIT
        &&& forall|i: int|
            0 <= i < self.windows@.len() ==> (#[trigger] self.windows@[i]@.len())
                == self.n_buckets
        &&& 1 <= self.bucket_width
        &&& 1 <= self.resolution
        &&& (self.n_buckets - 1) * self.bucket_width <= self.max_value
    }

    /// The facts `wf` guarantees, stated over the public views.
    pub proof fn lemma_wf_facts(self)
        requires
            self.wf(),
        ensures
            1 <= self.window_count() <= WINDOW_LIMIT as int,
            1 <= self.buckets() <= BUCKET_LIMIT as int,
            1 <= self.width(),
            1 <= self.res(),
            (self.buckets() - 1) * self.width() <= self.max_spec(),
            self.grid().len() == self.window_count(),
            forall|i: int|
                0 <= i < self.grid().len() ==> (#[trigger] self.grid()[i]).len()
                    == self.buckets(),
    {
    }

    /// Total recorded weight across all live windows.
    pub open spec fn total(self) -> int {
        cum_weight(self.grid(), self.buckets() - 1)
    }

    /// The total, a sum of bucket cells, is never negative.
    pub proof fn lemma_total_nonneg(self)
        requires
            self.wf(),
        ensures
            self.total() >= 0,
    {
        lemma_cum_bounds(self.grid(), self.buckets() - 1);
    }

    /// A histogram as construction leaves it: every window empty, the
    /// epoch at zero, and the configuration derived from the arguments.
    pub open spec fn is_fresh(
        self,
        max_value: u64,
        precision: u8,
        windows: usize,
        resolution: u64,
    ) -> bool {
        &&& self.wf()
        &&& self.max_spec() == max_value
        &&& self.width() == width_of(max_value, precision)
        &&& self.buckets() == buckets_of(max_value, precision)
        &&& self.window_count() == clamp_windows(windows)
        &&& self.res() == clamp_resolution(resolution)
        &&& self.epoch_spec() == 0
        &&& self.grid() == zero_grid(self.window_count() as nat, self.buckets() as nat)
    }

    /// The answer a percentile query pins down: the representative value
    /// of the first bucket at which the running weight reaches the rank
    /// the percentile asks for.
    pub open spec fn percentile_post(self, p: i64, v: u64) -> bool {
        exists|j: int|
            {
                &&& 0 <= j < self.buckets()
                &&& cum_weight(self.grid(), j) >= rank_count(p as int, self.total())
                &&& (j == 0 || cum_weight(self.grid(), j - 1) < rank_count(p as int, self.total()))
                &&& v as int == bucket_rep(j, self.width(), self.max_spec())
            }
    }

    /// Makes an empty histogram for values up to `max_value`, quantized
    /// to `precision` significant digits, over `windows` windows of
    /// `resolution` ticks each.
    pub fn new(max_value: u64, precision: u8, windows: usize, resolution: u64) -> (h: Self)
        ensures
            h.is_fresh(max_value, precision, windows, resolution),
    {
        let cap: u64 = if precision <= 1 {
            10
        } else if precision == 2 {
            100
        } else if precision == 3 {
            1_000
        } else if precision == 4 {
            10_000
        } else if precision == 5 {
            100_000
        } else {
            1_000_000
        };
        proof {
            if max_value > 0 {
                lemma_div_is_strictly_smaller(max_value as int, cap as int);
            }
        }
        let width = max_value / cap + 1;
        let q = max_value / width;
        let nb64: u64 = if q >= 1_000_000 {
            1_000_001
        } else {
            q + 1
        };
        let nb = nb64 as usize;
        proof {
            lemma_mul_inequality(nb64 as int - 1, q as int, width as int);
            lemma_remainder_lower(max_value as int, width as int);
            assert((nb64 - 1) * width <= max_value);
        }
        let wc = if windows < 1 {
            1
        } else if windows > WINDOW_LIMIT {
            WINDOW_LIMIT
        } else {
            windows
        };
        let res = if resolution < 1 {
            1
        } else {
            resolution
        };
        let mut ws: Vec<Vec<u64>> = Vec::new();
        let mut k: usize = 0;
        while k < wc
            invariant
                k <= wc,
                ws@.len() == k,
                forall|i: int| 0 <= i < k ==> (#[trigger] ws@[i]@) == zero_row(nb as nat),
            decreases wc - k,
        {
            ws.push(zero_row_vec(nb));
            k += 1;
        }
        let h = Heatmap {
            max_value,
            bucket_width: width,
            n_buckets: nb,
            resolution: res,
            epoch: 0,
            windows: ws,
        };
        proof {
            assert(h.grid().len() == wc);
            assert forall|i: int| 0 <= i < wc implies h.grid()[i] == zero_grid(
                wc as nat,
                nb as nat,
            )[i] by {
                assert(h.grid()[i] == ws@[i]@);
                assert(zero_grid(wc as nat, nb as nat)[i] == zero_row(nb as nat));
            }
            assert(h.grid() =~= zero_grid(h.window_count() as nat, h.buckets() as nat));
        }
        h
    }

    /// Records `count` observations of `value` at `time`: windows the
    /// timestamp has outrun expire, and the weight lands, saturating, in
    /// the bucket of `value` in the youngest window. Never fails; values
    /// beyond the declared bound fall into the last bucket.
    pub fn increment(&mut self, time: u64, value: u64, count: u32)
        requires
            old(self).wf(),
        ensures
            final(self).wf(),
            final(self).max_spec() == old(self).max_spec(),
            final(self).width() == old(self).width(),
            final(self).res() == old(self).res(),
            final(self).buckets() == old(self).buckets(),
            final(self).window_count() == old(self).window_count(),
            final(self).epoch_spec() == step_epoch(old(self).epoch_spec(), time, old(self).res()),
            final(self).grid() == step_grid(
                old(self).grid(),
                old(self).epoch_spec(),
                time,
                old(self).res(),
                old(self).buckets() as nat,
                bucket_of(value, old(self).width(), old(self).buckets()),
                count as u64,
            ),
    {
        let ghost g0 = self.grid();
        let ghost nbg = self.n_buckets as nat;
        let e = time / self.resolution;
        if e > self.epoch {
            let diff = e - self.epoch;
            let wl = self.windows.len();
            let steps: usize = if diff > wl as u64 {
                wl
            } else {
                diff as usize
            };
            proof {
                assert(rotate_grid(g0, 0, nbg) =~= g0);
            }
            let mut k: usize = 0;
            while k < steps
                invariant
                    k <= steps,
                    steps <= wl,
                    self.windows@.len() == wl,
                    self.max_value == old(self).max_value,
                    self.bucket_width == old(self).bucket_width,
                    self.n_buckets == old(self).n_buckets,
                    self.resolution == old(self).resolution,
                    self.epoch == old(self).epoch,
                    old(self).wf(),
                    wl == old(self).windows@.len(),
                    g0 == old(self).grid(),
                    nbg == self.n_buckets as nat,
                    forall|i: int|
                        0 <= i < self.windows@.len() ==> (#[trigger] self.windows@[i]@.len())
                            == self.n_buckets,
                    self.grid() == rotate_grid(g0, k as int, nbg),
                decreases steps - k,
            {
                let ghost gprev = self.grid();
                let ghost wprev = self.windows@;
                let _ = self.windows.remove(0);
                let z = zero_row_vec(self.n_buckets);
                self.windows.push(z);
                proof {
                    let wl_i = wl as int;
                    let gk = rotate_grid(g0, k as int, nbg);
                    let gk1 = rotate_grid(g0, k + 1, nbg);
                    assert(self.windows@ == wprev.remove(0).push(z));
                    assert(self.grid().len() == wl_i);
                    assert(gk1.len() == wl_i);
                    assert forall|i: int| 0 <= i < wl_i implies self.grid()[i] == gk1[i] by {
                        assert(self.grid()[i] == self.windows@[i]@);
                        if i < wl_i - 1 {
                            assert(wprev.remove(0)[i] == wprev[i + 1]);
                            assert(self.windows@[i] == wprev[i + 1]);
                            assert(gprev[i + 1] == wprev[i + 1]@);
                            if i + 1 < wl_i - k {
                                assert(gk[i + 1] == g0[i + 1 + k]);
                                assert(gk1[i] == g0[i + (k + 1)]);
                            } else {
                                assert(gk[i + 1] == zero_row(nbg));
                                assert(gk1[i] == zero_row(nbg));
                            }
                        } else {
                            assert(self.windows@[i] == z);
                            assert(gk1[i] == zero_row(nbg));
                        }
                    }
                    assert(self.grid() =~= gk1);
                }
                k += 1;
            }
            self.epoch = e;
        } else {
            proof {
                assert(rotate_grid(g0, 0, nbg) =~= g0);
            }
        }
        let ghost grot = self.grid();
        let bq = value / self.bucket_width;
        let b: usize = if bq >= self.n_buckets as u64 {
            self.n_buckets - 1
        } else {
            bq as usize
        };
        let li = self.windows.len() - 1;
        let mut row = self.windows.remove(li);
        let cur = row[b];
        let add = count as u64;
        let nv = if u64::MAX - cur < add {
            u64::MAX
        } else {
            cur + add
        };
        row[b] = nv;
        self.windows.push(row);
        proof {
            assert(self.grid() =~= bump_grid(grot, b as int, add)) by {
                assert forall|i: int| 0 <= i < self.grid().len() implies self.grid()[i]
                    == bump_grid(grot, b as int, add)[i] by {
                    assert(self.windows@[i]@ == self.grid()[i]);
                }
                assert(self.grid().len() == bump_grid(grot, b as int, add).len());
            }
        }
    }

    fn col_total(&self, j: usize) -> (s: u128)
        requires
            self.wf(),
            (j as int) < self.buckets(),
        ensures
            s as int == col_sum(self.grid(), j as int),
    {
        let mut s: u128 = 0;
        let mut i: usize = 0;
        proof {
            assert(self.grid().take(0) =~= Seq::<Seq<u64>>::empty());
        }
        while i < self.windows.len()
            invariant
                self.wf(),
                (j as int) < self.buckets(),
                i <= self.windows@.len(),
                s as int == col_sum(self.grid().take(i as int), j as int),
                s <= i * 0xffff_ffff_ffff_ffff,
            decreases self.windows@.len() - i,
        {
            let cell = self.windows[i][j];
            proof {
                assert(self.grid().take(i + 1).drop_last() =~= self.grid().take(i as int));
                assert(self.grid().take(i + 1).last() == self.grid()[i as int]);
                assert(self.grid()[i as int][j as int] == cell);
            }
            s = s + cell as u128;
            i += 1;
        }
        proof {
            assert(self.grid().take(self.windows@.len() as int) =~= self.grid());
        }
        s
    }

    fn total_weight(&self) -> (t: u128)
        requires
            self.wf(),
        ensures
            t as int == self.total(),
            t <= 0x4000_0000_0000_0000_0000_0000_0000,
    {
        let mut t: u128 = 0;
        let mut j: usize = 0;
        while j < self.n_buckets
            invariant
                self.wf(),
                j <= self.n_buckets,
                t as int == cum_weight(self.grid(), j as int - 1),
            decreases self.n_buckets - j,
        {
            proof {
                lemma_cum_bounds(self.grid(), j as int);
                lemma_mul_inequality(
                    j as int + 1,
                    BUCKET_LIMIT as int,
                    (0xffff_ffff_ffff_ffff * 0x1_0000) as int,
                );
            }
            let c = self.col_total(j);
            t = t + c;
            j += 1;
        }
        proof {
            lemma_cum_bounds(self.grid(), self.buckets() - 1);
            lemma_mul_inequality(
                self.buckets(),
                BUCKET_LIMIT as int,
                (0xffff_ffff_ffff_ffff * 0x1_0000) as int,
            );
        }
        t
    }

    fn bucket_value(&self, j: usize) -> (v: u64)
        requires
            self.wf(),
            (j as int) < self.buckets(),
        ensures
            v as int == bucket_rep(j as int, self.width(), self.max_spec()),
            v <= self.max_spec(),
    {
        proof {
            lemma_mul_inequality(j as int, self.n_buckets - 1, self.bucket_width as int);
        }
        let lo = (j as u64) * self.bucket_width;
        let rem = self.max_value - lo;
        if rem < self.bucket_width - 1 {
            self.max_value
        } else {
            lo + (self.bucket_width - 1)
        }
    }

    /// Returns the percentile estimate over all live windows: the
    /// representative value of the first bucket at which the running
    /// weight reaches the rank the percentile asks for. Fails with
    /// `InvalidPercentile` exactly when `p` is out of range and with
    /// `InsufficientData` exactly when nothing is recorded. An answer
    /// never exceeds the declared value bound.
    pub fn percentile(&self, p: i64) -> (r: Result<u64, SummaryError>)
        requires
            self.wf(),
        ensures
            r == Err::<u64, SummaryError>(SummaryError::InvalidPercentile) <==> !valid_percentile(p),
            r == Err::<u64, SummaryError>(SummaryError::InsufficientData) <==> (
            valid_percentile(p) && self.total() == 0),
            r is Ok <==> (valid_percentile(p) && self.total() > 0),
            r matches Ok(v) ==> self.percentile_post(p, v),
            r matches Ok(v) ==> v <= self.max_spec(),
    {
        if p < 0 || p > PERCENTILE_SCALE {
            return Err(SummaryError::InvalidPercentile);
        }
        let total = self.total_weight();
        if total == 0 {
            return Err(SummaryError::InsufficientData);
        }
        let t = rank_count_exec(p, total);
        let ghost g = self.grid();
        let mut acc: u128 = 0;
        let mut j: usize = 0;
        while acc < t
            invariant
                self.wf(),
                g == self.grid(),
                valid_percentile(p),
                total as int == self.total(),
                total >= 1,
                t as int == rank_count(p as int, self.total()),
                1 <= t <= total,
                j <= self.n_buckets,
                acc as int == cum_weight(g, j as int - 1),
                j == 0 || cum_weight(g, j as int - 2) < t as int,
            decreases self.n_buckets - j,
        {
            proof {
                if j == self.n_buckets {
                    assert(acc as int == self.total());
                    assert(false);
                }
                lemma_cum_bounds(g, j as int);
                lemma_cum_monotone(g, j as int, self.buckets() - 1);
            }
            let c = self.col_total(j);
            acc = acc + c;
            j += 1;
        }
        let v = self.bucket_value(j - 1);
        proof {
            let jj = j as int - 1;
            assert(0 <= jj < self.buckets());
            assert(cum_weight(g, jj) >= rank_count(p as int, self.total()));
            assert(jj == 0 || cum_weight(g, jj - 1) < rank_count(p as int, self.total()));
            assert(self.percentile_post(p, v));
        }
        Ok(v)
    }
}

/// The grid after `n` single-weight recordings of one value at one
/// timestamp.
pub open spec fn iter_grid(
    g: Seq<Seq<u64>>,
    epoch: u64,
    time: u64,
    res: u64,
    nb: nat,
    b: int,
    n: nat,
) -> Seq<Seq<u64>>
    decreases n,
{
    if n == 0 {
        g
    } else {
        step_grid(
            iter_grid(g, epoch, time, res, nb, b, (n - 1) as nat),
            iter_epoch(epoch, time, res, (n - 1) as nat),
            time,
            res,
            nb,
            b,
            1,
        )
    }
}

/// The epoch after `n` single-weight recordings at one timestamp.
pub open spec fn iter_epoch(epoch: u64, time: u64, res: u64, n: nat) -> u64
    decreases n,
{
    if n == 0 {
        epoch
    } else {
        step_epoch(iter_epoch(epoch, time, res, (n - 1) as nat), time, res) as u64
    }
}

/// Weight honoring: recording weight `w` once moves the histogram to
/// exactly the state that `w` single-weight recordings of the same value
/// at the same timestamp produce, so the two are indistinguishable to
/// any later percentile query. Weight zero is excluded: recording
/// nothing at all would also skip the window rotation that every real
/// recording performs.
pub proof fn lemma_weight_equivalence(
    g: Seq<Seq<u64>>,
    epoch: u64,
    time: u64,
    res: u64,
    nb: nat,
    b: int,
    w: u32,
)
    requires
        1 <= w,
        1 <= res,
        1 <= g.len(),
        0 <= b < nb,
        forall|i: int| 0 <= i < g.len() ==> (#[trigger] g[i]).len() == nb,
    ensures
        step_grid(g, epoch, time, res, nb, b, w as u64) == iter_grid(
            g,
            epoch,
            time,
            res,
            nb,
            b,
            w as nat,
        ),
        step_epoch(epoch, time, res) == iter_epoch(epoch, time, res, w as nat),
    decreases w,
{
    lemma_div_nonincreasing(time as int, res as int);
    let e1 = step_epoch(epoch, time, res);
    assert(0 <= e1 <= u64::MAX);
    if w == 1 {
        reveal_with_fuel(iter_grid, 2);
        reveal_with_fuel(iter_epoch, 2);
        assert(iter_grid(g, epoch, time, res, nb, b, 1nat) == step_grid(
            g,
            epoch,
            time,
            res,
            nb,
            b,
            1,
        ));
    } else {
        lemma_weight_equivalence(g, epoch, time, res, nb, b, (w - 1) as u32);
        let gp = step_grid(g, epoch, time, res, nb, b, (w - 1) as u64);
        assert(iter_grid(g, epoch, time, res, nb, b, w as nat) == step_grid(
            gp,
            e1 as u64,
            time,
            res,
            nb,
            b,
            1,
        ));
        let s = step_count(g.len() as int, epoch, time, res);
        let rot = rotate_grid(g, s, nb);
        assert(0 <= s <= g.len());
        assert(rot.len() == g.len());
        assert forall|i: int| 0 <= i < rot.len() implies (#[trigger] rot[i]).len() == nb by {
            if i < g.len() - s {
                assert(rot[i] == g[i + s]);
            } else {
                assert(rot[i] == zero_row(nb));
            }
        }
        // A second recording at the same time rotates nothing further.
        assert(step_count(gp.len() as int, e1 as u64, time, res) == 0);
        assert(rotate_grid(gp, 0, nb) =~= gp);
        let li = rot.len() - 1;
        let x = rot[li][b];
        let r1 = rot[li].update(b, sat_add(x, (w - 1) as u64));
        assert(gp == rot.update(li, r1));
        assert(gp[li] == r1);
        assert(r1[b] == sat_add(x, (w - 1) as u64));
        assert(sat_add(sat_add(x, (w - 1) as u64), 1u64) == sat_add(x, w as u64));
        assert(r1.update(b, sat_add(x, w as u64)) =~= rot[li].update(b, sat_add(x, w as u64)));
        assert(rot.update(li, r1).update(li, r1.update(b, sat_add(x, w as u64))) =~= rot.update(
            li,
            rot[li].update(b, sat_add(x, w as u64)),
        ));
        assert(step_grid(gp, e1 as u64, time, res, nb, b, 1) == step_grid(
            g,
            epoch,
            time,
            res,
            nb,
            b,
            w as u64,
        ));
        assert(step_epoch(e1 as u64, time, res) == e1);
    }
}

} // verus!
