//! *Representations* are the interface between the data coming from
//! the user and the rendered output.
//!
//! Each representation owns its data and its style and knows how to
//! turn itself into a block of text for a given pair of axes. The
//! supported chart kinds form a closed set, so a view dispatches over
//! them by exhaustive matching rather than open-ended virtual calls.

use vstd::prelude::*;

use crate::axis::ContinuousAxis;
use crate::errors::Error;
use crate::text_render;
use crate::style::LineStyle;
use crate::style::PointStyle;
use crate::fixed::div_units;
use crate::fixed::round_half_from_zero;
use crate::fixed::round_ratio;
use crate::fixed::spec_div_units;
use crate::fixed::Fixed;
use crate::fixed::MAX_UNITS;
use crate::fixed::UNIT;
use crate::style::BoxStyle;

verus! {

/// Half a data unit: the padding put around a degenerate range.
pub const HALF_UNIT: i128 = 500_000_000_000_000;

/// The smallest value in the data, or the largest representable value
/// when there is none (so that folding a minimum starts from above).
pub open spec fn spec_data_min(data: Seq<Fixed>) -> int
    decreases data.len(),
{
    if data.len() == 0 {
        MAX_UNITS as int
    } else {
        let m = spec_data_min(data.drop_last());
        if data.last().units < m {
            data.last().units as int
        } else {
            m
        }
    }
}

/// The largest value in the data, or the smallest representable value
/// when there is none.
pub open spec fn spec_data_max(data: Seq<Fixed>) -> int
    decreases data.len(),
{
    if data.len() == 0 {
        -MAX_UNITS as int
    } else {
        let m = spec_data_max(data.drop_last());
        if data.last().units > m {
            data.last().units as int
        } else {
            m
        }
    }
}

/// The lower end of the histogram's range: the smallest data value,
/// widened by half a unit when the data's range is a single point —
/// empty data counts as the single point zero.
pub open spec fn spec_range_lower(data: Seq<Fixed>) -> int {
    if data.len() == 0 {
        -HALF_UNIT as int
    } else if spec_data_min(data) == spec_data_max(data) {
        spec_data_min(data) - HALF_UNIT
    } else {
        spec_data_min(data)
    }
}

/// The upper end of the histogram's range, widened like the lower end.
pub open spec fn spec_range_upper(data: Seq<Fixed>) -> int {
    if data.len() == 0 {
        HALF_UNIT as int
    } else if spec_data_min(data) == spec_data_max(data) {
        spec_data_max(data) + HALF_UNIT
    } else {
        spec_data_max(data)
    }
}

/// The first bin, at or after bin `k`, whose closed span
/// `[bounds[k], bounds[k+1]]` holds the value `u`.
pub open spec fn spec_first_bin_from(bounds: Seq<Fixed>, u: int, k: nat) -> Option<int>
    decreases bounds.len() - k,
{
    if k + 1 >= bounds.len() {
        None
    } else if bounds[k as int].units <= u <= bounds[k as int + 1].units {
        Some(k as int)
    } else {
        spec_first_bin_from(bounds, u, k + 1)
    }
}

/// The bin a value is assigned to: the first bin whose closed span
/// holds it. Both edges of a bin are inclusive, and the search runs
/// upward, so a value on a shared boundary lands in the lower of the
/// two bins that touch it — exactly one bin counts it.
pub open spec fn spec_bin_of(bounds: Seq<Fixed>, u: int) -> Option<int> {
    spec_first_bin_from(bounds, u, 0)
}

/// How many data values are assigned to bin `k`.
pub open spec fn spec_bin_count(data: Seq<Fixed>, bounds: Seq<Fixed>, k: int) -> nat
    decreases data.len(),
{
    if data.len() == 0 {
        0
    } else {
        spec_bin_count(data.drop_last(), bounds, k) + (if spec_bin_of(
            bounds,
            data.last().units as int,
        ) == Some(k) {
            1nat
        } else {
            0nat
        })
    }
}

/// The bounds are in ascending order.
pub open spec fn spec_bounds_sorted(bounds: Seq<Fixed>) -> bool {
    forall|i: int|
        0 <= i < bounds.len() - 1 ==> (#[trigger] bounds[i]).units <= bounds[i + 1].units
}

/// A value between the outer bounds always finds a bin.
proof fn lemma_bin_exists_from(bounds: Seq<Fixed>, u: int, k: nat)
    requires
        spec_bounds_sorted(bounds),
        k + 1 < bounds.len(),
        bounds[k as int].units <= u <= bounds[bounds.len() - 1].units,
    ensures
        spec_first_bin_from(bounds, u, k) is Some,
        spec_first_bin_from(bounds, u, k)->0 < bounds.len() - 1,
        k <= spec_first_bin_from(bounds, u, k)->0,
    decreases bounds.len() - k,
{
    if !(bounds[k as int].units <= u <= bounds[k as int + 1].units) {
        assert(u > bounds[k as int + 1].units);
        if k + 2 >= bounds.len() {
            assert(k + 1 == bounds.len() - 1);
            assert(false);
        }
        lemma_bin_exists_from(bounds, u, k + 1);
    }
}

/// Every value between the outer bin bounds is assigned a bin, and
/// the assignment is a function of the bounds and the value alone:
/// exactly one bin — the first whose closed span holds the value —
/// counts it, also when it sits on a boundary two bins share.
pub proof fn lemma_value_has_exactly_one_bin(bounds: Seq<Fixed>, u: int)
    requires
        spec_bounds_sorted(bounds),
        bounds.len() >= 2,
        bounds[0].units <= u <= bounds[bounds.len() - 1].units,
    ensures
        spec_bin_of(bounds, u) is Some,
        0 <= spec_bin_of(bounds, u)->0 < bounds.len() - 1,
{
    lemma_bin_exists_from(bounds, u, 0);
}

/// A found first bin never lies below where the search started.
proof fn lemma_first_bin_from_ge(bounds: Seq<Fixed>, u: int, k: nat)
    requires
        spec_first_bin_from(bounds, u, k) is Some,
    ensures
        spec_first_bin_from(bounds, u, k)->0 >= k,
    decreases bounds.len() - k,
{
    if k + 1 < bounds.len() && !(bounds[k as int].units <= u <= bounds[k as int + 1].units) {
        lemma_first_bin_from_ge(bounds, u, k + 1);
    }
}

/// Which of a histogram's two value rows is on display.
enum HistogramType {
    Count,
    Density,
}

/// How the bins of a histogram are chosen: a number of equal bins
/// over the data's range, or explicit bin bounds.
pub enum HistogramBins {
    Count(usize),
    Bounds(Vec<Fixed>),
}

/// A one-dimensional histogram with equal binning.
pub struct Histogram {
    pub bin_bounds: Vec<Fixed>,
    pub bin_counts: Vec<Fixed>,
    pub bin_densities: Vec<Fixed>,
    style: BoxStyle,
    h_type: HistogramType,
}

impl Histogram {
    pub closed spec fn spec_bounds(self) -> Seq<Fixed> {
        self.bin_bounds@
    }

    pub closed spec fn spec_counts(self) -> Seq<Fixed> {
        self.bin_counts@
    }

    pub closed spec fn spec_densities(self) -> Seq<Fixed> {
        self.bin_densities@
    }

    pub closed spec fn spec_is_density(self) -> bool {
        self.h_type is Density
    }

    pub closed spec fn spec_style(self) -> BoxStyle {
        self.style
    }

    /// The values on display: bin counts, or bin densities after
    /// [`Histogram::density`] was called.
    pub open spec fn spec_values(self) -> Seq<Fixed> {
        if self.spec_is_density() {
            self.spec_densities()
        } else {
            self.spec_counts()
        }
    }

    /// The invariant every histogram carries: at least one bin, bounds
    /// ascending through a supported range, and one value per bin.
    pub open spec fn wf(self) -> bool {
        &&& self.spec_bounds().len() >= 2
        &&& self.spec_bounds().len() <= 10_001
        &&& spec_bounds_sorted(self.spec_bounds())
        &&& forall|i: int|
            0 <= i < self.spec_bounds().len() ==> (#[trigger] self.spec_bounds()[i]).in_range()
        &&& self.spec_bounds()[0].units < self.spec_bounds()[self.spec_bounds().len() - 1].units
        &&& self.spec_counts().len() == self.spec_bounds().len() - 1
        &&& self.spec_densities().len() == self.spec_counts().len()
        &&& forall|i: int|
            0 <= i < self.spec_counts().len() ==> 0 <= (#[trigger] self.spec_counts()[i]).units
                <= MAX_UNITS
        &&& forall|i: int|
            0 <= i < self.spec_densities().len() ==> 0 <= (
            #[trigger] self.spec_densities()[i]).units <= MAX_UNITS
    }

    pub fn num_bins(&self) -> (r: usize)
        ensures
            r == self.spec_counts().len(),
    {
        self.bin_counts.len()
    }

    /// The bin bounds, in ascending order.
    pub fn bounds(&self) -> (r: &Vec<Fixed>)
        ensures
            r@ == self.spec_bounds(),
    {
        &self.bin_bounds
    }

    /// Merges the given style over this histogram's: the other
    /// style's present fields win.
    pub fn style(self, style: &BoxStyle) -> (r: Self)
        ensures
            r.spec_bounds() == self.spec_bounds(),
            r.spec_counts() == self.spec_counts(),
            r.spec_densities() == self.spec_densities(),
            r.spec_is_density() == self.spec_is_density(),
            r.spec_style().spec_fill() == if style.spec_fill() is Some {
                style.spec_fill()
            } else {
                self.spec_style().spec_fill()
            },
    {
        let mut merged = self;
        merged.style.overlay(style);
        merged
    }

    /// Switches the histogram to display normalised densities.
    pub fn density(self) -> (r: Self)
        ensures
            r.spec_bounds() == self.spec_bounds(),
            r.spec_counts() == self.spec_counts(),
            r.spec_densities() == self.spec_densities(),
            r.spec_is_density(),
            r.spec_style() == self.spec_style(),
    {
        Histogram { h_type: HistogramType::Density, ..self }
    }

    pub fn get_style(&self) -> (r: &BoxStyle)
        ensures
            r == self.spec_style(),
    {
        &self.style
    }

    /// The values on display, one per bin.
    pub fn get_values(&self) -> (r: &Vec<Fixed>)
        ensures
            r@ == self.spec_values(),
    {
        match self.h_type {
            HistogramType::Count => &self.bin_counts,
            HistogramType::Density => &self.bin_densities,
        }
    }

    /// The data values the histogram accepts: far enough from the
    /// supported magnitude that padding a degenerate range stays
    /// representable.
    pub open spec fn data_ok(data: Seq<Fixed>) -> bool {
        &&& data.len() <= 1_000_000_000
        &&& forall|i: int|
            0 <= i < data.len() ==> -MAX_UNITS + UNIT <= (#[trigger] data[i]).units <= MAX_UNITS
                - UNIT
    }

    /// Builds a histogram over the data.
    ///
    /// With `Count(n)` the range of the data — widened to
    /// `[v - 0.5, v + 0.5]` when every value is the same `v`, and
    /// taken as `[-0.5, 0.5]` when there is no data — is cut into `n`
    /// equal bins. With `Bounds(b)` the given ascending bounds are
    /// used as they are; a value outside the outer bounds would match
    /// no bin, so such inputs are rejected up front by the
    /// precondition rather than miscounted — that precondition is the
    /// explicit rejection of the lookup-failure case, and inside it
    /// the lookup provably always succeeds
    /// ([`lemma_value_has_exactly_one_bin`]). Either way each value
    /// lands in exactly one bin: the first whose closed span holds
    /// it.
    pub fn from_slice(v: &[Fixed], bins: HistogramBins) -> (r: Histogram)
        requires
            Self::data_ok(v@),
            match bins {
                HistogramBins::Count(n) => 1 <= n <= 10_000,
                HistogramBins::Bounds(b) => {
                    &&& 2 <= b@.len() <= 10_001
                    &&& spec_bounds_sorted(b@)
                    &&& b@[0].units < b@[b@.len() - 1].units
                    &&& forall|i: int| 0 <= i < b@.len() ==> (#[trigger] b@[i]).in_range()
                    &&& forall|i: int|
                        0 <= i < v@.len() ==> b@[0].units <= (#[trigger] v@[i]).units
                            <= b@[b@.len() - 1].units
                },
            },
        ensures
            r.wf(),
            !r.spec_is_density(),
            match bins {
                HistogramBins::Count(n) => {
                    &&& r.spec_bounds().len() == n + 1
                    &&& r.spec_bounds()[0].units == spec_range_lower(v@)
                    &&& r.spec_bounds()[n as int].units == spec_range_upper(v@)
                    &&& forall|k: int|
                        0 <= k < n ==> (#[trigger] r.spec_bounds()[k]).units == spec_range_lower(
                            v@,
                        ) + round_half_from_zero(
                            k * (spec_range_upper(v@) - spec_range_lower(v@)),
                            n as int,
                        )
                },
                HistogramBins::Bounds(b) => r.spec_bounds() == b@,
            },
            forall|k: int|
                0 <= k < r.spec_counts().len() ==> (#[trigger] r.spec_counts()[k]).units == UNIT
                    * spec_bin_count(v@, r.spec_bounds(), k),
            forall|k: int|
                0 <= k < r.spec_densities().len() ==> (#[trigger] r.spec_densities()[k]).units
                    == spec_div_units(
                    spec_bin_count(v@, r.spec_bounds(), k) * (r.spec_counts().len() as int)
                        * UNIT,
                    r.spec_bounds()[r.spec_bounds().len() - 1].units - r.spec_bounds()[0].units,
                ),
    {
        let bounds: Vec<Fixed> = match bins {
            HistogramBins::Count(n) => {
                let (lo, hi) = data_range(v);
                define_bin_bounds(lo, hi, n)
            },
            HistogramBins::Bounds(b) => b,
        };
        proof {
            assert forall|i: int| 0 <= i < v@.len() implies bounds@[0].units
                <= (#[trigger] v@[i]).units <= bounds@[bounds@.len() - 1].units by {
                lemma_data_extent(v@, i);
            }
        }
        let counts: Vec<u64> = count_values(v, &bounds);
        let nbins = counts.len();
        let range_units: i128 = bounds[bounds.len() - 1].units - bounds[0].units;
        let mut bin_counts: Vec<Fixed> = Vec::new();
        let mut bin_densities: Vec<Fixed> = Vec::new();
        let mut k: usize = 0;
        while k < nbins
            invariant
                k <= nbins,
                nbins == counts@.len(),
                nbins == bounds@.len() - 1,
                2 <= bounds@.len() <= 10_001,
                forall|i: int| 0 <= i < counts@.len() ==> #[trigger] counts@[i] <= 1_000_000_000,
                forall|i: int|
                    0 <= i < counts@.len() ==> counts@[i] == spec_bin_count(v@, bounds@, i),
                1 <= range_units <= 2 * MAX_UNITS,
                bin_counts@.len() == k,
                bin_densities@.len() == k,
                forall|i: int|
                    0 <= i < k ==> (#[trigger] bin_counts@[i]).units == UNIT * spec_bin_count(
                        v@,
                        bounds@,
                        i,
                    ),
                forall|i: int|
                    0 <= i < k ==> 0 <= (#[trigger] bin_counts@[i]).units <= MAX_UNITS,
                forall|i: int|
                    0 <= i < k ==> (#[trigger] bin_densities@[i]).units == spec_div_units(
                        spec_bin_count(v@, bounds@, i) * (counts@.len() as int) * UNIT,
                        range_units as int,
                    ),
                forall|i: int|
                    0 <= i < k ==> 0 <= (#[trigger] bin_densities@[i]).units <= MAX_UNITS,
            decreases nbins - k,
        {
            let c: u64 = counts[k];
            bin_counts.push(Fixed { units: (c as i128) * UNIT });
            proof {
                assert(0 <= (c as i128) * (nbins as i128) <= 10_000_000_000_000)
                    by (nonlinear_arith)
                    requires
                        0 <= c <= 1_000_000_000,
                        0 <= nbins <= 10_000,
                ;
            }
            let a: i128 = (c as i128) * (nbins as i128) * UNIT;
            let d: i128 = div_units(a, range_units);
            bin_densities.push(Fixed { units: d });
            k = k + 1;
        }
        Histogram {
            bin_bounds: bounds,
            bin_counts,
            bin_densities,
            style: BoxStyle::new(),
            h_type: HistogramType::Count,
        }
    }
}

/// Every data value lies between the data's extremes.
proof fn lemma_data_extent(data: Seq<Fixed>, i: int)
    requires
        0 <= i < data.len(),
    ensures
        spec_data_min(data) <= data[i].units <= spec_data_max(data),
    decreases data.len(),
{
    if i < data.len() - 1 {
        lemma_data_extent(data.drop_last(), i);
    }
}

/// With data present the minimum never exceeds the maximum.
proof fn lemma_data_extent_order(data: Seq<Fixed>)
    requires
        data.len() >= 1,
    ensures
        spec_data_min(data) <= spec_data_max(data),
{
    lemma_data_extent(data, 0);
}

/// The padded range of the data: ascending, and within the magnitude
/// the data keeps clear.
fn data_range(v: &[Fixed]) -> (r: (i128, i128))
    requires
        Histogram::data_ok(v@),
    ensures
        r.0 == spec_range_lower(v@),
        r.1 == spec_range_upper(v@),
        -MAX_UNITS <= r.0 < r.1 <= MAX_UNITS,
        forall|i: int| 0 <= i < v@.len() ==> r.0 <= (#[trigger] v@[i]).units <= r.1,
{
    let mut dmin: i128 = MAX_UNITS;
    let mut dmax: i128 = -MAX_UNITS;
    let mut i: usize = 0;
    while i < v.len()
        invariant
            i <= v@.len(),
            Histogram::data_ok(v@),
            dmin == spec_data_min(v@.take(i as int)),
            dmax == spec_data_max(v@.take(i as int)),
            i >= 1 ==> -MAX_UNITS + UNIT <= dmin <= MAX_UNITS - UNIT,
            i >= 1 ==> -MAX_UNITS + UNIT <= dmax <= MAX_UNITS - UNIT,
            i >= 1 ==> dmin <= dmax,
        decreases v@.len() - i,
    {
        let u: i128 = v[i].units;
        proof {
            assert(v@.take(i + 1).drop_last() =~= v@.take(i as int));
            assert(v@.take(i + 1).last() == v@[i as int]);
        }
        if u < dmin {
            dmin = u;
        }
        let u2: i128 = v[i].units;
        if u2 > dmax {
            dmax = u2;
        }
        i = i + 1;
    }
    proof {
        assert(v@.take(v@.len() as int) =~= v@);
        if v@.len() > 0 {
            lemma_data_extent_order(v@);
            assert forall|j: int| 0 <= j < v@.len() implies dmin <= (#[trigger] v@[j]).units
                <= dmax by {
                lemma_data_extent(v@, j);
            }
        }
    }
    if v.len() == 0 {
        (-HALF_UNIT, HALF_UNIT)
    } else if dmin == dmax {
        (dmin - HALF_UNIT, dmax + HALF_UNIT)
    } else {
        (dmin, dmax)
    }
}

/// `count` equal bins cut from `[lower, upper]`: interior bounds are
/// placed at the nearest representable positions, the outer bounds
/// exactly at the range's ends.
fn define_bin_bounds(lower: i128, upper: i128, count: usize) -> (r: Vec<Fixed>)
    requires
        -MAX_UNITS <= lower < upper <= MAX_UNITS,
        1 <= count <= 10_000,
    ensures
        r@.len() == count + 1,
        r@[0].units == lower,
        r@[count as int].units == upper,
        forall|k: int|
            0 <= k < count ==> (#[trigger] r@[k]).units == lower + round_half_from_zero(
                k * (upper - lower),
                count as int,
            ),
        spec_bounds_sorted(r@),
        forall|i: int| 0 <= i < r@.len() ==> (#[trigger] r@[i]).in_range(),
{
    let range: i128 = upper - lower;
    let mut bounds: Vec<Fixed> = Vec::new();
    let mut k: usize = 0;
    while k < count
        invariant
            k <= count,
            1 <= count <= 10_000,
            -MAX_UNITS <= lower < upper <= MAX_UNITS,
            range == upper - lower,
            bounds@.len() == k,
            forall|j: int|
                0 <= j < k ==> (#[trigger] bounds@[j]).units == lower + round_half_from_zero(
                    j * range,
                    count as int,
                ),
            forall|j: int| 0 <= j < k ==> lower <= (#[trigger] bounds@[j]).units <= upper,
        decreases count - k,
    {
        proof {
            assert(0 <= k * range <= 20_000_000_000_000_000_000_000_000_000_000_000_000)
                by (nonlinear_arith)
                requires
                    0 <= k <= 10_000,
                    0 <= range <= 2 * MAX_UNITS,
            ;
        }
        let off: i128 = round_ratio((k as i128) * range, count as i128);
        proof {
            assert(0 <= k as int * range) by (nonlinear_arith)
                requires
                    k >= 0,
                    range >= 0,
            ;
            assert(k as int * range <= count as int * range) by (nonlinear_arith)
                requires
                    k <= count,
                    range >= 0,
            ;
            crate::fixed::lemma_round_monotone(0, k as int * range, count as int);
            crate::fixed::lemma_round_monotone(k as int * range, count as int * range, count as int);
            assert(round_half_from_zero(0, count as int) == 0) by {
                vstd::arithmetic::div_mod::lemma_basic_div(count as int, 2 * count as int);
            }
            assert(round_half_from_zero(count as int * range, count as int) == range) by {
                assert(2 * (count as int * range) + count as int == (2 * count as int) * range
                    + count as int) by (nonlinear_arith);
                vstd::arithmetic::div_mod::lemma_div_multiples_vanish_fancy(
                    range as int,
                    count as int,
                    2 * count as int,
                );
            }
        }
        bounds.push(Fixed { units: lower + off });
        k = k + 1;
    }
    bounds.push(Fixed { units: upper });
    proof {
        assert(round_half_from_zero(0, count as int) == 0) by {
            vstd::arithmetic::div_mod::lemma_basic_div(count as int, 2 * count as int);
        }
        assert(bounds@[0].units == lower);
        assert forall|i: int| 0 <= i < bounds@.len() - 1 implies (#[trigger] bounds@[i]).units
            <= bounds@[i + 1].units by {
            if i + 1 < bounds@.len() - 1 {
                assert(i * (upper - lower) <= (i + 1) * (upper - lower)) by (nonlinear_arith)
                    requires
                        upper - lower >= 0,
                ;
                crate::fixed::lemma_round_monotone(
                    i * (upper - lower),
                    (i + 1) * (upper - lower),
                    count as int,
                );
            }
        }
    }
    bounds
}

/// How many data values each bin holds: each value is assigned to the
/// first bin whose closed span holds it.
fn count_values(v: &[Fixed], bounds: &Vec<Fixed>) -> (r: Vec<u64>)
    requires
        Histogram::data_ok(v@),
        2 <= bounds@.len() <= 10_001,
        spec_bounds_sorted(bounds@),
        forall|i: int|
            0 <= i < v@.len() ==> bounds@[0].units <= (#[trigger] v@[i]).units
                <= bounds@[bounds@.len() - 1].units,
    ensures
        r@.len() == bounds@.len() - 1,
        forall|k: int| 0 <= k < r@.len() ==> #[trigger] r@[k] == spec_bin_count(v@, bounds@, k),
        forall|k: int| 0 <= k < r@.len() ==> #[trigger] r@[k] <= v@.len(),
{
    let nbins = bounds.len() - 1;
    let mut counts: Vec<u64> = Vec::new();
    let mut k: usize = 0;
    while k < nbins
        invariant
            k <= nbins,
            counts@.len() == k,
            forall|j: int| 0 <= j < k ==> #[trigger] counts@[j] == 0,
        decreases nbins - k,
    {
        counts.push(0);
        k = k + 1;
    }
    proof {
        assert forall|j: int| 0 <= j < nbins implies counts@[j] == spec_bin_count(
            v@.take(0),
            bounds@,
            j,
        ) by {
            assert(v@.take(0).len() == 0);
        }
    }
    let mut i: usize = 0;
    while i < v.len()
        invariant
            i <= v@.len(),
            Histogram::data_ok(v@),
            2 <= bounds@.len() <= 10_001,
            spec_bounds_sorted(bounds@),
            forall|j: int|
                0 <= j < v@.len() ==> bounds@[0].units <= (#[trigger] v@[j]).units
                    <= bounds@[bounds@.len() - 1].units,
            nbins == bounds@.len() - 1,
            counts@.len() == nbins,
            forall|j: int|
                0 <= j < nbins ==> #[trigger] counts@[j] == spec_bin_count(
                    v@.take(i as int),
                    bounds@,
                    j,
                ),
            forall|j: int| 0 <= j < nbins ==> #[trigger] counts@[j] <= i,
        decreases v@.len() - i,
    {
        let u: i128 = v[i].units;
        proof {
            lemma_bin_exists_from(bounds@, u as int, 0);
        }
        let mut b: usize = 0;
        let mut chosen: usize = 0;
        let mut stop: bool = false;
        while b < nbins && !stop
            invariant
                b <= nbins,
                nbins == bounds@.len() - 1,
                spec_bin_of(bounds@, u as int) is Some,
                0 <= spec_bin_of(bounds@, u as int)->0 < nbins,
                !stop ==> spec_bin_of(bounds@, u as int) == spec_first_bin_from(
                    bounds@,
                    u as int,
                    b as nat,
                ),
                !stop ==> b <= spec_bin_of(bounds@, u as int)->0,
                stop ==> chosen == spec_bin_of(bounds@, u as int)->0,
                stop ==> chosen < nbins,
            decreases 2 * (nbins - b) + (if stop {
                0int
            } else {
                1int
            }),
        {
            if bounds[b].units <= u && u <= bounds[b + 1].units {
                chosen = b;
                stop = true;
            } else {
                proof {
                    lemma_first_bin_from_ge(bounds@, u as int, (b + 1) as nat);
                }
                b = b + 1;
            }
        }
        let ghost counts_pre = counts@;
        if stop {
            let cur: u64 = counts[chosen];
            counts.set(chosen, cur + 1);
        }
        proof {
            assert(stop);
            assert(v@.take(i + 1).drop_last() =~= v@.take(i as int));
            assert(v@.take(i + 1).last() == v@[i as int]);
            assert forall|j: int| 0 <= j < nbins implies #[trigger] counts@[j] == spec_bin_count(
                v@.take(i + 1),
                bounds@,
                j,
            ) by {
                if j != chosen {
                    assert(counts@[j] == counts_pre[j]);
                }
            }
        }
        i = i + 1;
    }
    proof {
        assert(v@.take(v@.len() as int) =~= v@);
    }
    counts
}

/// The smallest x component in a point list, with the empty-list
/// sentinel at the top of the range.
pub open spec fn spec_xs(data: Seq<(Fixed, Fixed)>) -> Seq<Fixed> {
    data.map_values(|p: (Fixed, Fixed)| p.0)
}

pub open spec fn spec_ys(data: Seq<(Fixed, Fixed)>) -> Seq<Fixed> {
    data.map_values(|p: (Fixed, Fixed)| p.1)
}

/// Every coordinate of every point is within the supported magnitude.
pub open spec fn points_ok(data: Seq<(Fixed, Fixed)>) -> bool {
    forall|i: int|
        0 <= i < data.len() ==> (#[trigger] data[i]).0.in_range() && data[i].1.in_range()
}

/// The extent of a coordinate list: its minimum and maximum, or the
/// inverted sentinel pair when the list is empty, so that an empty
/// extent never forms a valid range.
fn coord_extent(v: &Vec<(Fixed, Fixed)>, use_y: bool) -> (r: (Fixed, Fixed))
    requires
        points_ok(v@),
    ensures
        !use_y ==> r.0.units == spec_data_min(spec_xs(v@)) && r.1.units == spec_data_max(
            spec_xs(v@),
        ),
        use_y ==> r.0.units == spec_data_min(spec_ys(v@)) && r.1.units == spec_data_max(
            spec_ys(v@),
        ),
        r.0.in_range(),
        r.1.in_range(),
{
    let ghost coords = if use_y {
        spec_ys(v@)
    } else {
        spec_xs(v@)
    };
    let mut dmin: i128 = MAX_UNITS;
    let mut dmax: i128 = -MAX_UNITS;
    let mut i: usize = 0;
    while i < v.len()
        invariant
            i <= v@.len(),
            points_ok(v@),
            coords == if use_y {
                spec_ys(v@)
            } else {
                spec_xs(v@)
            },
            dmin == spec_data_min(coords.take(i as int)),
            dmax == spec_data_max(coords.take(i as int)),
            -MAX_UNITS <= dmin <= MAX_UNITS,
            -MAX_UNITS <= dmax <= MAX_UNITS,
        decreases v@.len() - i,
    {
        let u: i128 = if use_y {
            v[i].1.units
        } else {
            v[i].0.units
        };
        proof {
            assert(coords.take(i + 1).drop_last() =~= coords.take(i as int));
            assert(coords.take(i + 1).last() == coords[i as int]);
        }
        if u < dmin {
            dmin = u;
        }
        let u2: i128 = if use_y {
            v[i].1.units
        } else {
            v[i].0.units
        };
        if u2 > dmax {
            dmax = u2;
        }
        i = i + 1;
    }
    proof {
        assert(coords.take(coords.len() as int) =~= coords);
    }
    (Fixed { units: dmin }, Fixed { units: dmax })
}

/// The scatter representation: a set of points and how to draw them.
pub struct Scatter {
    pub data: Vec<(Fixed, Fixed)>,
    style: PointStyle,
}

impl Scatter {
    pub closed spec fn spec_style(self) -> PointStyle {
        self.style
    }

    pub closed spec fn spec_data(self) -> Seq<(Fixed, Fixed)> {
        self.data@
    }

    pub open spec fn wf(self) -> bool {
        points_ok(self.spec_data())
    }

    pub fn from_slice(v: &[(Fixed, Fixed)]) -> (r: Self)
        requires
            points_ok(v@),
        ensures
            r.spec_data() == v@,
            r.wf(),
            r.spec_style().spec_marker() is None,
            r.spec_style().spec_colour() is None,
    {
        let mut data: Vec<(Fixed, Fixed)> = Vec::new();
        let mut i: usize = 0;
        while i < v.len()
            invariant
                i <= v@.len(),
                data@ == v@.take(i as int),
            decreases v@.len() - i,
        {
            data.push(v[i]);
            proof {
                assert(v@.take(i + 1) =~= v@.take(i as int).push(v@[i as int]));
            }
            i = i + 1;
        }
        proof {
            assert(v@.take(v@.len() as int) =~= v@);
        }
        Scatter { data, style: PointStyle::new() }
    }

    /// Merges the given style over this scatter's: the other style's
    /// present fields win.
    pub fn style(self, style: &PointStyle) -> (r: Self)
        ensures
            r.spec_data() == self.spec_data(),
            self.wf() ==> r.wf(),
            r.spec_style().spec_marker() == if style.spec_marker() is Some {
                style.spec_marker()
            } else {
                self.spec_style().spec_marker()
            },
            r.spec_style().spec_colour() == if style.spec_colour() is Some {
                style.spec_colour()
            } else {
                self.spec_style().spec_colour()
            },
    {
        let mut merged = self;
        merged.style.overlay(style);
        merged
    }

    pub fn get_style(&self) -> (r: &PointStyle)
        ensures
            r == self.spec_style(),
    {
        &self.style
    }

    /// The x extent of the data; inverted when there is no data, so
    /// that it never passes for a valid range.
    pub fn x_range(&self) -> (r: (Fixed, Fixed))
        requires
            self.wf(),
        ensures
            r.0.units == spec_data_min(spec_xs(self.spec_data())),
            r.1.units == spec_data_max(spec_xs(self.spec_data())),
            r.0.in_range() && r.1.in_range(),
    {
        coord_extent(&self.data, false)
    }

    /// The y extent of the data, inverted when there is no data.
    pub fn y_range(&self) -> (r: (Fixed, Fixed))
        requires
            self.wf(),
        ensures
            r.0.units == spec_data_min(spec_ys(self.spec_data())),
            r.1.units == spec_data_max(spec_ys(self.spec_data())),
            r.0.in_range() && r.1.in_range(),
    {
        coord_extent(&self.data, true)
    }
}

/// A plot of points in the plane, drawn as markers, a joining line,
/// or both.
pub struct Plot {
    pub data: Vec<(Fixed, Fixed)>,
    /// `None` if no line should be displayed.
    pub line_style: Option<LineStyle>,
    /// `None` if no points should be displayed.
    pub point_style: Option<PointStyle>,
    pub legend: Option<String>,
}

impl Plot {
    pub open spec fn wf(self) -> bool {
        points_ok(self.data@)
    }

    pub fn new(data: Vec<(Fixed, Fixed)>) -> (r: Self)
        ensures
            r.data == data,
            r.line_style is None,
            r.point_style is None,
            r.legend is None,
    {
        Plot { data, line_style: None, point_style: None, legend: None }
    }

    /// Turns on line drawing, merging the style over any already
    /// set: the other style's present fields win.
    pub fn line_style(self, other: LineStyle) -> (r: Self)
        ensures
            r.data == self.data,
            r.point_style == self.point_style,
            r.legend == self.legend,
            r.line_style is Some,
            self.line_style is None ==> r.line_style == Some(other),
            self.line_style is Some ==> {
                &&& r.line_style->0.colour == (if other.colour is Some {
                    other.colour
                } else {
                    self.line_style->0.colour
                })
                &&& r.line_style->0.linejoin == (if other.linejoin is Some {
                    other.linejoin
                } else {
                    self.line_style->0.linejoin
                })
            },
    {
        let mut merged = self;
        match &mut merged.line_style {
            Some(s) => {
                s.overlay(&other);
            },
            None => {
                merged.line_style = Some(other);
            },
        }
        merged
    }

    /// Turns on point drawing, merging the style over any already
    /// set: the other style's present fields win.
    pub fn point_style(self, other: PointStyle) -> (r: Self)
        ensures
            r.data == self.data,
            r.line_style == self.line_style,
            r.legend == self.legend,
            r.point_style is Some,
            self.point_style is None ==> r.point_style == Some(other),
            self.point_style is Some ==> {
                &&& r.point_style->0.spec_marker() == (if other.spec_marker() is Some {
                    other.spec_marker()
                } else {
                    self.point_style->0.spec_marker()
                })
                &&& r.point_style->0.spec_colour() == (if other.spec_colour() is Some {
                    other.spec_colour()
                } else {
                    self.point_style->0.spec_colour()
                })
            },
    {
        let mut merged = self;
        match &mut merged.point_style {
            Some(s) => {
                s.overlay(&other);
            },
            None => {
                merged.point_style = Some(other);
            },
        }
        merged
    }

    pub fn legend(self, legend: String) -> (r: Self)
        ensures
            r.data == self.data,
            r.line_style == self.line_style,
            r.point_style == self.point_style,
            r.legend == Some(legend),
    {
        Plot { legend: Some(legend), ..self }
    }

    /// The x extent of the data, inverted when there is no data.
    pub fn x_range(&self) -> (r: (Fixed, Fixed))
        requires
            self.wf(),
        ensures
            r.0.units == spec_data_min(spec_xs(self.data@)),
            r.1.units == spec_data_max(spec_xs(self.data@)),
            r.0.in_range() && r.1.in_range(),
    {
        coord_extent(&self.data, false)
    }

    /// The y extent of the data, inverted when there is no data.
    pub fn y_range(&self) -> (r: (Fixed, Fixed))
        requires
            self.wf(),
        ensures
            r.0.units == spec_data_min(spec_ys(self.data@)),
            r.1.units == spec_data_max(spec_ys(self.data@)),
            r.0.in_range() && r.1.in_range(),
    {
        coord_extent(&self.data, true)
    }
}


impl Histogram {
    /// The x extent the histogram covers: its outer bin bounds.
    pub fn x_range(&self) -> (r: (Fixed, Fixed))
        requires
            self.wf(),
        ensures
            r.0 == self.spec_bounds()[0],
            r.1 == self.spec_bounds()[self.spec_bounds().len() - 1],
    {
        (self.bin_bounds[0], self.bin_bounds[self.bin_bounds.len() - 1])
    }

    /// The y extent the histogram covers: zero up to its tallest value.
    pub fn y_range(&self) -> (r: (Fixed, Fixed))
        requires
            self.wf(),
        ensures
            r.0.units == 0,
            r.1.units == spec_data_max(self.spec_values()),
            r.0.in_range() && r.1.in_range(),
    {
        let values = self.get_values();
        let mut dmax: i128 = -MAX_UNITS;
        let mut i: usize = 0;
        while i < values.len()
            invariant
                i <= values@.len(),
                values@ == self.spec_values(),
                self.wf(),
                dmax == spec_data_max(values@.take(i as int)),
                -MAX_UNITS <= dmax <= MAX_UNITS,
            decreases values@.len() - i,
        {
            proof {
                assert(values@.take(i + 1).drop_last() =~= values@.take(i as int));
                assert(values@.take(i + 1).last() == values@[i as int]);
            }
            let u: i128 = values[i].units;
            if u > dmax {
                dmax = u;
            }
            i = i + 1;
        }
        proof {
            assert(values@.take(values@.len() as int) =~= values@);
        }
        (Fixed { units: 0 }, Fixed { units: dmax })
    }

    /// The histogram's face as a block of text: the bar glyphs of
    /// [`text_render::render_face_bars`], cell for cell.
    pub fn to_text(
        &self,
        x_axis: &ContinuousAxis,
        y_axis: &ContinuousAxis,
        face_width: u32,
        face_height: u32,
    ) -> (r: String)
        requires
            self.wf(),
            x_axis.wf(),
            y_axis.wf(),
            1 <= face_width <= 10_000,
            1 <= face_height <= 10_000,
        ensures
            text_render::is_grid(r@, face_height as int, face_width as int),
            forall|row: int, col: int|
                #![trigger text_render::spec_lines(r@)[row][col]]
                0 <= row < face_height && 0 <= col < face_width
                    ==> text_render::spec_lines(r@)[row][col] == text_render::spec_bar_cell(
                    *self,
                    *y_axis,
                    text_render::spec_bound_offsets(*self, *x_axis, face_width as int),
                    face_height as int,
                    col + 1,
                    face_height - row,
                ),
    {
        text_render::render_face_bars(self, x_axis, y_axis, face_width, face_height)
    }
}

impl Scatter {
    /// The scatter's face as a block of text: the style's marker on
    /// every cell a point maps to, spaces elsewhere.
    pub fn to_text(
        &self,
        x_axis: &ContinuousAxis,
        y_axis: &ContinuousAxis,
        face_width: u32,
        face_height: u32,
    ) -> (r: String)
        requires
            self.wf(),
            x_axis.wf(),
            y_axis.wf(),
            1 <= face_width <= 10_000,
            1 <= face_height <= 10_000,
        ensures
            text_render::is_grid(r@, face_height as int, face_width as int),
            forall|row: int, col: int|
                #![trigger text_render::spec_lines(r@)[row][col]]
                0 <= row < face_height && 0 <= col < face_width
                    ==> text_render::spec_lines(r@)[row][col] == (if text_render::spec_point_at(
                    self.spec_data(),
                    *x_axis,
                    *y_axis,
                    face_width as int,
                    face_height as int,
                    col + 1,
                    face_height - row,
                ) {
                    text_render::spec_marker_char(
                        if self.spec_style().spec_marker() is Some {
                            self.spec_style().spec_marker()->0
                        } else {
                            crate::style::PointMarker::Circle
                        },
                    )
                } else {
                    ' '
                }),
    {
        text_render::render_face_points(
            self.data.as_slice(),
            x_axis,
            y_axis,
            face_width,
            face_height,
            &self.style,
        )
    }
}

impl Plot {
    /// The glyph the plot's face shows in one cell: the point
    /// marker where a point maps to the cell and a point style is
    /// set, a space everywhere else.
    pub open spec fn spec_face_cell(
        self,
        x_axis: ContinuousAxis,
        y_axis: ContinuousAxis,
        face_width: int,
        face_height: int,
        row: int,
        col: int,
    ) -> char {
        if self.point_style is Some && text_render::spec_point_at(
            self.data@,
            x_axis,
            y_axis,
            face_width,
            face_height,
            col + 1,
            face_height - row,
        ) {
            text_render::spec_marker_char(
                if self.point_style->0.spec_marker() is Some {
                    self.point_style->0.spec_marker()->0
                } else {
                    crate::style::PointMarker::Circle
                },
            )
        } else {
            ' '
        }
    }

    /// The plot's face as a block of text: its points when a point
    /// style is set, a blank face otherwise. A plot with a line style
    /// has no text rendering and is reported as unsupported rather
    /// than drawn blank.
    pub fn to_text(
        &self,
        x_axis: &ContinuousAxis,
        y_axis: &ContinuousAxis,
        face_width: u32,
        face_height: u32,
    ) -> (r: Result<String, Error>)
        requires
            self.wf(),
            x_axis.wf(),
            y_axis.wf(),
            1 <= face_width <= 10_000,
            1 <= face_height <= 10_000,
        ensures
            r is Err <==> self.line_style is Some,
            r is Ok ==> text_render::is_grid(r->Ok_0@, face_height as int, face_width as int),
            r is Ok ==> forall|row: int, col: int|
                #![trigger text_render::spec_lines(r->Ok_0@)[row][col]]
                0 <= row < face_height && 0 <= col < face_width
                    ==> text_render::spec_lines(r->Ok_0@)[row][col] == self.spec_face_cell(
                    *x_axis,
                    *y_axis,
                    face_width as int,
                    face_height as int,
                    row,
                    col,
                ),
    {
        if self.line_style.is_some() {
            return Err(
                Error::Unsupported {
                    what: "text rendering does not yet support line plots".to_owned(),
                },
            );
        }
        let face_lines = text_render::empty_face(face_width, face_height);
        let face_points = match &self.point_style {
            Some(point_style) => text_render::render_face_points(
                self.data.as_slice(),
                x_axis,
                y_axis,
                face_width,
                face_height,
                point_style,
            ),
            None => text_render::empty_face(face_width, face_height),
        };
        let merged = text_render::overlay(face_lines.as_str(), face_points.as_str(), 0, 0);
        proof {
            assert forall|row: int, col: int|
                #![trigger text_render::spec_lines(merged@)[row][col]]
                0 <= row < face_height && 0 <= col < face_width
                    implies text_render::spec_lines(merged@)[row][col] == self.spec_face_cell(
                    *x_axis,
                    *y_axis,
                    face_width as int,
                    face_height as int,
                    row,
                    col,
                ) by {
                // the upper face sits exactly over the blank face, so
                // each cell shows the upper face's glyph
                let over = text_render::spec_lines(face_points@);
                assert(text_render::spec_over_char(over, row, col) == over[row][col]);
            }
        }
        Ok(merged)
    }
}

/// One of the chart kinds a continuous view can hold. The set is
/// closed, so views dispatch by exhaustive matching.
pub enum ContinuousRepresentation {
    Histogram(Histogram),
    Scatter(Scatter),
    Plot(Plot),
}

impl ContinuousRepresentation {
    pub open spec fn wf(self) -> bool {
        match self {
            ContinuousRepresentation::Histogram(h) => h.wf(),
            ContinuousRepresentation::Scatter(s) => s.wf(),
            ContinuousRepresentation::Plot(p) => p.wf(),
        }
    }

    /// The extent of the representation's data along one dimension:
    /// `0` for x, `1` for y. Used for auto-scaling axes; an empty
    /// data set yields an inverted extent that never passes for a
    /// valid range.
    pub fn range(&self, dim: u32) -> (r: (Fixed, Fixed))
        requires
            self.wf(),
            dim <= 1,
        ensures
            r.0.in_range(),
            r.1.in_range(),
            r == self.spec_range(dim as int),
    {
        match self {
            ContinuousRepresentation::Histogram(h) => {
                if dim == 0 {
                    h.x_range()
                } else {
                    h.y_range()
                }
            },
            ContinuousRepresentation::Scatter(s) => {
                if dim == 0 {
                    s.x_range()
                } else {
                    s.y_range()
                }
            },
            ContinuousRepresentation::Plot(p) => {
                if dim == 0 {
                    p.x_range()
                } else {
                    p.y_range()
                }
            },
        }
    }

    /// The extent [`ContinuousRepresentation::range`] reports.
    pub open spec fn spec_range(self, dim: int) -> (Fixed, Fixed) {
        match self {
            ContinuousRepresentation::Histogram(h) => if dim == 0 {
                (h.spec_bounds()[0], h.spec_bounds()[h.spec_bounds().len() - 1])
            } else {
                (Fixed { units: 0 }, Fixed { units: spec_data_max(h.spec_values()) as i128 })
            },
            ContinuousRepresentation::Scatter(s) => if dim == 0 {
                (
                    Fixed { units: spec_data_min(spec_xs(s.spec_data())) as i128 },
                    Fixed { units: spec_data_max(spec_xs(s.spec_data())) as i128 },
                )
            } else {
                (
                    Fixed { units: spec_data_min(spec_ys(s.spec_data())) as i128 },
                    Fixed { units: spec_data_max(spec_ys(s.spec_data())) as i128 },
                )
            },
            ContinuousRepresentation::Plot(p) => if dim == 0 {
                (
                    Fixed { units: spec_data_min(spec_xs(p.data@)) as i128 },
                    Fixed { units: spec_data_max(spec_xs(p.data@)) as i128 },
                )
            } else {
                (
                    Fixed { units: spec_data_min(spec_ys(p.data@)) as i128 },
                    Fixed { units: spec_data_max(spec_ys(p.data@)) as i128 },
                )
            },
        }
    }

    /// The glyph this representation's face shows in one cell: bar
    /// glyphs for a histogram, point markers for a scatter or a
    /// point-styled plot, spaces elsewhere.
    pub open spec fn spec_face_cell(
        self,
        x_axis: ContinuousAxis,
        y_axis: ContinuousAxis,
        face_width: int,
        face_height: int,
        row: int,
        col: int,
    ) -> char {
        match self {
            ContinuousRepresentation::Histogram(h) => text_render::spec_bar_cell(
                h,
                y_axis,
                text_render::spec_bound_offsets(h, x_axis, face_width),
                face_height,
                col + 1,
                face_height - row,
            ),
            ContinuousRepresentation::Scatter(s) => if text_render::spec_point_at(
                s.spec_data(),
                x_axis,
                y_axis,
                face_width,
                face_height,
                col + 1,
                face_height - row,
            ) {
                text_render::spec_marker_char(
                    if s.spec_style().spec_marker() is Some {
                        s.spec_style().spec_marker()->0
                    } else {
                        crate::style::PointMarker::Circle
                    },
                )
            } else {
                ' '
            },
            ContinuousRepresentation::Plot(p) => p.spec_face_cell(
                x_axis,
                y_axis,
                face_width,
                face_height,
                row,
                col,
            ),
        }
    }

    /// The representation's face as a block of text: exactly the
    /// glyphs of [`ContinuousRepresentation::spec_face_cell`], in a
    /// face of exactly the requested dimensions. Only a plot that
    /// asks for lines has no text rendering.
    pub fn to_text(
        &self,
        x_axis: &ContinuousAxis,
        y_axis: &ContinuousAxis,
        face_width: u32,
        face_height: u32,
    ) -> (r: Result<String, Error>)
        requires
            self.wf(),
            x_axis.wf(),
            y_axis.wf(),
            1 <= face_width <= 10_000,
            1 <= face_height <= 10_000,
        ensures
            r is Err <==> (self matches ContinuousRepresentation::Plot(p) && p.line_style
                is Some),
            r is Ok ==> text_render::is_grid(r->Ok_0@, face_height as int, face_width as int),
            r is Ok ==> forall|row: int, col: int|
                #![trigger text_render::spec_lines(r->Ok_0@)[row][col]]
                0 <= row < face_height && 0 <= col < face_width
                    ==> text_render::spec_lines(r->Ok_0@)[row][col] == self.spec_face_cell(
                    *x_axis,
                    *y_axis,
                    face_width as int,
                    face_height as int,
                    row,
                    col,
                ),
    {
        match self {
            ContinuousRepresentation::Histogram(h) => Ok(
                h.to_text(x_axis, y_axis, face_width, face_height),
            ),
            ContinuousRepresentation::Scatter(s) => Ok(
                s.to_text(x_axis, y_axis, face_width, face_height),
            ),
            ContinuousRepresentation::Plot(p) => p.to_text(
                x_axis,
                y_axis,
                face_width,
                face_height,
            ),
        }
    }
}

} // verus!\n