//! Histogram binning: counts, degenerate ranges, shared boundaries
//! and densities.

use plotlib::fixed::Fixed;
use plotlib::repr::{Histogram, HistogramBins};

/// The number `m / 1000`, written exactly.
fn fx(m: i64) -> Fixed {
    Fixed::from_milli(m)
}

fn whole(values: &[i64]) -> Vec<Fixed> {
    values.iter().map(|&v| Fixed::from_int(v)).collect()
}

#[test]
fn test_histogram_from_slice() {
    assert_eq!(
        Histogram::from_slice(&[], HistogramBins::Count(3)).get_values(),
        &whole(&[0, 0, 0])
    );
    assert_eq!(
        Histogram::from_slice(&[fx(0)], HistogramBins::Count(3)).get_values(),
        &whole(&[0, 1, 0])
    );
    assert_eq!(
        Histogram::from_slice(&[fx(0), fx(3_000)], HistogramBins::Count(3)).get_values(),
        &whole(&[1, 0, 1])
    );
    assert_eq!(
        Histogram::from_slice(
            &[fx(0), fx(1_000), fx(2_000), fx(3_000)],
            HistogramBins::Count(3)
        )
        .get_values(),
        &whole(&[2, 1, 1])
    );
}

#[test]
fn histogram_test_histogram_from_slice() {
    assert_eq!(
        Histogram::from_slice(&[], HistogramBins::Count(3)).get_values(),
        &whole(&[0, 0, 0])
    );
    assert_eq!(
        Histogram::from_slice(&[fx(0)], HistogramBins::Count(3)).get_values(),
        &whole(&[0, 1, 0])
    );
    assert_eq!(
        Histogram::from_slice(&[fx(0), fx(3_000)], HistogramBins::Count(3)).get_values(),
        &whole(&[1, 0, 1])
    );
    assert_eq!(
        Histogram::from_slice(
            &[fx(0), fx(1_000), fx(2_000), fx(3_000)],
            HistogramBins::Count(3)
        )
        .get_values(),
        &whole(&[2, 1, 1])
    );
}

#[test]
fn explicit_bounds_are_kept() {
    let h = Histogram::from_slice(
        &[],
        HistogramBins::Bounds(vec![fx(0), fx(1_000), fx(1_500), fx(2_000), fx(5_600)]),
    );
    assert_eq!(
        h.bin_bounds,
        vec![fx(0), fx(1_000), fx(1_500), fx(2_000), fx(5_600)]
    );
    assert_eq!(h.num_bins(), 4);
}

#[test]
fn single_repeated_value_widens_the_range() {
    // a single-point data set gets the documented half-unit padding
    let h = Histogram::from_slice(&[fx(2_000)], HistogramBins::Count(4));
    assert_eq!(h.bin_bounds.first().copied(), Some(fx(1_500)));
    assert_eq!(h.bin_bounds.last().copied(), Some(fx(2_500)));
    assert_eq!(h.get_values(), &whole(&[0, 1, 0, 0]));
}

#[test]
fn boundary_value_lands_in_the_lower_bin() {
    // a value on a shared bin boundary is counted exactly once,
    // in the lower of the two bins that touch it
    let h = Histogram::from_slice(
        &[fx(1_000)],
        HistogramBins::Bounds(vec![fx(0), fx(1_000), fx(2_000)]),
    );
    assert_eq!(h.get_values(), &whole(&[1, 0]));
}

#[test]
fn densities_divide_counts_by_bin_width() {
    let h = Histogram::from_slice(&[fx(0), fx(4_000)], HistogramBins::Count(2)).density();
    assert_eq!(h.get_values(), &vec![fx(500), fx(500)]);
}
