//! Tick planning: nice step candidates, tick counting, step choice
//! and the planned tick positions themselves.

use plotlib::axis::{
    calculate_tick_step_for_range, calculate_ticks, number_of_ticks, ContinuousAxis, TickSteps,
};
use plotlib::fixed::Fixed;

/// The number `m / 1000`, written exactly.
fn fx(m: i64) -> Fixed {
    Fixed::from_milli(m)
}

fn take_steps(start: Fixed, n: usize) -> Vec<Fixed> {
    let mut t = TickSteps::start_at(start);
    let mut out = Vec::new();
    for _ in 0..n {
        out.push(t.next());
    }
    out
}

#[test]
fn test_tick_step_generator() {
    let ts = take_steps(fx(1_000), 7);
    assert_eq!(
        ts,
        [
            fx(1_000),
            fx(2_000),
            fx(4_000),
            fx(5_000),
            fx(10_000),
            fx(20_000),
            fx(40_000)
        ]
    );

    let ts = take_steps(fx(100_000), 5);
    assert_eq!(
        ts,
        [
            fx(100_000),
            fx(200_000),
            fx(400_000),
            fx(500_000),
            fx(1_000_000)
        ]
    );

    let ts = take_steps(fx(3_000), 5);
    assert_eq!(
        ts,
        [fx(4_000), fx(5_000), fx(10_000), fx(20_000), fx(40_000)]
    );

    let ts = take_steps(fx(8_000), 3);
    assert_eq!(ts, [fx(10_000), fx(20_000), fx(40_000)]);
}

#[test]
fn test_number_of_ticks() {
    assert_eq!(number_of_ticks(fx(-7_930), fx(15_580), fx(4_000)), 5);
    assert_eq!(number_of_ticks(fx(-7_930), fx(15_580), fx(5_000)), 5);
    assert_eq!(number_of_ticks(fx(0), fx(15_000), fx(4_000)), 4);
    assert_eq!(number_of_ticks(fx(0), fx(15_000), fx(5_000)), 4);
    assert_eq!(number_of_ticks(fx(5_000), fx(21_000), fx(4_000)), 4);
    assert_eq!(number_of_ticks(fx(5_000), fx(21_000), fx(5_000)), 4);
    assert_eq!(number_of_ticks(fx(-8_000), fx(15_580), fx(4_000)), 6);
    assert_eq!(number_of_ticks(fx(-8_000), fx(15_580), fx(5_000)), 5);
}

#[test]
fn test_calculate_tick_step_for_range() {
    assert_eq!(calculate_tick_step_for_range(fx(0), fx(3_000), 6), fx(1_000));
    assert_eq!(calculate_tick_step_for_range(fx(0), fx(6_000), 6), fx(2_000));
    assert_eq!(calculate_tick_step_for_range(fx(0), fx(11_000), 6), fx(2_000));
    assert_eq!(calculate_tick_step_for_range(fx(0), fx(14_000), 6), fx(4_000));
    assert_eq!(calculate_tick_step_for_range(fx(0), fx(15_000), 6), fx(5_000));
    assert_eq!(
        calculate_tick_step_for_range(fx(-1_000), fx(5_000), 6),
        fx(2_000)
    );
    assert_eq!(
        calculate_tick_step_for_range(fx(-7_930), fx(15_580), 6),
        fx(5_000)
    );
    assert_eq!(calculate_tick_step_for_range(fx(0), fx(60), 6), fx(20));
}

fn ticks(lower: i64, upper: i64, max_ticks: usize) -> Vec<Fixed> {
    calculate_ticks(fx(lower), fx(upper), max_ticks)
}

fn whole(values: &[i64]) -> Vec<Fixed> {
    values.iter().map(|&v| fx(v * 1000)).collect::<Vec<_>>()
}

#[test]
fn test_calculate_ticks() {
    assert_eq!(
        ticks(0, 1_000, 6),
        [fx(0), fx(200), fx(400), fx(600), fx(800), fx(1_000)]
    );
    assert_eq!(
        ticks(0, 2_000, 6),
        [fx(0), fx(400), fx(800), fx(1_200), fx(1_600), fx(2_000)]
    );
    assert_eq!(ticks(0, 3_000, 6), whole(&[0, 1, 2, 3]));
    assert_eq!(ticks(0, 4_000, 6), whole(&[0, 1, 2, 3, 4]));
    assert_eq!(ticks(0, 5_000, 6), whole(&[0, 1, 2, 3, 4, 5]));
    assert_eq!(ticks(0, 6_000, 6), whole(&[0, 2, 4, 6]));
    assert_eq!(ticks(0, 7_000, 6), whole(&[0, 2, 4, 6]));
    assert_eq!(ticks(0, 8_000, 6), whole(&[0, 2, 4, 6, 8]));
    assert_eq!(ticks(0, 9_000, 6), whole(&[0, 2, 4, 6, 8]));
    assert_eq!(ticks(0, 10_000, 6), whole(&[0, 2, 4, 6, 8, 10]));
    assert_eq!(ticks(0, 11_000, 6), whole(&[0, 2, 4, 6, 8, 10]));
    assert_eq!(ticks(0, 12_000, 6), whole(&[0, 4, 8, 12]));
    assert_eq!(ticks(0, 13_000, 6), whole(&[0, 4, 8, 12]));
    assert_eq!(ticks(0, 14_000, 6), whole(&[0, 4, 8, 12]));
    assert_eq!(ticks(0, 15_000, 6), whole(&[0, 5, 10, 15]));
    assert_eq!(ticks(0, 16_000, 6), whole(&[0, 4, 8, 12, 16]));
    assert_eq!(ticks(0, 17_000, 6), whole(&[0, 4, 8, 12, 16]));
    assert_eq!(ticks(0, 18_000, 6), whole(&[0, 4, 8, 12, 16]));
    assert_eq!(ticks(0, 19_000, 6), whole(&[0, 4, 8, 12, 16]));
    assert_eq!(ticks(0, 20_000, 6), whole(&[0, 4, 8, 12, 16, 20]));
    assert_eq!(ticks(0, 21_000, 6), whole(&[0, 4, 8, 12, 16, 20]));
    assert_eq!(ticks(0, 22_000, 6), whole(&[0, 4, 8, 12, 16, 20]));
    assert_eq!(ticks(0, 23_000, 6), whole(&[0, 4, 8, 12, 16, 20]));
    assert_eq!(ticks(0, 24_000, 6), whole(&[0, 5, 10, 15, 20]));
    assert_eq!(ticks(0, 25_000, 6), whole(&[0, 5, 10, 15, 20, 25]));
    assert_eq!(ticks(0, 26_000, 6), whole(&[0, 5, 10, 15, 20, 25]));
    assert_eq!(ticks(0, 27_000, 6), whole(&[0, 5, 10, 15, 20, 25]));
    assert_eq!(ticks(0, 28_000, 6), whole(&[0, 5, 10, 15, 20, 25]));
    assert_eq!(ticks(0, 29_000, 6), whole(&[0, 5, 10, 15, 20, 25]));
    assert_eq!(ticks(0, 30_000, 6), whole(&[0, 10, 20, 30]));
    assert_eq!(ticks(0, 31_000, 6), whole(&[0, 10, 20, 30]));
    assert_eq!(ticks(0, 40_000, 6), whole(&[0, 10, 20, 30, 40]));
    assert_eq!(ticks(0, 50_000, 6), whole(&[0, 10, 20, 30, 40, 50]));
    assert_eq!(ticks(0, 60_000, 6), whole(&[0, 20, 40, 60]));
    assert_eq!(ticks(0, 70_000, 6), whole(&[0, 20, 40, 60]));
    assert_eq!(ticks(0, 80_000, 6), whole(&[0, 20, 40, 60, 80]));
    assert_eq!(ticks(0, 90_000, 6), whole(&[0, 20, 40, 60, 80]));
    assert_eq!(ticks(0, 100_000, 6), whole(&[0, 20, 40, 60, 80, 100]));
    assert_eq!(ticks(0, 110_000, 6), whole(&[0, 20, 40, 60, 80, 100]));
    assert_eq!(ticks(0, 120_000, 6), whole(&[0, 40, 80, 120]));
    assert_eq!(ticks(0, 130_000, 6), whole(&[0, 40, 80, 120]));
    assert_eq!(ticks(0, 140_000, 6), whole(&[0, 40, 80, 120]));
    assert_eq!(ticks(0, 150_000, 6), whole(&[0, 50, 100, 150]));
    assert_eq!(ticks(0, 3_475_000, 6), whole(&[0, 1000, 2000, 3000]));

    assert_eq!(ticks(-10_000, -3_000, 6), whole(&[-10, -8, -6, -4]));

    // sub-unit steps stay exact
    assert_eq!(
        ticks(1_000, 1_500, 6),
        [fx(1_000), fx(1_100), fx(1_200), fx(1_300), fx(1_400), fx(1_500)]
    );
    assert_eq!(
        ticks(0, 1_000, 6),
        [fx(0), fx(200), fx(400), fx(600), fx(800), fx(1_000)]
    );
    assert_eq!(ticks(0, 300, 4), [fx(0), fx(100), fx(200), fx(300)]);
}

#[test]
fn axis_carries_the_planned_ticks() {
    let ax = ContinuousAxis::new(fx(0), fx(15_000), 6);
    assert_eq!(ax.ticks(), &calculate_ticks(fx(0), fx(15_000), 6));
    assert_eq!(ax.ticks(), &whole(&[0, 5, 10, 15]));
}
