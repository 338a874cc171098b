//! Views, styles, categorical axes and the pairwise helper.

use plotlib::axis::CategoricalAxis;
use plotlib::errors::Error;
use plotlib::fixed::Fixed;
use plotlib::grid::Grid;
use plotlib::repr::{ContinuousRepresentation, Histogram, HistogramBins, Plot, Scatter};
use plotlib::style::{BoxStyle, LineJoin, LineStyle, PointMarker, PointStyle};
use plotlib::utils::PairWise;
use plotlib::view::ContinuousView;

/// The number `m / 1000`, written exactly.
fn fx(m: i64) -> Fixed {
    Fixed::from_milli(m)
}

#[test]
fn test_pairwise() {
    let a = [1, 2, 3, 4, 5];
    assert_eq!(a.pairwise().first().copied(), Some((1, 2)));
    assert_eq!(a.pairwise().last().copied(), Some((4, 5)));
    assert_eq!(a.pairwise().len(), a.len() - 1);

    let a = [1, 2];
    assert_eq!(a.pairwise().first().copied(), Some((1, 2)));
    assert_eq!(a.pairwise().last().copied(), Some((1, 2)));
    assert_eq!(a.pairwise().len(), a.len() - 1);

    let a = [1];
    assert!(a.pairwise().first().is_none());

    let b: Vec<f64> = vec![0.0, 0.1, 0.2];
    assert_eq!(b.pairwise().first().copied(), Some((0.0, 0.1)));
}

#[test]
fn test_linestyle_plain_overlay() {
    let mut p = LineStyle::new();
    p.overlay(&LineStyle::new().colour("red").linejoin(LineJoin::Miter));
    assert_eq!(p.get_colour(), "red".to_string());
    if let LineJoin::Miter = p.get_linejoin() {
    } else {
        panic!()
    }
}

#[test]
fn box_style_overlay_takes_present_fields() {
    let mut base = BoxStyle::new();
    assert_eq!(base.get_fill(), "");
    base.overlay(&BoxStyle::new().fill("burlywood"));
    assert_eq!(base.get_fill(), "burlywood");
    base.overlay(&BoxStyle::new());
    assert_eq!(base.get_fill(), "burlywood");
}

#[test]
fn point_style_defaults_and_markers() {
    let p = PointStyle::new();
    assert!(matches!(p.get_marker(), PointMarker::Circle));
    let p = p.marker(PointMarker::Cross).colour("#ff0000");
    assert!(matches!(p.get_marker(), PointMarker::Cross));
    assert_eq!(p.get_colour(), "#ff0000");
}

#[test]
fn categorical_axis_keeps_its_categories() {
    let cats = vec!["a".to_string(), "b".to_string(), "c".to_string()];
    let ax = CategoricalAxis::new(&cats).label("kind".to_string());
    assert_eq!(ax.ticks(), &cats);
    assert_eq!(ax.get_label(), "kind");
}

#[test]
fn grid_defaults_to_dark_grey() {
    let g = Grid::new(3, 8);
    assert_eq!(g.nx, 3);
    assert_eq!(g.ny, 8);
    assert_eq!(g.color, "darkgrey");

    let d = Grid::default();
    assert_eq!(d.nx, 3);
    assert_eq!(d.ny, 3);
    assert_eq!(d.color, "darkgrey");
}

#[test]
fn view_renders_scatter_to_fixed_size_text() {
    let data = vec![(fx(-3_000), fx(2_300)), (fx(500), fx(-1_000)), (fx(4_000), fx(4_000))];
    let s = Scatter::from_slice(&data).style(&PointStyle::new().marker(PointMarker::Cross));
    let v = ContinuousView::new()
        .add(ContinuousRepresentation::Scatter(s))
        .x_label("x")
        .y_label("y");
    let text = v.to_text(20, 10).unwrap();
    assert_eq!(text.lines().count(), 14);
    let widths: Vec<usize> = text.lines().map(|l| l.chars().count()).collect();
    assert!(widths.iter().all(|&w| w == widths[0]));
    assert!(text.contains('×'));
}

#[test]
fn view_canvas_has_the_gutter_width() {
    // y ticks 0,2,..,10 make the widest label "10" (2 wide), so the
    // gutter is 2 + 3 and every canvas line is 20 + 2 + 5 wide
    let data = vec![(fx(1_000), fx(1_000)), (fx(9_000), fx(9_000))];
    let s = Scatter::from_slice(&data);
    let v = ContinuousView::new()
        .add(ContinuousRepresentation::Scatter(s))
        .x_range(fx(0), fx(10_000))
        .y_range(fx(0), fx(10_000));
    let text = v.to_text(20, 10).unwrap();
    assert_eq!(text.lines().count(), 14);
    assert!(text.lines().all(|l| l.chars().count() == 27));
}

#[test]
fn view_renders_histogram_to_text() {
    let data = vec![fx(0), fx(1_000), fx(1_000), fx(2_500), fx(4_000)];
    let h = Histogram::from_slice(&data, HistogramBins::Count(4));
    let v = ContinuousView::new().add(ContinuousRepresentation::Histogram(h));
    let text = v.to_text(30, 8).unwrap();
    assert_eq!(text.lines().count(), 12);
    assert!(text.contains('+'));
    assert!(text.contains('-'));
}

#[test]
fn empty_view_reports_invalid_range() {
    let v = ContinuousView::new();
    match v.to_text(20, 10) {
        Err(Error::InvalidRange { name, .. }) => assert_eq!(name, "x_range"),
        _ => panic!("an empty view has no valid range"),
    }
}

#[test]
fn line_plot_text_rendering_is_unsupported() {
    let p = Plot::new(vec![(fx(0), fx(0)), (fx(1_000), fx(1_000))])
        .line_style(LineStyle::new().colour("red"));
    let v = ContinuousView::new().add(ContinuousRepresentation::Plot(p));
    match v.to_text(20, 10) {
        Err(Error::Unsupported { .. }) => {}
        _ => panic!("line plots have no text rendering"),
    }
}

#[test]
fn point_plot_renders_like_a_scatter() {
    let p = Plot::new(vec![(fx(0), fx(0)), (fx(1_000), fx(1_000))])
        .point_style(PointStyle::new().marker(PointMarker::Square));
    let v = ContinuousView::new()
        .add(ContinuousRepresentation::Plot(p))
        .x_range(fx(-1_000), fx(2_000))
        .y_range(fx(-1_000), fx(2_000));
    let text = v.to_text(20, 10).unwrap();
    assert!(text.contains('■'));
}
