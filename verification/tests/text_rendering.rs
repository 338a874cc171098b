//! The character-grid engine: cell mapping, bin columns, labels,
//! faces and the overlay primitive.

use plotlib::axis::ContinuousAxis;
use plotlib::fixed::Fixed;
use plotlib::repr::{Histogram, HistogramBins, Scatter};
use plotlib::style::PointStyle;
use plotlib::text_render::{
    bins_for_cells, overlay, render_face_bars, render_face_points, render_x_axis_strings,
    render_y_axis_strings, value_to_axis_cell_offset, XAxisLabel,
};

/// The number `m / 1000`, written exactly.
fn fx(m: i64) -> Fixed {
    Fixed::from_milli(m)
}

#[test]
fn test_bins_for_cells() {
    let face_width = 10;
    let n = i32::max_value();
    let run_bins_for_cells = |bound_cell_offsets: &[i32]| -> Vec<i32> {
        bins_for_cells(&bound_cell_offsets.to_vec(), face_width)
            .iter()
            .map(|&a| a.unwrap_or(n))
            .collect()
    };

    assert_eq!(
        run_bins_for_cells(&[-4, -1, 4, 7, 10]),
        [1, 1, 1, 1, 1, 2, 2, 2, 3, 3, 3, n]
    );
    assert_eq!(
        run_bins_for_cells(&[0, 2, 4, 8, 10]),
        [n, 0, 0, 1, 1, 2, 2, 2, 2, 3, 3, n]
    );
    assert_eq!(
        run_bins_for_cells(&[3, 5, 7, 9, 10]),
        [n, n, n, n, 0, 0, 1, 1, 2, 2, 3, n]
    );
    assert_eq!(
        run_bins_for_cells(&[0, 2, 4, 6, 8]),
        [n, 0, 0, 1, 1, 2, 2, 3, 3, n, n, n]
    );
    assert_eq!(
        run_bins_for_cells(&[0, 3, 6, 9, 12]),
        [n, 0, 0, 0, 1, 1, 1, 2, 2, 2, 3, 3]
    );

    assert_eq!(
        run_bins_for_cells(&[-5, -4, -3, -1, 0]),
        [3, n, n, n, n, n, n, n, n, n, n, n]
    );
    assert_eq!(
        run_bins_for_cells(&[10, 12, 14, 16, 18]),
        [n, n, n, n, n, n, n, n, n, n, n, 0]
    );

    assert_eq!(
        run_bins_for_cells(&[15, 16, 17, 18, 19]),
        [n, n, n, n, n, n, n, n, n, n, n, n]
    );
    assert_eq!(
        run_bins_for_cells(&[-19, -18, -17, -16, -1]),
        [n, n, n, n, n, n, n, n, n, n, n, n]
    );
}

#[test]
fn test_value_to_axis_cell_offset() {
    assert_eq!(
        value_to_axis_cell_offset(fx(3_000), &ContinuousAxis::new(fx(5_000), fx(10_000), 6), 10),
        -4
    );
}

#[test]
fn test_x_axis_label() {
    let l = XAxisLabel {
        text: "3".to_string(),
        offset: 2,
    };
    assert_eq!(l.len(), 1);
    assert!(l.footprint() % 2 != 0);
    assert_eq!(l.start_offset(), 2);

    let l = XAxisLabel {
        text: "34".to_string(),
        offset: 2,
    };
    assert_eq!(l.len(), 2);
    assert!(l.footprint() % 2 != 0);
    assert_eq!(l.start_offset(), 1);

    let l = XAxisLabel {
        text: "345".to_string(),
        offset: 2,
    };
    assert_eq!(l.len(), 3);
    assert!(l.footprint() % 2 != 0);
    assert_eq!(l.start_offset(), 1);

    let l = XAxisLabel {
        text: "3454".to_string(),
        offset: 1,
    };
    assert_eq!(l.len(), 4);
    assert!(l.footprint() % 2 != 0);
    assert_eq!(l.start_offset(), -1);
}

#[test]
fn test_render_y_axis_strings() {
    let y_axis = ContinuousAxis::new(fx(0), fx(10_000), 6);

    let (y_axis_string, longest_y_label_width) = render_y_axis_strings(&y_axis, 10);

    assert!(y_axis_string.contains(&"0".to_string()));
    assert!(y_axis_string.contains(&"6".to_string()));
    assert!(y_axis_string.contains(&"10".to_string()));
    assert_eq!(longest_y_label_width, 2);
}

#[test]
fn test_render_x_axis_strings() {
    let x_axis = ContinuousAxis::new(fx(0), fx(10_000), 6);

    let (x_axis_string, start_offset) = render_x_axis_strings(&x_axis, 20);

    assert!(x_axis_string.contains("0 "));
    assert!(x_axis_string.contains(" 6 "));
    assert!(x_axis_string.contains(" 10"));
    assert_eq!(x_axis_string.chars().filter(|&c| c == '|').count(), 6);
    assert_eq!(start_offset, 0);
}

#[test]
fn test_render_face_bars() {
    let data = vec![
        fx(300),
        fx(500),
        fx(6_400),
        fx(5_300),
        fx(3_600),
        fx(3_600),
        fx(3_500),
        fx(7_500),
        fx(4_000),
    ];
    let h = Histogram::from_slice(&data, HistogramBins::Count(10));
    let x_axis = ContinuousAxis::new(fx(300), fx(7_500), 6);
    let y_axis = ContinuousAxis::new(fx(0), fx(3_000), 6);
    let strings = render_face_bars(&h, &x_axis, &y_axis, 20, 10);
    assert_eq!(strings.lines().count(), 10);
    assert!(strings.lines().all(|s| s.chars().count() == 20));

    let comp = vec![
        "       ---          ",
        "       | |          ",
        "       | |          ",
        "--     | |          ",
        " |     | |          ",
        " |     | |          ",
        " |     | |          ",
        " |     | |---- -----",
        " |     | | | | | | |",
        " |     | | | | | | |",
    ]
    .join("\n");

    assert_eq!(&strings, &comp);
}

#[test]
fn test_render_face_points() {
    let data = vec![
        (fx(-3_000), fx(2_300)),
        (fx(-1_600), fx(5_300)),
        (fx(300), fx(700)),
        (fx(4_300), fx(-1_400)),
        (fx(6_400), fx(4_300)),
        (fx(8_500), fx(3_700)),
    ];
    let s = Scatter::from_slice(&data);
    let x_axis = ContinuousAxis::new(fx(-3_575), fx(9_075), 6);
    let y_axis = ContinuousAxis::new(fx(-1_735), fx(5_635), 6);
    let style = PointStyle::new();
    let strings = render_face_points(&s.data, &x_axis, &y_axis, 20, 10, &style);
    assert_eq!(strings.lines().count(), 10);
    assert!(strings.lines().all(|s| s.chars().count() == 20));

    let comp = vec![
        "  ●                 ",
        "                    ",
        "               ●    ",
        "                  ● ",
        "                    ",
        "●                   ",
        "                    ",
        "     ●              ",
        "                    ",
        "                    ",
    ]
    .join("\n");

    assert_eq!(&strings, &comp);
}

#[test]
fn test_overlay() {
    let a = " ooo ";
    let b = "  #  ";
    let r = " o#o ";
    assert_eq!(overlay(a, b, 0, 0), r);

    let a = " o o o o o o o o o o ";
    let b = "# # # # #";
    let r = " o#o#o#o#o#o o o o o ";
    assert_eq!(overlay(a, b, 2, 0), r);

    let a = "     \n   o \n o  o\nooooo\no o o";
    let b = "  #  \n   # \n     \n  ## \n   ##";
    let r = "  #  \n   # \n o  o\noo##o\no o##";
    assert_eq!(overlay(a, b, 0, 0), r);

    let a = "     \n   o \n o  o\nooooo\no o o";
    let b = "  #\n## ";
    let r = "     \n   o \n o #o\no##oo\no o o";
    assert_eq!(overlay(a, b, 1, 2), r);

    let a = "     \n   o \n o  o\nooooo\no o o";
    let b = "###\n###\n###";
    let r = "##   \n## o \n o  o\nooooo\no o o";
    assert_eq!(overlay(a, b, -1, -1), r);

    let a = "oo\noo";
    let b = "    \n  # \n #  \n    ";
    let r = "o#\n#o";
    assert_eq!(overlay(a, b, -1, -1), r);
}

#[test]
fn overlay_keeps_under_dimensions() {
    // the lower block's shape survives any shift of the upper block
    let under = "abc\nde\nfghi";
    for &(x, y) in &[(0, 0), (3, 1), (-2, -1), (10, 10), (-10, -10)] {
        let merged = overlay(under, "##\n##", x, y);
        let under_lines: Vec<&str> = under.split('\n').collect();
        let merged_lines: Vec<&str> = merged.split('\n').collect();
        assert_eq!(merged_lines.len(), under_lines.len());
        for (m, u) in merged_lines.iter().zip(under_lines.iter()) {
            assert_eq!(m.chars().count(), u.chars().count());
        }
    }
}

#[test]
fn fixed_numbers_render_as_plain_decimals() {
    assert_eq!(Fixed::from_milli(1_100).to_text(), "1.1");
    assert_eq!(Fixed::from_int(-8).to_text(), "-8");
    assert_eq!(Fixed::from_int(0).to_text(), "0");
    assert_eq!(Fixed::from_milli(500).to_text(), "0.5");
    assert_eq!(Fixed::from_milli(-2_050).to_text(), "-2.05");
    assert_eq!(Fixed::from_int(3_475).to_text(), "3475");
}

#[test]
fn crowded_x_labels_overwrite_earlier_ones() {
    // on a 4-cell face the ticks 4 and 6 share a column; the higher
    // tick keeps the cell, and the wide final label trims its
    // neighbour instead of blending with it
    let x_axis = ContinuousAxis::new(fx(0), fx(10_000), 6);
    let (s, start_offset) = render_x_axis_strings(&x_axis, 4);
    let lines: Vec<&str> = s.split('\n').collect();
    assert_eq!(start_offset, 0);
    assert_eq!(lines[0], "+----");
    assert_eq!(lines[1], "|||||");
    assert_eq!(lines[2], "02610 ");
}
