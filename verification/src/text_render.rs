//! The character-grid rendering engine.
//!
//! Everything here works on rectangular blocks of text: a block is a
//! string whose lines are separated by `'\n'`. The functions that
//! build faces promise the exact dimensions of what they return, and
//! [`overlay`] — the one primitive that merges blocks — promises the
//! dimensions of the lower block and says exactly which character ends
//! up in every cell.

use vstd::prelude::*;

use crate::axis;
use crate::fixed::Fixed;
use crate::fixed::push_char;
use crate::fixed::round_half_from_zero;
use crate::repr;
use crate::style;

verus! {

/// The lines of a block of text: the pieces between `'\n'` separators.
/// A block always has at least one line; an empty text has one empty
/// line.
pub open spec fn spec_lines(s: Seq<char>) -> Seq<Seq<char>>
    decreases s.len(),
    via spec_lines_decreases
{
    if !s.contains('\n') {
        seq![s]
    } else {
        let cut = s.index_of_first('\n')->0;
        seq![s.take(cut)] + spec_lines(s.skip(cut + 1))
    }
}

#[via_fn]
proof fn spec_lines_decreases(s: Seq<char>) {
    if s.contains('\n') {
        s.index_of_first_ensures('\n');
    }
}

/// Lines joined back into one block with `'\n'` separators.
pub open spec fn spec_join(rows: Seq<Seq<char>>) -> Seq<char>
    decreases rows.len(),
{
    if rows.len() == 0 {
        Seq::empty()
    } else if rows.len() == 1 {
        rows[0]
    } else {
        rows[0] + seq!['\n'] + spec_join(rows.drop_first())
    }
}

/// A single line holds no separator.
pub open spec fn row_has_no_newline(row: Seq<char>) -> bool {
    !row.contains('\n')
}

/// The block `s` is a grid of `height` lines, each `width` characters.
pub open spec fn is_grid(s: Seq<char>, height: int, width: int) -> bool {
    &&& spec_lines(s).len() == height
    &&& forall|i: int| 0 <= i < height ==> (#[trigger] spec_lines(s)[i]).len() == width
}

/// Peeling the first separator off a block peels its first line.
pub proof fn lemma_lines_head(head: Seq<char>, rest: Seq<char>)
    requires
        row_has_no_newline(head),
    ensures
        spec_lines(head + seq!['\n'] + rest) == seq![head] + spec_lines(rest),
{
    let s = head + seq!['\n'] + rest;
    assert(s[head.len() as int] == '\n');
    assert(s.contains('\n')) by {
        assert(s[head.len() as int] == '\n');
    }
    let cut = s.index_of_first('\n')->0;
    s.index_of_first_ensures('\n');
    assert(cut <= head.len()) by {
        if cut > head.len() {
            assert(s[head.len() as int] == '\n');
        }
    }
    assert(cut >= head.len()) by {
        if cut < head.len() {
            assert(head[cut] == '\n');
            assert(head.contains('\n')) by {
                assert(head[cut] == '\n');
            }
        }
    }
    assert(s.take(head.len() as int) =~= head);
    assert(s.skip(head.len() as int + 1) =~= rest);
    assert(spec_lines(s) =~= seq![head] + spec_lines(rest));
}

/// Splitting undoes joining, as long as no row smuggles a separator in.
pub proof fn lemma_lines_of_join(rows: Seq<Seq<char>>)
    requires
        rows.len() >= 1,
        forall|i: int| 0 <= i < rows.len() ==> row_has_no_newline(#[trigger] rows[i]),
    ensures
        spec_lines(spec_join(rows)) == rows,
    decreases rows.len(),
{
    let s = spec_join(rows);
    if rows.len() == 1 {
        assert(s == rows[0]);
        assert(!s.contains('\n'));
        assert(spec_lines(s) =~= rows);
    } else {
        lemma_lines_head(rows[0], spec_join(rows.drop_first()));
        lemma_lines_of_join(rows.drop_first());
        assert(spec_lines(s) =~= seq![rows[0]] + rows.drop_first());
        assert(seq![rows[0]] + rows.drop_first() =~= rows);
    }
}

/// No line of a block contains a separator.
pub proof fn lemma_lines_no_newline(s: Seq<char>)
    ensures
        forall|i: int|
            0 <= i < spec_lines(s).len() ==> row_has_no_newline(#[trigger] spec_lines(s)[i]),
    decreases s.len(),
{
    if !s.contains('\n') {
        assert(spec_lines(s) == seq![s]);
    } else {
        let cut = s.index_of_first('\n')->0;
        s.index_of_first_ensures('\n');
        let head = s.take(cut);
        assert(row_has_no_newline(head)) by {
            if head.contains('\n') {
                let k = choose|k: int| 0 <= k < head.len() && head[k] == '\n';
                assert(s[k] == '\n');
            }
        }
        lemma_lines_no_newline(s.skip(cut + 1));
        assert(forall|i: int|
            1 <= i < spec_lines(s).len() ==> spec_lines(s)[i] == spec_lines(s.skip(cut + 1))[i
                - 1]);
    }
}

/// Every block has at least one line.
pub proof fn lemma_lines_len_pos(s: Seq<char>)
    ensures
        spec_lines(s).len() >= 1,
{
}

/// The lines of a block of text, as rows of characters.
fn split_lines(s: &str) -> (r: Vec<Vec<char>>)
    ensures
        r@.map_values(|v: Vec<char>| v@) == spec_lines(s@),
        r@.len() >= 1,
{
    let n = s.unicode_len();
    let mut done: Vec<Vec<char>> = Vec::new();
    let mut cur: Vec<char> = Vec::new();
    let mut i: usize = 0;
    proof {
        assert(cur@ + s@.skip(0) =~= s@);
        assert(done@.map_values(|v: Vec<char>| v@) + spec_lines(s@) =~= spec_lines(s@));
    }
    while i < n
        invariant
            i <= n,
            n == s@.len(),
            row_has_no_newline(cur@),
            spec_lines(s@) =~= done@.map_values(|v: Vec<char>| v@) + spec_lines(
                cur@ + s@.skip(i as int),
            ),
        decreases n - i,
    {
        let ghost done_pre = done@.map_values(|v: Vec<char>| v@);
        let c = s.get_char(i);
        if c == '\n' {
            proof {
                assert(cur@ + s@.skip(i as int) =~= cur@ + seq!['\n'] + s@.skip(i as int + 1));
                lemma_lines_head(cur@, s@.skip(i as int + 1));
            }
            done.push(cur);
            cur = Vec::new();
            proof {
                assert(done@.map_values(|v: Vec<char>| v@) =~= done_pre.push(
                    done@[done@.len() - 1]@,
                ));
                assert(done_pre + (seq![done@[done@.len() - 1]@] + spec_lines(
                    s@.skip(i as int + 1),
                )) =~= done@.map_values(|v: Vec<char>| v@) + spec_lines(s@.skip(i as int + 1)));
                assert(cur@ + s@.skip(i as int + 1) =~= s@.skip(i as int + 1));
            }
        } else {
            let ghost cur_pre = cur@;
            cur.push(c);
            proof {
                assert(cur@ + s@.skip(i as int + 1) =~= cur_pre + s@.skip(i as int));
            }
        }
        i = i + 1;
    }
    proof {
        assert(cur@ + s@.skip(i as int) =~= cur@);
        assert(spec_lines(cur@) == seq![cur@]);
    }
    let ghost done_pre = done@.map_values(|v: Vec<char>| v@);
    done.push(cur);
    proof {
        assert(done@.map_values(|v: Vec<char>| v@) =~= done_pre.push(done@[done@.len() - 1]@));
        assert(done_pre + seq![done@[done@.len() - 1]@] =~= done@.map_values(
            |v: Vec<char>| v@,
        ));
    }
    done
}

/// The cell a value falls in: the range `[lower, upper]` is spread
/// over `cells` cells, and the value's position is rounded to the
/// nearest cell boundary.
pub open spec fn spec_cell_offset(value: int, lower: int, upper: int, cells: int) -> int {
    round_half_from_zero((value - lower) * cells, upper - lower)
}

/// `v` clamped to the `i32` range.
pub open spec fn clamp_i32(v: int) -> int {
    if v < i32::MIN {
        i32::MIN as int
    } else if v > i32::MAX {
        i32::MAX as int
    } else {
        v
    }
}

/// How far from the axis origin, in cells, a value sits, clamped to
/// the `i32` range.
pub fn value_to_axis_cell_offset(value: Fixed, axis: &axis::ContinuousAxis, face_cells: u32) -> (r:
    i32)
    requires
        value.in_range(),
        axis.wf(),
        face_cells <= 10_000,
    ensures
        r == clamp_i32(
            spec_cell_offset(
                value.units as int,
                axis.spec_min().units as int,
                axis.spec_max().units as int,
                face_cells as int,
            ),
        ),
{
    let lower: i128 = axis.min().units;
    let upper: i128 = axis.max().units;
    proof {
        assert(-20_000_000_000_000_000_000_000_000_000_000_000_000
            <= (value.units - lower) * (face_cells as i128)
            <= 20_000_000_000_000_000_000_000_000_000_000_000_000) by (nonlinear_arith)
            requires
                -2_000_000_000_000_000_000_000_000_000_000_000 <= value.units - lower
                    <= 2_000_000_000_000_000_000_000_000_000_000_000,
                0 <= face_cells <= 10_000,
        ;
    }
    let num: i128 = (value.units - lower) * (face_cells as i128);
    let den: i128 = upper - lower;
    let mag: u128 = if num >= 0 {
        num as u128
    } else {
        (-num) as u128
    };
    let qmag: u128 = (2 * mag + den as u128) / (2 * (den as u128));
    proof {
        vstd::arithmetic::div_mod::lemma_div_nonincreasing(
            2 * mag + den as int,
            2 * (den as int),
        );
        vstd::arithmetic::div_mod::lemma_div_pos_is_pos(2 * mag + den as int, 2 * (den as int));
    }
    let q: i128 = if num >= 0 {
        qmag as i128
    } else {
        -(qmag as i128)
    };
    if q < i32::MIN as i128 {
        i32::MIN
    } else if q > i32::MAX as i128 {
        i32::MAX
    } else {
        q as i32
    }
}

/// The cell offset of a value on an axis, as [`value_to_axis_cell_offset`]
/// computes it.
pub open spec fn spec_axis_offset(value: Fixed, ax: axis::ContinuousAxis, cells: int) -> int {
    clamp_i32(
        spec_cell_offset(
            value.units as int,
            ax.spec_min().units as int,
            ax.spec_max().units as int,
            cells,
        ),
    )
}

/// Cell offsets keep the order of the values they come from.
proof fn lemma_axis_offset_monotone(v1: Fixed, v2: Fixed, ax: axis::ContinuousAxis, cells: int)
    requires
        ax.wf(),
        v1.units <= v2.units,
        cells >= 0,
    ensures
        spec_axis_offset(v1, ax, cells) <= spec_axis_offset(v2, ax, cells),
{
    let lo = ax.spec_min().units as int;
    let hi = ax.spec_max().units as int;
    assert((v1.units - lo) * cells <= (v2.units - lo) * cells) by (nonlinear_arith)
        requires
            v1.units <= v2.units,
            cells >= 0,
    ;
    crate::fixed::lemma_round_monotone((v1.units - lo) * cells, (v2.units - lo) * cells, hi - lo);
}

/// A value inside the axis range lands on a cell of the face: offsets
/// of in-range values run from `0` to `cells`.
proof fn lemma_axis_offset_in_face(v: Fixed, ax: axis::ContinuousAxis, cells: int)
    requires
        ax.wf(),
        0 <= cells <= 10_000,
        ax.spec_min().units <= v.units <= ax.spec_max().units,
    ensures
        0 <= spec_axis_offset(v, ax, cells) <= cells,
        spec_axis_offset(v, ax, cells) == spec_cell_offset(
            v.units as int,
            ax.spec_min().units as int,
            ax.spec_max().units as int,
            cells,
        ),
{
    let lo = ax.spec_min().units as int;
    let hi = ax.spec_max().units as int;
    let num = (v.units - lo) * cells;
    let den = hi - lo;
    assert(0 <= num && num <= den * cells) by (nonlinear_arith)
        requires
            num == (v.units - lo) * cells,
            den == hi - lo,
            0 <= v.units - lo <= den,
            cells >= 0,
    ;
    vstd::arithmetic::div_mod::lemma_div_pos_is_pos(2 * num + den, 2 * den);
    assert(2 * num + den <= 2 * (den * cells) + den);
    vstd::arithmetic::div_mod::lemma_div_is_ordered(2 * num + den, 2 * (den * cells) + den, 2 * den);
    assert(2 * (den * cells) + den == (2 * den) * cells + den) by (nonlinear_arith);
    vstd::arithmetic::div_mod::lemma_div_multiples_vanish_fancy(cells, den, 2 * den);
    assert(((2 * den) * cells + den) / (2 * den) == cells);
    assert(round_half_from_zero(num, den) <= cells);
}

/// The mapped cell columns of a histogram's bin bounds.
pub open spec fn spec_bound_offsets(h: repr::Histogram, x_axis: axis::ContinuousAxis, w: int) -> Seq<
    i32,
> {
    h.spec_bounds().map_values(|b: Fixed| spec_axis_offset(b, x_axis, w) as i32)
}

/// Where each bin bound of a histogram falls on the face, in cells.
pub fn bound_cell_offsets(
    hist: &repr::Histogram,
    x_axis: &axis::ContinuousAxis,
    face_width: u32,
) -> (r: Vec<i32>)
    requires
        hist.wf(),
        x_axis.wf(),
        face_width <= 10_000,
    ensures
        r@ == spec_bound_offsets(*hist, *x_axis, face_width as int),
        r@.len() == hist.spec_bounds().len(),
        forall|i: int| 0 <= i < r@.len() - 1 ==> #[trigger] r@[i] <= r@[i + 1],
{
    let bounds = hist.bounds();
    let mut out: Vec<i32> = Vec::new();
    let mut i: usize = 0;
    while i < bounds.len()
        invariant
            i <= bounds@.len(),
            bounds@ == hist.spec_bounds(),
            hist.wf(),
            x_axis.wf(),
            face_width <= 10_000,
            out@.len() == i,
            forall|j: int|
                0 <= j < i ==> #[trigger] out@[j] == spec_axis_offset(
                    bounds@[j],
                    *x_axis,
                    face_width as int,
                ),
        decreases bounds@.len() - i,
    {
        let off = value_to_axis_cell_offset(bounds[i], x_axis, face_width);
        out.push(off);
        i = i + 1;
    }
    proof {
        assert(out@ =~= spec_bound_offsets(*hist, *x_axis, face_width as int));
        assert forall|j: int| 0 <= j < out@.len() - 1 implies #[trigger] out@[j] <= out@[j
            + 1] by {
            lemma_axis_offset_monotone(bounds@[j], bounds@[j + 1], *x_axis, face_width as int);
        }
    }
    out
}

/// The index of the bin whose half-open span `[bounds[i], bounds[i+1])`
/// holds the column `c`; at a shared boundary the higher bin wins,
/// because each bin is closed below and open above.
pub open spec fn spec_bin_of_column(bounds: Seq<i32>, c: int) -> Option<int> {
    if exists|i: int| 0 <= i < bounds.len() - 1 && #[trigger] bounds[i] <= c < bounds[i + 1] {
        Some(choose|i: int| 0 <= i < bounds.len() - 1 && #[trigger] bounds[i] <= c < bounds[i + 1])
    } else {
        None
    }
}

/// Which bin each cell column stands for.
///
/// The result has `face_width + 2` entries: entry `0` is the underflow
/// cell, entry `face_width + 1` the overflow cell, and entry `j`
/// stands for the column `j - 1`. A column maps to the bin whose span
/// of mapped bound columns contains it, and to `None` when it lies
/// before the first bound, after the last, or inside a zero-width bin
/// span.
#[verifier::rlimit(60)]
pub fn bins_for_cells(bound_cell_offsets: &Vec<i32>, face_width: u32) -> (r: Vec<Option<i32>>)
    requires
        bound_cell_offsets@.len() >= 1,
        bound_cell_offsets@.len() <= 1_000_000,
        forall|i: int|
            0 <= i < bound_cell_offsets@.len() - 1 ==> #[trigger] bound_cell_offsets@[i]
                <= bound_cell_offsets@[i + 1],
        face_width <= 10_000,
    ensures
        r@.len() == face_width + 2,
        forall|j: int|
            0 <= j < r@.len() ==> ((#[trigger] r@[j]) is Some) == (spec_bin_of_column(
                bound_cell_offsets@,
                j - 1,
            ) is Some),
        forall|j: int|
            0 <= j < r@.len() && (#[trigger] r@[j]) is Some ==> r@[j]->0 == spec_bin_of_column(
                bound_cell_offsets@,
                j - 1,
            )->0,
{
    let bounds = bound_cell_offsets;
    let n = bounds.len();
    let mut cells: Vec<Option<i32>> = Vec::new();
    let mut j: u32 = 0;
    while j < face_width + 2
        invariant
            j <= face_width + 2,
            face_width <= 10_000,
            n == bounds@.len(),
            1 <= n <= 1_000_000,
            forall|t: int| 0 <= t < n - 1 ==> #[trigger] bounds@[t] <= bounds@[t + 1],
            cells@.len() == j,
            forall|k: int|
                0 <= k < j ==> ((#[trigger] cells@[k]) is Some) == (spec_bin_of_column(
                    bounds@,
                    k - 1,
                ) is Some),
            forall|k: int|
                0 <= k < j && (#[trigger] cells@[k]) is Some ==> cells@[k]->0
                    == spec_bin_of_column(bounds@, k - 1)->0,
        decreases face_width + 2 - j,
    {
        let c: i32 = (j as i32) - 1;
        let mut found: Option<i32> = None;
        let mut i: usize = 0;
        let mut stop: bool = false;
        while i < n - 1 && !stop
            invariant
                i <= n - 1,
                n == bounds@.len(),
                1 <= n <= 1_000_000,
                stop == (found is Some),
                found is Some ==> {
                    let b = found->0;
                    0 <= b < n - 1 && bounds@[b as int] <= c < bounds@[b as int + 1]
                },
                found is None ==> forall|k: int|
                    0 <= k < i ==> !(bounds@[k] <= c < #[trigger] bounds@[k + 1]),
            decreases 2 * (n - i) + (if stop {
                0int
            } else {
                1int
            }),
        {
            if bounds[i] <= c && c < bounds[i + 1] {
                found = Some(i as i32);
                stop = true;
            } else {
                i = i + 1;
            }
        }
        proof {
            if found is Some {
                let b = found->0 as int;
                assert(spec_bin_of_column(bounds@, c as int) is Some) by {
                    assert(0 <= b < bounds@.len() - 1 && bounds@[b] <= c < bounds@[b + 1]);
                }
                let w = spec_bin_of_column(bounds@, c as int)->0;
                // bins partition the covered columns, so the witness agrees
                assert(bounds@[w] <= c < bounds@[w + 1]);
                if w < b {
                    assert(bounds@[w + 1] <= bounds@[b]) by {
                        lemma_bounds_sorted(bounds@, w + 1, b);
                    }
                    assert(false);
                }
                if w > b {
                    assert(bounds@[b + 1] <= bounds@[w]) by {
                        lemma_bounds_sorted(bounds@, b + 1, w);
                    }
                    assert(false);
                }
            } else {
                assert(forall|k: int|
                    0 <= k < bounds@.len() - 1 ==> !(bounds@[k] <= c < #[trigger] bounds@[k
                        + 1]));
                assert(spec_bin_of_column(bounds@, c as int) is None);
            }
            assert(c as int == j - 1);
        }
        cells.push(found);
        j = j + 1;
    }
    cells
}

/// Sorted bounds stay sorted across any gap.
proof fn lemma_bounds_sorted(bounds: Seq<i32>, a: int, b: int)
    requires
        0 <= a <= b < bounds.len(),
        forall|i: int| 0 <= i < bounds.len() - 1 ==> #[trigger] bounds[i] <= bounds[i + 1],
    ensures
        bounds[a] <= bounds[b],
    decreases b - a,
{
    if a < b {
        lemma_bounds_sorted(bounds, a + 1, b);
    }
}

/// An x-axis label for the text output renderer.
pub struct XAxisLabel {
    pub text: String,
    pub offset: i32,
}

/// The number of cells a label uses: its length, forced odd so the
/// label has a well-defined center cell.
pub open spec fn spec_footprint(len: nat) -> int {
    if len % 2 == 0 {
        len + 1int
    } else {
        len as int
    }
}

impl XAxisLabel {
    pub fn len(&self) -> (r: usize)
        ensures
            r == self.text@.len(),
    {
        self.text.as_str().unicode_len()
    }

    /// The number of cells the label will actually use: always odd.
    pub fn footprint(&self) -> (r: usize)
        requires
            self.text@.len() + 1 <= usize::MAX,
        ensures
            r == spec_footprint(self.text@.len()),
    {
        let n = self.len();
        if n % 2 == 0 {
            n + 1
        } else {
            n
        }
    }

    /// The offset, relative to the zero point of the axis, where the
    /// label should start to be drawn: its footprint centered on its
    /// cell.
    pub fn start_offset(&self) -> (r: i32)
        requires
            self.text@.len() <= 1_000_000,
            -1_000_000_000 <= self.offset <= 1_000_000_000,
        ensures
            r == self.offset - spec_footprint(self.text@.len()) / 2,
    {
        let f: i32 = self.footprint() as i32;
        let r: i64 = (self.offset as i64) - ((f / 2) as i64);
        proof {
            assert(f / 2 == spec_footprint(self.text@.len()) / 2);
        }
        r as i32
    }
}

/// The character the shifted upper block shows at row `a`, column `b`
/// of the lower block: its own cell when one is there, else a space.
pub open spec fn spec_over_char(over: Seq<Seq<char>>, a: int, b: int) -> char {
    if 0 <= a < over.len() && 0 <= b < over[a].len() {
        over[a][b]
    } else {
        ' '
    }
}

/// Lays `over` on top of `under`, shifted right by `x` and down by
/// `y`. The result keeps `under`'s dimensions exactly: every line of
/// the result is as long as the matching line of `under`, and a cell
/// shows `over`'s character unless that character is a space, in which
/// case `under`'s shows through.
pub fn overlay(under: &str, over: &str, x: i32, y: i32) -> (r: String)
    requires
        x > i32::MIN,
        y > i32::MIN,
    ensures
        spec_lines(r@).len() == spec_lines(under@).len(),
        forall|i: int|
            0 <= i < spec_lines(under@).len() ==> (#[trigger] spec_lines(r@)[i]).len()
                == spec_lines(under@)[i].len(),
        forall|i: int, j: int|
            #![trigger spec_lines(r@)[i][j]]
            0 <= i < spec_lines(under@).len() && 0 <= j < spec_lines(under@)[i].len() ==> {
                let oc = spec_over_char(spec_lines(over@), i - y, j - x);
                spec_lines(r@)[i][j] == if oc != ' ' {
                    oc
                } else {
                    spec_lines(under@)[i][j]
                }
            },
{
    let ghost u = spec_lines(under@);
    let ghost o = spec_lines(over@);
    let under_rows = split_lines(under);
    let over_rows = split_lines(over);
    let mut out: Vec<Vec<char>> = Vec::new();
    let mut i: usize = 0;
    while i < under_rows.len()
        invariant
            i <= under_rows@.len(),
            under_rows@.map_values(|v: Vec<char>| v@) == u,
            over_rows@.map_values(|v: Vec<char>| v@) == o,
            x > i32::MIN,
            y > i32::MIN,
            out@.len() == i,
            forall|a: int| 0 <= a < i ==> (#[trigger] out@[a])@.len() == u[a].len(),
            forall|a: int, b: int|
                #![trigger out@[a]@[b]]
                0 <= a < i && 0 <= b < u[a].len() ==> out@[a]@[b] == {
                    let oc = spec_over_char(o, a - y, b - x);
                    if oc != ' ' {
                        oc
                    } else {
                        u[a][b]
                    }
                },
        decreases under_rows@.len() - i,
    {
        let urow = &under_rows[i];
        let mut line: Vec<char> = Vec::new();
        let mut j: usize = 0;
        while j < urow.len()
            invariant
                j <= urow@.len(),
                urow@ == u[i as int],
                0 <= i < u.len(),
                over_rows@.map_values(|v: Vec<char>| v@) == o,
                x > i32::MIN,
                y > i32::MIN,
                line@.len() == j,
                forall|b: int|
                    #![trigger line@[b]]
                    0 <= b < j ==> line@[b] == {
                        let oc = spec_over_char(o, i - y, b - x);
                        if oc != ' ' {
                            oc
                        } else {
                            u[i as int][b]
                        }
                    },
            decreases urow@.len() - j,
        {
            let a: i128 = (i as i128) - (y as i128);
            let b: i128 = (j as i128) - (x as i128);
            let mut oc: char = ' ';
            if 0 <= a && a < over_rows.len() as i128 {
                let orow = &over_rows[a as usize];
                if 0 <= b && b < orow.len() as i128 {
                    oc = orow[b as usize];
                }
            }
            proof {
                assert(oc == spec_over_char(o, i - y, j - x));
            }
            if oc != ' ' {
                line.push(oc);
            } else {
                line.push(urow[j]);
            }
            j = j + 1;
        }
        out.push(line);
        i = i + 1;
    }
    proof {
        lemma_lines_len_pos(under@);
    }
    let r = join_rows(&out);
    proof {
        lemma_lines_no_newline(under@);
        lemma_lines_no_newline(over@);
        let grows = out@.map_values(|v: Vec<char>| v@);
        assert forall|a: int| 0 <= a < grows.len() implies row_has_no_newline(
            #[trigger] grows[a],
        ) by {
            if grows[a].contains('\n') {
                let b = choose|b: int| 0 <= b < grows[a].len() && grows[a][b] == '\n';
                assert(out@[a]@[b] == '\n');
                let oc = spec_over_char(o, a - y, b - x);
                if oc != ' ' {
                    assert(o[a - y].contains('\n')) by {
                        assert(o[a - y][b - x] == '\n');
                    }
                } else {
                    assert(u[a].contains('\n')) by {
                        assert(u[a][b] == '\n');
                    }
                }
            }
        }
        lemma_lines_of_join(grows);
    }
    r
}

/// A row of `width` spaces.
fn blank_row(width: usize) -> (r: Vec<char>)
    ensures
        r@.len() == width,
        forall|i: int| 0 <= i < width ==> r@[i] == ' ',
{
    let mut row: Vec<char> = Vec::new();
    let mut i: usize = 0;
    while i < width
        invariant
            i <= width,
            row@.len() == i,
            forall|j: int| 0 <= j < i ==> row@[j] == ' ',
        decreases width - i,
    {
        row.push(' ');
        i = i + 1;
    }
    row
}

/// Appends one row of characters to a string.
fn push_row(out: &mut String, row: &Vec<char>)
    ensures
        final(out)@ == old(out)@ + row@,
{
    let mut i: usize = 0;
    while i < row.len()
        invariant
            i <= row@.len(),
            out@ == old(out)@ + row@.take(i as int),
        decreases row@.len() - i,
    {
        push_char(out, row[i]);
        proof {
            assert(old(out)@ + row@.take(i as int) + seq![row@[i as int]] =~= old(out)@
                + row@.take(i + 1));
        }
        i = i + 1;
    }
    proof {
        assert(row@.take(row@.len() as int) =~= row@);
    }
}

/// Joins rows of characters into one block of text.
fn join_rows(rows: &Vec<Vec<char>>) -> (r: String)
    requires
        rows@.len() >= 1,
    ensures
        r@ == spec_join(rows@.map_values(|v: Vec<char>| v@)),
        spec_lines(r@) == rows@.map_values(|v: Vec<char>| v@) || exists|i: int|
            0 <= i < rows@.len() && (#[trigger] rows@[i])@.contains('\n'),
{
    let ghost grows = rows@.map_values(|v: Vec<char>| v@);
    let mut out = String::new();
    push_row(&mut out, &rows[0]);
    proof {
        assert(out@ =~= spec_join(grows.take(1)));
    }
    let mut i: usize = 1;
    while i < rows.len()
        invariant
            1 <= i <= rows@.len(),
            grows == rows@.map_values(|v: Vec<char>| v@),
            out@ == spec_join(grows.take(i as int)),
        decreases rows@.len() - i,
    {
        push_char(&mut out, '\n');
        push_row(&mut out, &rows[i]);
        proof {
            lemma_join_snoc(grows.take(i + 1));
            assert(grows.take(i + 1).drop_last() =~= grows.take(i as int));
            assert(grows.take(i + 1).last() == grows[i as int]);
        }
        i = i + 1;
    }
    proof {
        assert(grows.take(grows.len() as int) =~= grows);
        if forall|j: int| 0 <= j < rows@.len() ==> !(#[trigger] rows@[j])@.contains('\n') {
            assert(forall|j: int|
                0 <= j < grows.len() ==> row_has_no_newline(#[trigger] grows[j]));
            lemma_lines_of_join(grows);
        }
    }
    out
}

/// Joining is one row plus a separator plus the rest, read from the end.
proof fn lemma_join_snoc(rows: Seq<Seq<char>>)
    requires
        rows.len() >= 2,
    ensures
        spec_join(rows) == spec_join(rows.drop_last()) + seq!['\n'] + rows.last(),
    decreases rows.len(),
{
    if rows.len() == 2 {
        assert(rows.drop_first().len() == 1);
        assert(spec_join(rows.drop_first()) == rows[1]);
        assert(rows.drop_last() =~= seq![rows[0]]);
        assert(spec_join(rows.drop_last()) == rows[0]);
    } else {
        lemma_join_snoc(rows.drop_first());
        assert(rows.drop_first().drop_last() =~= rows.drop_last().drop_first());
        assert(rows.drop_first().last() == rows.last());
        assert(spec_join(rows) == rows[0] + seq!['\n'] + spec_join(rows.drop_first()));
        assert(spec_join(rows.drop_last()) == rows[0] + seq!['\n'] + spec_join(
            rows.drop_last().drop_first(),
        ));
        assert(spec_join(rows) =~= spec_join(rows.drop_last()) + seq!['\n'] + rows.last());
    }
}

/// A blank face: `face_height` lines of `face_width` spaces.
pub fn empty_face(face_width: u32, face_height: u32) -> (r: String)
    requires
        1 <= face_height,
    ensures
        is_grid(r@, face_height as int, face_width as int),
        forall|i: int, j: int|
            0 <= i < face_height && 0 <= j < face_width ==> spec_lines(r@)[i][j] == ' ',
{
    let mut rows: Vec<Vec<char>> = Vec::new();
    let mut i: u32 = 0;
    while i < face_height
        invariant
            i <= face_height,
            rows@.len() == i,
            forall|j: int| 0 <= j < i ==> (#[trigger] rows@[j])@.len() == face_width,
            forall|j: int, k: int|
                #![trigger rows@[j]@[k]]
                0 <= j < i && 0 <= k < face_width ==> rows@[j]@[k] == ' ',
        decreases face_height - i,
    {
        let row = blank_row(face_width as usize);
        rows.push(row);
        i = i + 1;
    }
    let out = join_rows(&rows);
    proof {
        let grows = rows@.map_values(|v: Vec<char>| v@);
        assert(forall|j: int| 0 <= j < grows.len() ==> !(#[trigger] grows[j]).contains('\n'))
            by {
            assert forall|j: int| 0 <= j < grows.len() implies !(#[trigger] grows[j]).contains(
                '\n',
            ) by {
                if grows[j].contains('\n') {
                    let k = choose|k: int| 0 <= k < grows[j].len() && grows[j][k] == '\n';
                    assert(rows@[j]@[k] == ' ');
                }
            }
        }
        lemma_lines_of_join(grows);
    }
    out
}


/// Some data point lands on the cell `(col, line)` of the face.
pub open spec fn spec_point_at(
    data: Seq<(Fixed, Fixed)>,
    x_axis: axis::ContinuousAxis,
    y_axis: axis::ContinuousAxis,
    face_width: int,
    face_height: int,
    col: int,
    line: int,
) -> bool {
    exists|i: int|
        0 <= i < data.len() && spec_axis_offset((#[trigger] data[i]).0, x_axis, face_width) == col
            && spec_axis_offset(data[i].1, y_axis, face_height) == line
}

/// The glyph a point marker draws.
pub open spec fn spec_marker_char(m: style::PointMarker) -> char {
    match m {
        style::PointMarker::Circle => '●',
        style::PointMarker::Square => '■',
        style::PointMarker::Cross => '×',
    }
}

/// The face of a scatter plot: a `face_height` by `face_width` block
/// with the marker glyph on every cell some point maps to, spaces
/// elsewhere. Points that share a cell are indistinguishable, and the
/// bottom row of cells is row `1` counted from the x-axis.
pub fn render_face_points(
    s: &[(Fixed, Fixed)],
    x_axis: &axis::ContinuousAxis,
    y_axis: &axis::ContinuousAxis,
    face_width: u32,
    face_height: u32,
    point_style: &style::PointStyle,
) -> (r: String)
    requires
        repr::points_ok(s@),
        x_axis.wf(),
        y_axis.wf(),
        1 <= face_height <= 10_000,
        face_width <= 10_000,
    ensures
        is_grid(r@, face_height as int, face_width as int),
        forall|row: int, col: int|
            #![trigger spec_lines(r@)[row][col]]
            0 <= row < face_height && 0 <= col < face_width ==> spec_lines(r@)[row][col] == (
            if spec_point_at(
                s@,
                *x_axis,
                *y_axis,
                face_width as int,
                face_height as int,
                col + 1,
                face_height - row,
            ) {
                spec_marker_char(if point_style.spec_marker() is Some {
                    point_style.spec_marker()->0
                } else {
                    style::PointMarker::Circle
                })
            } else {
                ' '
            }),
{
    let mut points: Vec<(i32, i32)> = Vec::new();
    let mut i: usize = 0;
    while i < s.len()
        invariant
            i <= s@.len(),
            repr::points_ok(s@),
            x_axis.wf(),
            y_axis.wf(),
            face_width <= 10_000,
            face_height <= 10_000,
            points@.len() == i,
            forall|j: int|
                0 <= j < i ==> #[trigger] points@[j] == (
                spec_axis_offset(s@[j].0, *x_axis, face_width as int) as i32,
                spec_axis_offset(s@[j].1, *y_axis, face_height as int) as i32,
                ),
        decreases s@.len() - i,
    {
        let px = value_to_axis_cell_offset(s[i].0, x_axis, face_width);
        let py = value_to_axis_cell_offset(s[i].1, y_axis, face_height);
        points.push((px, py));
        i = i + 1;
    }
    let marker: char = match point_style.get_marker() {
        style::PointMarker::Circle => '●',
        style::PointMarker::Square => '■',
        style::PointMarker::Cross => '×',
    };
    let mut rows: Vec<Vec<char>> = Vec::new();
    let mut row: u32 = 0;
    while row < face_height
        invariant
            row <= face_height,
            1 <= face_height <= 10_000,
            face_width <= 10_000,
            points@.len() == s@.len(),
            forall|j: int|
                0 <= j < s@.len() ==> #[trigger] points@[j] == (
                spec_axis_offset(s@[j].0, *x_axis, face_width as int) as i32,
                spec_axis_offset(s@[j].1, *y_axis, face_height as int) as i32,
                ),
            marker == spec_marker_char(if point_style.spec_marker() is Some {
                point_style.spec_marker()->0
            } else {
                style::PointMarker::Circle
            }),
            marker != ' ',
            marker != '\n',
            rows@.len() == row,
            forall|a: int| 0 <= a < row ==> (#[trigger] rows@[a])@.len() == face_width,
            forall|a: int, b: int|
                #![trigger rows@[a]@[b]]
                0 <= a < row && 0 <= b < face_width ==> rows@[a]@[b] == (if spec_point_at(
                    s@,
                    *x_axis,
                    *y_axis,
                    face_width as int,
                    face_height as int,
                    b + 1,
                    face_height - a,
                ) {
                    marker
                } else {
                    ' '
                }),
        decreases face_height - row,
    {
        let line: i32 = (face_height - row) as i32;
        let mut line_chars: Vec<char> = Vec::new();
        let mut col: u32 = 0;
        while col < face_width
            invariant
                col <= face_width,
                face_width <= 10_000,
                face_height <= 10_000,
                row < face_height,
                line == face_height - row,
                points@.len() == s@.len(),
                forall|j: int|
                    0 <= j < s@.len() ==> #[trigger] points@[j] == (
                    spec_axis_offset(s@[j].0, *x_axis, face_width as int) as i32,
                    spec_axis_offset(s@[j].1, *y_axis, face_height as int) as i32,
                    ),
                line_chars@.len() == col,
                forall|b: int|
                    #![trigger line_chars@[b]]
                    0 <= b < col ==> line_chars@[b] == (if spec_point_at(
                        s@,
                        *x_axis,
                        *y_axis,
                        face_width as int,
                        face_height as int,
                        b + 1,
                        face_height - row,
                    ) {
                        marker
                    } else {
                        ' '
                    }),
            decreases face_width - col,
        {
            let target: (i32, i32) = ((col + 1) as i32, line);
            let mut found: bool = false;
            let mut j: usize = 0;
            while j < points.len() && !found
                invariant
                    j <= points@.len(),
                    found ==> exists|t: int|
                        0 <= t < points@.len() && #[trigger] points@[t] == target,
                    !found ==> forall|t: int| 0 <= t < j ==> #[trigger] points@[t] != target,
                decreases 2 * (points@.len() - j) + (if found {
                    0int
                } else {
                    1int
                }),
            {
                if points[j].0 == target.0 && points[j].1 == target.1 {
                    found = true;
                } else {
                    j = j + 1;
                }
            }
            proof {
                if found {
                    let t = choose|t: int| 0 <= t < points@.len() && #[trigger] points@[t]
                        == target;
                    assert(spec_axis_offset(s@[t].0, *x_axis, face_width as int) == col + 1);
                    assert(spec_axis_offset(s@[t].1, *y_axis, face_height as int) == face_height
                        - row);
                } else {
                    if spec_point_at(
                        s@,
                        *x_axis,
                        *y_axis,
                        face_width as int,
                        face_height as int,
                        col + 1,
                        face_height - row,
                    ) {
                        let t = choose|t: int|
                            0 <= t < s@.len() && spec_axis_offset(
                                (#[trigger] s@[t]).0,
                                *x_axis,
                                face_width as int,
                            ) == col + 1 && spec_axis_offset(
                                s@[t].1,
                                *y_axis,
                                face_height as int,
                            ) == face_height - row;
                        assert(points@[t] == target);
                        assert(false);
                    }
                }
            }
            if found {
                line_chars.push(marker);
            } else {
                line_chars.push(' ');
            }
            col = col + 1;
        }
        rows.push(line_chars);
        row = row + 1;
    }
    let r = join_rows(&rows);
    proof {
        let grows = rows@.map_values(|v: Vec<char>| v@);
        assert forall|a: int| 0 <= a < grows.len() implies row_has_no_newline(
            #[trigger] grows[a],
        ) by {
            if grows[a].contains('\n') {
                let b = choose|b: int| 0 <= b < grows[a].len() && grows[a][b] == '\n';
                assert(rows@[a]@[b] == '\n');
            }
        }
        lemma_lines_of_join(grows);
    }
    r
}


/// The bar height, in cells, over each face column (with one underflow
/// and one overflow slot): the mapped height of the column's bin
/// value, or zero where no bin covers the column.
pub open spec fn spec_cell_heights(
    h: repr::Histogram,
    y_axis: axis::ContinuousAxis,
    offsets: Seq<i32>,
    face_height: int,
    j: int,
) -> int {
    match spec_bin_of_column(offsets, j - 1) {
        Some(b) => spec_axis_offset(h.spec_values()[b], y_axis, face_height),
        None => 0,
    }
}

/// The glyph drawn where a column sits on a bin boundary, decided by
/// how the bars just left and right of the boundary relate to the
/// current row: blank when both are below, a vertical stroke while
/// either side still rises past the row, a horizontal cap where a top
/// edge meets it.
pub open spec fn spec_bar_glyph(below: int, above: int, line: int) -> char {
    if below < line {
        if above < line {
            ' '
        } else if above == line {
            '-'
        } else {
            '|'
        }
    } else if below == line {
        if above > line {
            '|'
        } else {
            '-'
        }
    } else {
        '|'
    }
}

/// The column `c` of the face carries a bin boundary.
pub open spec fn spec_is_boundary(offsets: Seq<i32>, c: int) -> bool {
    exists|i: int| 0 <= i < offsets.len() && #[trigger] offsets[i] == c
}

/// What the face of a histogram shows in column `c` at row `line`
/// (row 1 sits just above the x-axis): boundary columns get the glyph
/// of [`spec_bar_glyph`], interior columns a cap on the bin's own top
/// row and blank elsewhere.
pub open spec fn spec_bar_cell(
    h: repr::Histogram,
    y_axis: axis::ContinuousAxis,
    offsets: Seq<i32>,
    face_height: int,
    c: int,
    line: int,
) -> char {
    if spec_is_boundary(offsets, c) {
        spec_bar_glyph(
            spec_cell_heights(h, y_axis, offsets, face_height, c - 1),
            spec_cell_heights(h, y_axis, offsets, face_height, c + 1),
            line,
        )
    } else if spec_cell_heights(h, y_axis, offsets, face_height, c) == line {
        '-'
    } else {
        ' '
    }
}

/// The face of a histogram: a `face_height` by `face_width` block of
/// bar glyphs, row by row from the top.
pub fn render_face_bars(
    h: &repr::Histogram,
    x_axis: &axis::ContinuousAxis,
    y_axis: &axis::ContinuousAxis,
    face_width: u32,
    face_height: u32,
) -> (r: String)
    requires
        h.wf(),
        x_axis.wf(),
        y_axis.wf(),
        1 <= face_height <= 10_000,
        1 <= face_width <= 10_000,
    ensures
        is_grid(r@, face_height as int, face_width as int),
        forall|row: int, col: int|
            #![trigger spec_lines(r@)[row][col]]
            0 <= row < face_height && 0 <= col < face_width ==> spec_lines(r@)[row][col]
                == spec_bar_cell(
                *h,
                *y_axis,
                spec_bound_offsets(*h, *x_axis, face_width as int),
                face_height as int,
                col + 1,
                face_height - row,
            ),
{
    let ghost offs = spec_bound_offsets(*h, *x_axis, face_width as int);
    let bound_cells = bound_cell_offsets(h, x_axis, face_width);
    let cell_bins = bins_for_cells(&bound_cells, face_width);
    let values = h.get_values();
    let mut heights: Vec<i32> = Vec::new();
    let mut j: usize = 0;
    while j < cell_bins.len()
        invariant
            j <= cell_bins@.len(),
            h.wf(),
            y_axis.wf(),
            1 <= face_height <= 10_000,
            values@ == h.spec_values(),
            cell_bins@.len() == face_width + 2,
            forall|t: int|
                0 <= t < cell_bins@.len() ==> ((#[trigger] cell_bins@[t]) is Some) == (
                spec_bin_of_column(offs, t - 1) is Some),
            forall|t: int|
                0 <= t < cell_bins@.len() && (#[trigger] cell_bins@[t]) is Some
                    ==> cell_bins@[t]->0 == spec_bin_of_column(offs, t - 1)->0,
            offs == spec_bound_offsets(*h, *x_axis, face_width as int),
            offs.len() == h.spec_bounds().len(),
            heights@.len() == j,
            forall|t: int|
                0 <= t < j ==> #[trigger] heights@[t] == spec_cell_heights(
                    *h,
                    *y_axis,
                    offs,
                    face_height as int,
                    t,
                ),
        decreases cell_bins@.len() - j,
    {
        match cell_bins[j] {
            None => {
                heights.push(0);
            },
            Some(b) => {
                proof {
                    let w = spec_bin_of_column(offs, j - 1)->0;
                    assert(0 <= w < offs.len() - 1 && offs[w] <= j - 1 < offs[w + 1]);
                }
                let off = value_to_axis_cell_offset(values[b as usize], y_axis, face_height);
                heights.push(off);
            },
        }
        j = j + 1;
    }
    let mut rows: Vec<Vec<char>> = Vec::new();
    let mut row: u32 = 0;
    while row < face_height
        invariant
            row <= face_height,
            1 <= face_height <= 10_000,
            1 <= face_width <= 10_000,
            bound_cells@ == offs,
            offs == spec_bound_offsets(*h, *x_axis, face_width as int),
            heights@.len() == face_width + 2,
            forall|t: int|
                0 <= t < heights@.len() ==> #[trigger] heights@[t] == spec_cell_heights(
                    *h,
                    *y_axis,
                    offs,
                    face_height as int,
                    t,
                ),
            rows@.len() == row,
            forall|a: int| 0 <= a < row ==> (#[trigger] rows@[a])@.len() == face_width,
            forall|a: int, b: int|
                #![trigger rows@[a]@[b]]
                0 <= a < row && 0 <= b < face_width ==> rows@[a]@[b] == spec_bar_cell(
                    *h,
                    *y_axis,
                    offs,
                    face_height as int,
                    b + 1,
                    face_height - a,
                ),
        decreases face_height - row,
    {
        let line: i32 = (face_height - row) as i32;
        let mut line_chars: Vec<char> = Vec::new();
        let mut col: u32 = 0;
        while col < face_width
            invariant
                col <= face_width,
                row < face_height,
                1 <= face_height <= 10_000,
                1 <= face_width <= 10_000,
                line == face_height - row,
                bound_cells@ == offs,
                heights@.len() == face_width + 2,
                forall|t: int|
                    0 <= t < heights@.len() ==> #[trigger] heights@[t] == spec_cell_heights(
                        *h,
                        *y_axis,
                        offs,
                        face_height as int,
                        t,
                    ),
                line_chars@.len() == col,
                forall|b: int|
                    #![trigger line_chars@[b]]
                    0 <= b < col ==> line_chars@[b] == spec_bar_cell(
                        *h,
                        *y_axis,
                        offs,
                        face_height as int,
                        b + 1,
                        face_height - row,
                    ),
            decreases face_width - col,
        {
            let c: i32 = (col + 1) as i32;
            let mut found: bool = false;
            let mut t: usize = 0;
            while t < bound_cells.len() && !found
                invariant
                    t <= bound_cells@.len(),
                    found ==> spec_is_boundary(bound_cells@, c as int),
                    !found ==> forall|u: int| 0 <= u < t ==> #[trigger] bound_cells@[u] != c,
                decreases 2 * (bound_cells@.len() - t) + (if found {
                    0int
                } else {
                    1int
                }),
            {
                if bound_cells[t] == c {
                    found = true;
                } else {
                    t = t + 1;
                }
            }
            proof {
                if !found && spec_is_boundary(bound_cells@, c as int) {
                    let u = choose|u: int|
                        0 <= u < bound_cells@.len() && #[trigger] bound_cells@[u] == c;
                    assert(false);
                }
            }
            let glyph: char = if found {
                let below: i32 = heights[(c - 1) as usize];
                let above: i32 = heights[(c + 1) as usize];
                if below < line {
                    if above < line {
                        ' '
                    } else if above == line {
                        '-'
                    } else {
                        '|'
                    }
                } else if below == line {
                    if above > line {
                        '|'
                    } else {
                        '-'
                    }
                } else {
                    '|'
                }
            } else {
                if heights[c as usize] == line {
                    '-'
                } else {
                    ' '
                }
            };
            line_chars.push(glyph);
            col = col + 1;
        }
        rows.push(line_chars);
        row = row + 1;
    }
    let r = join_rows(&rows);
    proof {
        let grows = rows@.map_values(|v: Vec<char>| v@);
        assert forall|a: int| 0 <= a < grows.len() implies row_has_no_newline(
            #[trigger] grows[a],
        ) by {
            if grows[a].contains('\n') {
                let b = choose|b: int| 0 <= b < grows[a].len() && grows[a][b] == '\n';
                assert(rows@[a]@[b] == '\n');
            }
        }
        lemma_lines_of_join(grows);
    }
    r
}


/// `n` spaces (none when `n` is negative).
pub open spec fn spec_spaces(n: int) -> Seq<char> {
    if n <= 0 {
        Seq::empty()
    } else {
        Seq::new(n as nat, |i: int| ' ')
    }
}

/// `text` right-aligned in a field of `w` characters; text wider than
/// the field is kept whole.
pub open spec fn spec_right_aligned(text: Seq<char>, w: int) -> Seq<char> {
    spec_spaces(w - text.len()) + text
}

/// `text` centered in a field of `w` characters, the extra space on
/// the right; text wider than the field is kept whole.
pub open spec fn spec_centered(text: Seq<char>, w: int) -> Seq<char> {
    if text.len() >= w {
        text
    } else {
        let left = (w - text.len()) / 2;
        spec_spaces(left) + text + spec_spaces(w - text.len() - left)
    }
}

/// The value stored under `key`, scanning the entries in order.
pub open spec fn spec_map_get(m: Seq<(i32, Fixed)>, key: int) -> Option<Fixed>
    decreases m.len(),
{
    if m.len() == 0 {
        None
    } else if m[0].0 == key {
        Some(m[0].1)
    } else {
        spec_map_get(m.drop_first(), key)
    }
}

/// The width of the widest tick label in the map.
pub open spec fn spec_max_label_len(m: Seq<(i32, Fixed)>) -> int
    decreases m.len(),
{
    if m.len() == 0 {
        0
    } else {
        let rest = spec_max_label_len(m.drop_last());
        let last = crate::fixed::spec_fixed_chars(m.last().1.units as int).len() as int;
        if last > rest {
            last
        } else {
            rest
        }
    }
}

/// The characters of a piece of text, in order.
fn chars_of(s: &str) -> (r: Vec<char>)
    ensures
        r@ == s@,
{
    let n = s.unicode_len();
    let mut out: Vec<char> = Vec::new();
    let mut i: usize = 0;
    while i < n
        invariant
            i <= n,
            n == s@.len(),
            out@ == s@.take(i as int),
        decreases n - i,
    {
        out.push(s.get_char(i));
        proof {
            assert(s@.take(i + 1) =~= s@.take(i as int).push(s@[i as int]));
        }
        i = i + 1;
    }
    proof {
        assert(s@.take(n as int) =~= s@);
    }
    out
}

/// Appends `n` spaces.
fn push_spaces(out: &mut Vec<char>, n: usize)
    ensures
        final(out)@ == old(out)@ + spec_spaces(n as int),
{
    let mut i: usize = 0;
    while i < n
        invariant
            i <= n,
            out@.len() == old(out)@.len() + i,
            forall|j: int| 0 <= j < old(out)@.len() ==> #[trigger] out@[j] == old(out)@[j],
            forall|j: int| old(out)@.len() <= j < out@.len() ==> #[trigger] out@[j] == ' ',
        decreases n - i,
    {
        out.push(' ');
        i = i + 1;
    }
    proof {
        assert(out@ =~= old(out)@ + spec_spaces(n as int));
    }
}

/// Appends all characters of a row.
fn push_all(out: &mut Vec<char>, row: &Vec<char>)
    ensures
        final(out)@ == old(out)@ + row@,
{
    let mut i: usize = 0;
    while i < row.len()
        invariant
            i <= row@.len(),
            out@ == old(out)@ + row@.take(i as int),
        decreases row@.len() - i,
    {
        out.push(row[i]);
        proof {
            assert(old(out)@ + row@.take(i as int) + seq![row@[i as int]] =~= old(out)@
                + row@.take(i + 1));
        }
        i = i + 1;
    }
    proof {
        assert(row@.take(row@.len() as int) =~= row@);
    }
}

/// `text` centered in a field of `w` characters.
fn centered_chars(text: &str, w: usize) -> (r: Vec<char>)
    ensures
        r@ == spec_centered(text@, w as int),
{
    let chars = chars_of(text);
    let n = chars.len();
    if n >= w {
        chars
    } else {
        let left: usize = (w - n) / 2;
        let mut out: Vec<char> = Vec::new();
        push_spaces(&mut out, left);
        push_all(&mut out, &chars);
        push_spaces(&mut out, w - n - left);
        proof {
            assert(out@ =~= spec_centered(text@, w as int));
        }
        out
    }
}

/// The tick value at `key`, scanning the map entries in order.
fn map_get(m: &Vec<(i32, Fixed)>, key: i32) -> (r: Option<Fixed>)
    ensures
        r == spec_map_get(m@, key as int),
{
    let mut i: usize = 0;
    proof {
        assert(m@.skip(0) =~= m@);
    }
    while i < m.len()
        invariant
            i <= m@.len(),
            spec_map_get(m@, key as int) == spec_map_get(m@.skip(i as int), key as int),
        decreases m@.len() - i,
    {
        if m[i].0 == key {
            proof {
                assert(m@.skip(i as int)[0] == m@[i as int]);
            }
            return Some(m[i].1);
        }
        proof {
            assert(m@.skip(i as int).drop_first() =~= m@.skip(i + 1));
            assert(m@.skip(i as int)[0] == m@[i as int]);
        }
        i = i + 1;
    }
    proof {
        assert(m@.skip(m@.len() as int).len() == 0);
    }
    None
}

/// The map from cell offsets to the tick values shown there, built by
/// walking the ticks upward: a tick whose offset is already the last
/// key replaces that entry (the highest tick wins the cell), any other
/// tick starts a new entry.
pub open spec fn spec_tick_map(
    ticks: Seq<Fixed>,
    ax: axis::ContinuousAxis,
    cells: int,
) -> Seq<(i32, Fixed)>
    decreases ticks.len(),
{
    if ticks.len() == 0 {
        Seq::empty()
    } else {
        let p = spec_tick_map(ticks.drop_last(), ax, cells);
        let o = spec_axis_offset(ticks.last(), ax, cells) as i32;
        if p.len() > 0 && p.last().0 == o {
            p.update(p.len() - 1, (o, ticks.last()))
        } else {
            p.push((o, ticks.last()))
        }
    }
}

/// What holds of every tick map over a well-formed axis: at least one
/// entry per nonempty tick list, keys ascending within the face, and
/// every entry naming a tick of the axis at that tick's offset.
pub proof fn lemma_tick_map_props(ticks: Seq<Fixed>, ax: axis::ContinuousAxis, cells: int)
    requires
        ax.wf(),
        0 <= cells <= 10_000,
        ticks == ax.spec_ticks(),
    ensures
        ticks.len() > 0 ==> spec_tick_map(ticks, ax, cells).len() > 0,
        spec_tick_map(ticks, ax, cells).len() <= ticks.len(),
        forall|e: int|
            0 <= e < spec_tick_map(ticks, ax, cells).len() ==> 0 <= (#[trigger] spec_tick_map(
                ticks,
                ax,
                cells,
            )[e]).0 <= cells,
        forall|e: int|
            0 <= e < spec_tick_map(ticks, ax, cells).len() ==> (#[trigger] spec_tick_map(
                ticks,
                ax,
                cells,
            )[e]).1.in_range(),
        forall|a: int, b: int|
            0 <= a < b < spec_tick_map(ticks, ax, cells).len() ==> (#[trigger] spec_tick_map(
                ticks,
                ax,
                cells,
            )[a]).0 < (#[trigger] spec_tick_map(ticks, ax, cells)[b]).0,
{
    lemma_tick_map_props_upto(ticks, ax, cells, ticks.len() as int);
    assert(ticks.take(ticks.len() as int) =~= ticks);
}

/// The inductive heart of [`lemma_tick_map_props`], over tick prefixes.
proof fn lemma_tick_map_props_upto(
    ticks: Seq<Fixed>,
    ax: axis::ContinuousAxis,
    cells: int,
    n: int,
)
    requires
        ax.wf(),
        0 <= cells <= 10_000,
        ticks == ax.spec_ticks(),
        0 <= n <= ticks.len(),
    ensures
        n > 0 ==> spec_tick_map(ticks.take(n), ax, cells).len() > 0,
        spec_tick_map(ticks.take(n), ax, cells).len() <= n,
        n > 0 ==> spec_tick_map(ticks.take(n), ax, cells).last().0 == spec_axis_offset(
            ticks[n - 1],
            ax,
            cells,
        ),
        forall|e: int|
            0 <= e < spec_tick_map(ticks.take(n), ax, cells).len() ==> 0 <= (
            #[trigger] spec_tick_map(ticks.take(n), ax, cells)[e]).0 <= cells,
        forall|e: int|
            0 <= e < spec_tick_map(ticks.take(n), ax, cells).len() ==> (#[trigger] spec_tick_map(
                ticks.take(n),
                ax,
                cells,
            )[e]).1.in_range(),
        forall|a: int, b: int|
            0 <= a < b < spec_tick_map(ticks.take(n), ax, cells).len() ==> (
            #[trigger] spec_tick_map(ticks.take(n), ax, cells)[a]).0 < (#[trigger] spec_tick_map(
                ticks.take(n),
                ax,
                cells,
            )[b]).0,
    decreases n,
{
    if n == 0 {
        assert(ticks.take(0).len() == 0);
    } else {
        lemma_tick_map_props_upto(ticks, ax, cells, n - 1);
        let prev = spec_tick_map(ticks.take(n - 1), ax, cells);
        let cur = spec_tick_map(ticks.take(n), ax, cells);
        assert(ticks.take(n).drop_last() =~= ticks.take(n - 1));
        assert(ticks.take(n).last() == ticks[n - 1]);
        assert(ax.spec_min().units <= ax.spec_ticks()[n - 1].units <= ax.spec_max().units);
        lemma_axis_offset_in_face(ticks[n - 1], ax, cells);
        if n >= 2 {
            assert(ax.spec_ticks()[n - 2].units < ax.spec_ticks()[n - 1].units);
            lemma_axis_offset_monotone(ticks[n - 2], ticks[n - 1], ax, cells);
        }
    }
}

/// The map from cell offsets to the tick values shown there: one entry
/// per occupied offset, keys ascending; where several ticks share an
/// offset, the highest tick wins.
pub fn tick_offset_map(ax: &axis::ContinuousAxis, face_cells: u32) -> (r: Vec<(i32, Fixed)>)
    requires
        ax.wf(),
        face_cells <= 10_000,
    ensures
        r@ == spec_tick_map(ax.spec_ticks(), *ax, face_cells as int),
{
    let ghost ticks = ax.spec_ticks();
    let ticks_ref = ax.ticks();
    let mut out: Vec<(i32, Fixed)> = Vec::new();
    let mut i: usize = 0;
    proof {
        assert(ticks.take(0).len() == 0);
    }
    while i < ticks_ref.len()
        invariant
            i <= ticks.len(),
            ticks_ref@ == ticks,
            ticks == ax.spec_ticks(),
            ax.wf(),
            face_cells <= 10_000,
            out@ == spec_tick_map(ticks.take(i as int), *ax, face_cells as int),
        decreases ticks.len() - i,
    {
        let tick = ticks_ref[i];
        proof {
            assert(ax.spec_min().units <= ax.spec_ticks()[i as int].units
                <= ax.spec_max().units);
            lemma_axis_offset_in_face(ticks[i as int], *ax, face_cells as int);
            assert(ticks.take(i + 1).drop_last() =~= ticks.take(i as int));
            assert(ticks.take(i + 1).last() == ticks[i as int]);
        }
        let off = value_to_axis_cell_offset(tick, ax, face_cells);
        let n = out.len();
        if n > 0 && out[n - 1].0 == off {
            out.set(n - 1, (off, tick));
        } else {
            out.push((off, tick));
        }
        proof {
            assert(out@ =~= spec_tick_map(ticks.take(i + 1), *ax, face_cells as int));
        }
        i = i + 1;
    }
    proof {
        assert(ticks.take(ticks.len() as int) =~= ticks);
    }
    out
}


/// The rows of the y-axis block, top to bottom.
pub open spec fn spec_y_block(
    m: Seq<(i32, Fixed)>,
    label: Seq<char>,
    face_height: int,
    width: int,
) -> Seq<Seq<char>> {
    Seq::new((face_height + 1) as nat, |r: int| spec_y_axis_row(m, label, face_height, width, r))
}

/// The four rows of the x-axis block, top to bottom: axis line, tick
/// strokes, labels, axis name, each shifted as the leftmost label
/// start demands.
pub open spec fn spec_x_block(m: Seq<(i32, Fixed)>, label: Seq<char>, face_width: int) -> Seq<
    Seq<char>,
> {
    let start = spec_min_start(m);
    let neg = if start < 0 {
        -start
    } else {
        0
    };
    let pos = if start > 0 {
        start
    } else {
        0
    };
    seq![
        spec_repeat(' ', neg) + seq!['+'] + spec_repeat('-', face_width),
        spec_repeat(' ', neg) + spec_x_tick_row(m, face_width),
        spec_repeat(' ', pos) + spec_labels_fold(m, start),
        spec_repeat(' ', neg) + spec_centered(label, face_width),
    ]
}

/// Every label in the map fits the widest-label width, which is never
/// wider than a supported number's text.
proof fn lemma_max_label_len_props(m: Seq<(i32, Fixed)>)
    requires
        forall|e: int| 0 <= e < m.len() ==> (#[trigger] m[e]).1.in_range(),
    ensures
        0 <= spec_max_label_len(m) <= 40,
        forall|e: int|
            0 <= e < m.len() ==> crate::fixed::spec_fixed_chars(
                (#[trigger] m[e]).1.units as int,
            ).len() <= spec_max_label_len(m),
    decreases m.len(),
{
    if m.len() > 0 {
        lemma_max_label_len_props(m.drop_last());
        crate::fixed::lemma_fixed_chars_props(m.last().1.units as int);
        assert(forall|e: int| 0 <= e < m.len() - 1 ==> #[trigger] m[e] == m.drop_last()[e]);
    }
}

/// A successful lookup hands back one of the map's entries.
proof fn lemma_map_get_entry(m: Seq<(i32, Fixed)>, key: int)
    requires
        spec_map_get(m, key) is Some,
    ensures
        exists|e: int|
            0 <= e < m.len() && #[trigger] m[e] == (key as i32, spec_map_get(m, key)->0),
    decreases m.len(),
{
    if m.len() > 0 && m[0].0 != key {
        lemma_map_get_entry(m.drop_first(), key);
        let e = choose|e: int|
            0 <= e < m.drop_first().len() && #[trigger] m.drop_first()[e] == (
            key as i32,
            spec_map_get(m.drop_first(), key)->0,
            );
        assert(m[e + 1] == (key as i32, spec_map_get(m, key)->0));
    }
}

/// One row of the y-axis block: the label letter running down the
/// left, a space, the right-aligned tick label (blank on rows without
/// a tick), the tick dash, and the axis line itself, with a `+` where
/// the axis meets the origin.
pub open spec fn spec_y_axis_row(
    m: Seq<(i32, Fixed)>,
    label: Seq<char>,
    face_height: int,
    width: int,
    row: int,
) -> Seq<char> {
    let line = face_height - row;
    let text = match spec_map_get(m, line) {
        Some(v) => crate::fixed::spec_fixed_chars(v.units as int),
        None => Seq::<char>::empty(),
    };
    let tick = if spec_map_get(m, line) is Some {
        '-'
    } else {
        ' '
    };
    let axis_char = if row == face_height {
        '+'
    } else {
        '|'
    };
    seq![spec_centered(label, face_height + 1)[row]] + seq![' '] + spec_right_aligned(text, width)
        + seq![tick] + seq![axis_char]
}

/// The y-axis block and its gutter width: one line per face row plus
/// the origin row, each line as [`spec_y_axis_row`] lays it out, and
/// the width of the widest tick label.
pub fn render_y_axis_strings(y_axis: &axis::ContinuousAxis, face_height: u32) -> (r: (String, i32))
    requires
        y_axis.wf(),
        1 <= face_height <= 10_000,
        y_axis.spec_ticks().len() >= 1,
        row_has_no_newline(y_axis.spec_label()),
    ensures
        ({
            let m = spec_tick_map(y_axis.spec_ticks(), *y_axis, face_height as int);
            let width = spec_max_label_len(m);
            &&& r.1 == width
            &&& 0 <= r.1 <= 40
            &&& spec_lines(r.0@).len() == face_height + 1
            &&& forall|row: int|
                0 <= row <= face_height ==> #[trigger] spec_lines(r.0@)[row] == spec_y_axis_row(
                    m,
                    y_axis.spec_label(),
                    face_height as int,
                    width,
                    row,
                )
        }),
{
    let ghost gm = spec_tick_map(y_axis.spec_ticks(), *y_axis, face_height as int);
    let m = tick_offset_map(y_axis, face_height);
    proof {
        lemma_tick_map_props(y_axis.spec_ticks(), *y_axis, face_height as int);
        lemma_max_label_len_props(gm);
    }
    // the widest tick label decides the gutter
    let mut width: usize = 0;
    let mut e: usize = 0;
    proof {
        assert(gm.take(0).len() == 0);
    }
    while e < m.len()
        invariant
            e <= m@.len(),
            m@ == gm,
            forall|t: int| 0 <= t < gm.len() ==> (#[trigger] gm[t]).1.in_range(),
            width == spec_max_label_len(gm.take(e as int)),
            width <= 40,
        decreases m@.len() - e,
    {
        let t = m[e].1.to_text();
        let l = t.as_str().unicode_len();
        proof {
            crate::fixed::lemma_fixed_chars_props(gm[e as int].1.units as int);
            assert(gm.take(e + 1).drop_last() =~= gm.take(e as int));
            assert(gm.take(e + 1).last() == gm[e as int]);
        }
        if l > width {
            width = l;
        }
        e = e + 1;
    }
    proof {
        assert(gm.take(gm.len() as int) =~= gm);
    }
    let lab = centered_chars(y_axis.get_label(), (face_height + 1) as usize);
    let mut rows: Vec<Vec<char>> = Vec::new();
    let mut row: u32 = 0;
    while row <= face_height
        invariant
            row <= face_height + 1,
            1 <= face_height <= 10_000,
            m@ == gm,
            forall|t: int| 0 <= t < gm.len() ==> (#[trigger] gm[t]).1.in_range(),
            width == spec_max_label_len(gm),
            width <= 40,
            lab@ == spec_centered(y_axis.spec_label(), face_height + 1),
            row_has_no_newline(y_axis.spec_label()),
            rows@.len() == row,
            forall|a: int|
                0 <= a < row ==> (#[trigger] rows@[a])@ == spec_y_axis_row(
                    gm,
                    y_axis.spec_label(),
                    face_height as int,
                    width as int,
                    a,
                ),
        decreases face_height + 1 - row,
    {
        let line: i32 = (face_height - row) as i32;
        let mut rc: Vec<char> = Vec::new();
        // the axis label reads downward along the left edge
        let labelch: char = if (row as usize) < lab.len() {
            lab[row as usize]
        } else {
            ' '
        };
        proof {
            assert(lab@.len() >= face_height + 1);
        }
        rc.push(labelch);
        rc.push(' ');
        let looked = map_get(&m, line);
        match looked {
            Some(v) => {
                proof {
                    lemma_map_get_entry(gm, line as int);
                    lemma_max_label_len_props(gm);
                    let ge = choose|ge: int|
                        0 <= ge < gm.len() && #[trigger] gm[ge] == (line as i32, v);
                    assert(gm[ge].1.in_range());
                    crate::fixed::lemma_fixed_chars_props(v.units as int);
                    assert(crate::fixed::spec_fixed_chars(v.units as int).len() <= width);
                }
                let t = v.to_text();
                let tc = chars_of(t.as_str());
                push_spaces(&mut rc, width - tc.len());
                push_all(&mut rc, &tc);
                rc.push('-');
            },
            None => {
                push_spaces(&mut rc, width);
                rc.push(' ');
            },
        }
        if row == face_height {
            rc.push('+');
        } else {
            rc.push('|');
        }
        proof {
            assert(rc@ =~= spec_y_axis_row(
                gm,
                y_axis.spec_label(),
                face_height as int,
                width as int,
                row as int,
            ));
        }
        rows.push(rc);
        row = row + 1;
    }
    let joined = join_rows(&rows);
    proof {
        assert forall|a: int| 0 <= a < rows@.len() implies row_has_no_newline(
            (#[trigger] rows@[a])@,
        ) by {
            let rowseq = spec_y_axis_row(
                gm,
                y_axis.spec_label(),
                face_height as int,
                width as int,
                a,
            );
            if rowseq.contains('\n') {
                let k = choose|k: int| 0 <= k < rowseq.len() && rowseq[k] == '\n';
                let line = face_height - a;
                if spec_map_get(gm, line) is Some {
                    lemma_map_get_entry(gm, line as int);
                    let ge = choose|ge: int|
                        0 <= ge < gm.len() && #[trigger] gm[ge] == (
                        line as i32,
                        spec_map_get(gm, line as int)->0,
                        );
                    assert(gm[ge].1.in_range());
                    crate::fixed::lemma_fixed_chars_props(spec_map_get(gm, line)->0.units as int);
                }
                lemma_centered_no_newline(y_axis.spec_label(), face_height as int + 1);
                assert(false);
            }
        }
        let grows = rows@.map_values(|v: Vec<char>| v@);
        lemma_lines_of_join(grows);
    }
    (joined, width as i32)
}

/// Centering keeps the text free of separators.
proof fn lemma_centered_no_newline(text: Seq<char>, w: int)
    requires
        row_has_no_newline(text),
    ensures
        row_has_no_newline(spec_centered(text, w)),
{
    let c = spec_centered(text, w);
    if c.contains('\n') {
        let k = choose|k: int| 0 <= k < c.len() && c[k] == '\n';
        if text.len() < w {
            let left = (w - text.len()) / 2;
            if left <= k < left + text.len() {
                assert(text[k - left] == '\n');
            }
        }
        assert(false);
    }
}


/// `n` copies of a character (none when `n` is negative).
pub open spec fn spec_repeat(c: char, n: int) -> Seq<char> {
    if n <= 0 {
        Seq::empty()
    } else {
        Seq::new(n as nat, |i: int| c)
    }
}

/// The tick row of the x-axis: a stroke under every occupied cell.
pub open spec fn spec_x_tick_row(m: Seq<(i32, Fixed)>, face_width: int) -> Seq<char> {
    Seq::new(
        (face_width + 1) as nat,
        |c: int|
            if spec_map_get(m, c) is Some {
                '|'
            } else {
                ' '
            },
    )
}

/// Where a tick label starts: its footprint centered on its cell.
pub open spec fn spec_label_start(e: (i32, Fixed)) -> int {
    e.0 - spec_footprint(crate::fixed::spec_fixed_chars(e.1.units as int).len()) / 2
}

/// The leftmost label start among the map's entries.
pub open spec fn spec_min_start(m: Seq<(i32, Fixed)>) -> int
    decreases m.len(),
{
    if m.len() == 0 {
        0
    } else if m.len() == 1 {
        spec_label_start(m[0])
    } else {
        let rest = spec_min_start(m.drop_last());
        if spec_label_start(m.last()) < rest {
            spec_label_start(m.last())
        } else {
            rest
        }
    }
}

/// The label row of the x-axis, built left to right: each label is
/// placed at its start position, padding with spaces to reach it and
/// trimming what was already written when it starts further left —
/// later labels win where footprints overlap.
pub open spec fn spec_labels_fold(m: Seq<(i32, Fixed)>, start: int) -> Seq<char>
    decreases m.len(),
{
    if m.len() == 0 {
        Seq::empty()
    } else {
        let p = spec_labels_fold(m.drop_last(), start);
        let text = crate::fixed::spec_fixed_chars(m.last().1.units as int);
        let fp = spec_footprint(text.len());
        let pos = m.last().0 - fp / 2 - start;
        let base = if pos >= p.len() {
            p + spec_spaces(pos - p.len())
        } else if pos >= 0 {
            p.take(pos)
        } else {
            Seq::<char>::empty()
        };
        base + spec_centered(text, fp)
    }
}

/// Every label start lies at or after the leftmost one.
proof fn lemma_min_start_le(m: Seq<(i32, Fixed)>, e: int)
    requires
        0 <= e < m.len(),
    ensures
        spec_min_start(m) <= spec_label_start(m[e]),
    decreases m.len(),
{
    if m.len() > 1 && e < m.len() - 1 {
        lemma_min_start_le(m.drop_last(), e);
    }
}

/// The leftmost start stays within the face and the widest label.
proof fn lemma_min_start_bounds(m: Seq<(i32, Fixed)>, cells: int)
    requires
        m.len() >= 1,
        forall|e: int| 0 <= e < m.len() ==> 0 <= (#[trigger] m[e]).0 <= cells,
        forall|e: int| 0 <= e < m.len() ==> (#[trigger] m[e]).1.in_range(),
    ensures
        -21 <= spec_min_start(m) <= cells,
    decreases m.len(),
{
    crate::fixed::lemma_fixed_chars_props(m.last().1.units as int);
    if m.len() > 1 {
        lemma_min_start_bounds(m.drop_last(), cells);
        assert(forall|e: int| 0 <= e < m.len() - 1 ==> #[trigger] m.drop_last()[e] == m[e]);
    }
}

/// The four rows of the x-axis block: the axis line, the tick strokes,
/// the label row, and the centered axis name — the first, second and
/// fourth shifted right when the leftmost label hangs left of the
/// axis, the third shifted right when it starts inside it.
pub fn render_x_axis_strings(x_axis: &axis::ContinuousAxis, face_width: u32) -> (r: (String, i32))
    requires
        x_axis.wf(),
        1 <= face_width <= 10_000,
        x_axis.spec_ticks().len() >= 1,
        row_has_no_newline(x_axis.spec_label()),
    ensures
        ({
            let m = spec_tick_map(x_axis.spec_ticks(), *x_axis, face_width as int);
            let start = spec_min_start(m);
            let neg = if start < 0 {
                -start
            } else {
                0
            };
            let pos = if start > 0 {
                start
            } else {
                0
            };
            &&& r.1 == start
            &&& -21 <= r.1 <= face_width
            &&& spec_lines(r.0@).len() == 4
            &&& spec_lines(r.0@)[0] == spec_repeat(' ', neg) + seq!['+'] + spec_repeat(
                '-',
                face_width as int,
            )
            &&& spec_lines(r.0@)[1] == spec_repeat(' ', neg) + spec_x_tick_row(
                m,
                face_width as int,
            )
            &&& spec_lines(r.0@)[2] == spec_repeat(' ', pos) + spec_labels_fold(m, start)
            &&& spec_lines(r.0@)[3] == spec_repeat(' ', neg) + spec_centered(
                x_axis.spec_label(),
                face_width as int,
            )
        }),
{
    let ghost gm = spec_tick_map(x_axis.spec_ticks(), *x_axis, face_width as int);
    let m = tick_offset_map(x_axis, face_width);
    proof {
        lemma_tick_map_props(x_axis.spec_ticks(), *x_axis, face_width as int);
        lemma_min_start_bounds(gm, face_width as int);
    }
    // the leftmost label start decides the shift of the block
    let mut start: i32 = {
        let first = XAxisLabel { text: m[0].1.to_text(), offset: m[0].0 };
        proof {
            crate::fixed::lemma_fixed_chars_props(gm[0].1.units as int);
        }
        first.start_offset()
    };
    let mut e: usize = 1;
    while e < m.len()
        invariant
            1 <= e <= m@.len(),
            m@ == gm,
            m@.len() >= 1,
            forall|t: int| 0 <= t < gm.len() ==> (#[trigger] gm[t]).1.in_range(),
            forall|t: int| 0 <= t < gm.len() ==> 0 <= (#[trigger] gm[t]).0 <= face_width,
            face_width <= 10_000,
            start == spec_min_start(gm.take(e as int)),
            -21 <= start <= face_width,
        decreases m@.len() - e,
    {
        let lab = XAxisLabel { text: m[e].1.to_text(), offset: m[e].0 };
        proof {
            crate::fixed::lemma_fixed_chars_props(gm[e as int].1.units as int);
            assert(gm.take(e + 1).drop_last() =~= gm.take(e as int));
            assert(gm.take(e + 1).last() == gm[e as int]);
        }
        let so = lab.start_offset();
        if so < start {
            start = so;
        }
        e = e + 1;
    }
    proof {
        assert(gm.take(gm.len() as int) =~= gm);
    }
    // the label row, later labels overwriting earlier ones
    let mut labels_row: Vec<char> = Vec::new();
    let mut e2: usize = 0;
    proof {
        assert(gm.take(0).len() == 0);
    }
    while e2 < m.len()
        invariant
            e2 <= m@.len(),
            m@ == gm,
            m@.len() >= 1,
            forall|t: int| 0 <= t < gm.len() ==> (#[trigger] gm[t]).1.in_range(),
            forall|t: int| 0 <= t < gm.len() ==> 0 <= (#[trigger] gm[t]).0 <= face_width,
            face_width <= 10_000,
            start == spec_min_start(gm),
            -21 <= start <= face_width,
            labels_row@ == spec_labels_fold(gm.take(e2 as int), start as int),
            row_has_no_newline(labels_row@),
            labels_row@.len() <= 10_100,
        decreases m@.len() - e2,
    {
        let lab = XAxisLabel { text: m[e2].1.to_text(), offset: m[e2].0 };
        proof {
            crate::fixed::lemma_fixed_chars_props(gm[e2 as int].1.units as int);
            lemma_min_start_le(gm, e2 as int);
            assert(gm.take(e2 + 1).drop_last() =~= gm.take(e2 as int));
            assert(gm.take(e2 + 1).last() == gm[e2 as int]);
        }
        let so = lab.start_offset();
        let pos: usize = (so - start) as usize;
        let ghost row_pre = labels_row@;
        if pos >= labels_row.len() {
            let deficit = pos - labels_row.len();
            push_spaces(&mut labels_row, deficit);
            proof {
                assert(labels_row@ =~= row_pre + spec_spaces(pos - row_pre.len()));
            }
        } else {
            labels_row.truncate(pos);
            proof {
                assert(labels_row@ =~= row_pre.take(pos as int));
            }
        }
        let tc = chars_of(lab.text.as_str());
        push_all(&mut labels_row, &tc);
        if tc.len() % 2 == 0 {
            labels_row.push(' ');
        }
        proof {
            let text = crate::fixed::spec_fixed_chars(gm[e2 as int].1.units as int);
            let fp = spec_footprint(text.len());
            assert(spec_centered(text, fp) =~= if text.len() % 2 == 0 {
                text + seq![' ']
            } else {
                text
            });
            assert(labels_row@ =~= spec_labels_fold(gm.take(e2 + 1), start as int));
            assert(row_has_no_newline(labels_row@)) by {
                if labels_row@.contains('\n') {
                    let k = choose|k: int|
                        0 <= k < labels_row@.len() && labels_row@[k] == '\n';
                }
            }
        }
        e2 = e2 + 1;
    }
    proof {
        assert(gm.take(gm.len() as int) =~= gm);
    }
    // the tick strokes, one per occupied cell
    let mut tick_row: Vec<char> = Vec::new();
    let mut c: u32 = 0;
    while c <= face_width
        invariant
            c <= face_width + 1,
            m@ == gm,
            face_width <= 10_000,
            tick_row@.len() == c,
            forall|t: int|
                0 <= t < c ==> #[trigger] tick_row@[t] == (if spec_map_get(gm, t) is Some {
                    '|'
                } else {
                    ' '
                }),
        decreases face_width + 1 - c,
    {
        let looked = map_get(&m, c as i32);
        if looked.is_some() {
            tick_row.push('|');
        } else {
            tick_row.push(' ');
        }
        c = c + 1;
    }
    // the axis line itself
    let mut line_row: Vec<char> = Vec::new();
    line_row.push('+');
    let mut d: u32 = 0;
    while d < face_width
        invariant
            d <= face_width,
            line_row@.len() == d + 1,
            line_row@[0] == '+',
            forall|t: int| 1 <= t < line_row@.len() ==> #[trigger] line_row@[t] == '-',
        decreases face_width - d,
    {
        line_row.push('-');
        d = d + 1;
    }
    let name_row = centered_chars(x_axis.get_label(), face_width as usize);
    // assemble the four rows, shifted by the leftmost label start
    let pad: usize = if start < 0 {
        (-start) as usize
    } else {
        0
    };
    let lpad: usize = if start > 0 {
        start as usize
    } else {
        0
    };
    let mut rows: Vec<Vec<char>> = Vec::new();
    let mut r0: Vec<char> = Vec::new();
    push_spaces(&mut r0, pad);
    push_all(&mut r0, &line_row);
    let mut r1: Vec<char> = Vec::new();
    push_spaces(&mut r1, pad);
    push_all(&mut r1, &tick_row);
    let mut r2: Vec<char> = Vec::new();
    push_spaces(&mut r2, lpad);
    push_all(&mut r2, &labels_row);
    let mut r3: Vec<char> = Vec::new();
    push_spaces(&mut r3, pad);
    push_all(&mut r3, &name_row);
    proof {
        assert(r0@ =~= spec_repeat(' ', if start < 0 { -start as int } else { 0 }) + seq!['+']
            + spec_repeat('-', face_width as int)) by {
            assert(line_row@ =~= seq!['+'] + spec_repeat('-', face_width as int));
        }
        assert(r1@ =~= spec_repeat(' ', if start < 0 { -start as int } else { 0 })
            + spec_x_tick_row(gm, face_width as int)) by {
            assert(tick_row@ =~= spec_x_tick_row(gm, face_width as int));
        }
        assert(r2@ =~= spec_repeat(' ', if start > 0 { start as int } else { 0 })
            + spec_labels_fold(gm, start as int));
    }
    rows.push(r0);
    rows.push(r1);
    rows.push(r2);
    rows.push(r3);
    let joined = join_rows(&rows);
    proof {
        lemma_centered_no_newline(x_axis.spec_label(), face_width as int);
        assert forall|a: int| 0 <= a < rows@.len() implies row_has_no_newline(
            (#[trigger] rows@[a])@,
        ) by {
            if rows@[a]@.contains('\n') {
                let k = choose|k: int| 0 <= k < rows@[a]@.len() && rows@[a]@[k] == '\n';
            }
        }
        let grows = rows@.map_values(|v: Vec<char>| v@);
        lemma_lines_of_join(grows);
        assert(grows =~= seq![rows@[0]@, rows@[1]@, rows@[2]@, rows@[3]@]);
    }
    (joined, start)
}

} // verus!\n