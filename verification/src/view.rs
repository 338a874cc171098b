//! *Views* combine multiple representations into a single plot.
//!
//! A view is a collection of representations along with the extent to
//! plot and the axis labels. It validates its ranges, builds the two
//! axes — the one place ticks are computed — and renders every
//! representation onto one character grid.

use vstd::prelude::*;

use crate::axis::ContinuousAxis;
use crate::axis::Range;
use crate::errors::Error;
use crate::fixed::Fixed;
use crate::fixed::MAX_UNITS;
use crate::grid::Grid;
use crate::repr::ContinuousRepresentation;
use crate::text_render;

verus! {

/// Defines where the two axes should intersect.
#[derive(Clone, Copy, Debug, PartialEq, Eq, Structural)]
pub enum ContinuousViewAxisIntersectionStyle {
    /// Intersect in the `(0,0)` point.
    OriginCenter,
    /// Intersect in the `(min,min)` point.
    CornerCenter,
}

/// Defines the style of the axis line.
#[derive(Clone, Copy, Debug, PartialEq, Eq, Structural)]
pub enum ContinuousViewAxisLineStyle {
    /// A line with an arrow tip on the maximum side.
    Arrow,
    /// A simple line.
    Line,
}

/// Defines where the axis label should be placed.
#[derive(Clone, Copy, Debug, PartialEq, Eq, Structural)]
pub enum ContinuousViewAxisLabelStyle {
    /// Next to the axis on the maximum side.
    NextToAxis,
    /// On the left and bottom borders of the view.
    Border,
}

/// Defines how a tick intersects the axis.
#[derive(Clone, Copy, Debug, PartialEq, Eq, Structural)]
pub enum ContinuousViewTickStyle {
    /// The tick meets the axis from below.
    UnderLine,
    /// The tick crosses the axis at its middle.
    OnLine,
    /// The tick meets the axis from above.
    OverLine,
}

/// The extent of a list of representations along one dimension: the
/// widest range any of them covers, or an inverted extent when there
/// are none.
pub open spec fn spec_reprs_extent(reprs: Seq<ContinuousRepresentation>, dim: int) -> (int, int)
    decreases reprs.len(),
{
    if reprs.len() == 0 {
        (MAX_UNITS as int, -MAX_UNITS as int)
    } else {
        let rest = spec_reprs_extent(reprs.drop_last(), dim);
        let this = reprs.last().spec_range(dim);
        (
            if this.0.units < rest.0 {
                this.0.units as int
            } else {
                rest.0
            },
            if this.1.units > rest.1 {
                this.1.units as int
            } else {
                rest.1
            },
        )
    }
}

/// The planner places at least one tick on the range, whichever
/// admissible step is taken (they all agree on the count).
pub open spec fn spec_plan_nonempty(lower: int, upper: int, max_ticks: int) -> bool {
    forall|s: int|
        #[trigger] crate::axis::is_planning_step(lower, upper, max_ticks, s)
            ==> crate::axis::tick_count(lower, upper, s) > 0
}

/// The width of the left gutter: room for the widest y tick label,
/// its dash and the axis line, or for an x label hanging left of the
/// axis, whichever asks for more.
pub open spec fn spec_gutter(
    x_axis: ContinuousAxis,
    y_axis: ContinuousAxis,
    face_width: int,
    face_height: int,
) -> int {
    let lw = text_render::spec_max_label_len(
        text_render::spec_tick_map(y_axis.spec_ticks(), y_axis, face_height),
    );
    let start = text_render::spec_min_start(
        text_render::spec_tick_map(x_axis.spec_ticks(), x_axis, face_width),
    );
    let neg = if start < 0 {
        -start
    } else {
        0
    };
    if lw + 3 >= neg {
        lw + 3
    } else {
        neg
    }
}

/// The glyph the stacked representation faces show at one face cell:
/// representations added later are drawn over earlier ones, and a
/// cell outside the face is blank.
pub open spec fn spec_faces_char(
    reprs: Seq<ContinuousRepresentation>,
    x_axis: ContinuousAxis,
    y_axis: ContinuousAxis,
    face_width: int,
    face_height: int,
    row: int,
    col: int,
) -> char
    decreases reprs.len(),
{
    if reprs.len() == 0 || !(0 <= row < face_height && 0 <= col < face_width) {
        ' '
    } else {
        let c = reprs.last().spec_face_cell(x_axis, y_axis, face_width, face_height, row, col);
        if c != ' ' {
            c
        } else {
            spec_faces_char(
                reprs.drop_last(),
                x_axis,
                y_axis,
                face_width,
                face_height,
                row,
                col,
            )
        }
    }
}

/// A standard two-dimensional view with continuous axes.
pub struct ContinuousView {
    representations: Vec<ContinuousRepresentation>,
    x_range: Option<Range>,
    y_range: Option<Range>,
    x_max_ticks: usize,
    y_max_ticks: usize,
    x_label: Option<String>,
    y_label: Option<String>,
    grid: Option<Grid>,
}

impl ContinuousView {
    pub closed spec fn spec_reprs(self) -> Seq<ContinuousRepresentation> {
        self.representations@
    }

    pub closed spec fn spec_x_range(self) -> Option<Range> {
        self.x_range
    }

    pub closed spec fn spec_y_range(self) -> Option<Range> {
        self.y_range
    }

    pub closed spec fn spec_x_max_ticks(self) -> int {
        self.x_max_ticks as int
    }

    pub closed spec fn spec_y_max_ticks(self) -> int {
        self.y_max_ticks as int
    }

    pub closed spec fn spec_x_label(self) -> Option<String> {
        self.x_label
    }

    pub closed spec fn spec_y_label(self) -> Option<String> {
        self.y_label
    }

    /// The invariant a view keeps: sound tick budgets, well-formed
    /// representations, and single-line labels.
    pub open spec fn wf(self) -> bool {
        &&& 1 <= self.spec_x_max_ticks() <= 10_000
        &&& 1 <= self.spec_y_max_ticks() <= 10_000
        &&& forall|i: int| 0 <= i < self.spec_reprs().len() ==> (#[trigger] self.spec_reprs()[i]).wf()
        &&& self.spec_x_label() is Some ==> text_render::row_has_no_newline(
            self.spec_x_label()->0@,
        )
        &&& self.spec_y_label() is Some ==> text_render::row_has_no_newline(
            self.spec_y_label()->0@,
        )
    }

    /// Creates an empty view with a default budget of six ticks per
    /// axis.
    pub fn new() -> (r: ContinuousView)
        ensures
            r.wf(),
            r.spec_reprs().len() == 0,
            r.spec_x_range() is None,
            r.spec_y_range() is None,
            r.spec_x_max_ticks() == 6,
            r.spec_y_max_ticks() == 6,
            r.spec_x_label() is None,
            r.spec_y_label() is None,
    {
        ContinuousView {
            representations: Vec::new(),
            x_range: None,
            y_range: None,
            x_max_ticks: 6,
            y_max_ticks: 6,
            x_label: None,
            y_label: None,
            grid: None,
        }
    }

    /// Sets the maximum number of ticks along the x axis.
    pub fn x_max_ticks(self, val: usize) -> (r: Self)
        requires
            1 <= val <= 10_000,
        ensures
            r.spec_x_max_ticks() == val,
            r.spec_y_max_ticks() == self.spec_y_max_ticks(),
            r.spec_reprs() == self.spec_reprs(),
            r.spec_x_range() == self.spec_x_range(),
            r.spec_y_range() == self.spec_y_range(),
            r.spec_x_label() == self.spec_x_label(),
            r.spec_y_label() == self.spec_y_label(),
            self.wf() ==> r.wf(),
    {
        ContinuousView { x_max_ticks: val, ..self }
    }

    /// Sets the maximum number of ticks along the y axis.
    pub fn y_max_ticks(self, val: usize) -> (r: Self)
        requires
            1 <= val <= 10_000,
        ensures
            r.spec_y_max_ticks() == val,
            r.spec_x_max_ticks() == self.spec_x_max_ticks(),
            r.spec_reprs() == self.spec_reprs(),
            r.spec_x_range() == self.spec_x_range(),
            r.spec_y_range() == self.spec_y_range(),
            r.spec_x_label() == self.spec_x_label(),
            r.spec_y_label() == self.spec_y_label(),
            self.wf() ==> r.wf(),
    {
        ContinuousView { y_max_ticks: val, ..self }
    }

    /// Adds a representation to the view.
    pub fn add(self, representation: ContinuousRepresentation) -> (r: Self)
        requires
            representation.wf(),
        ensures
            r.spec_reprs() == self.spec_reprs().push(representation),
            r.spec_x_range() == self.spec_x_range(),
            r.spec_y_range() == self.spec_y_range(),
            r.spec_x_max_ticks() == self.spec_x_max_ticks(),
            r.spec_y_max_ticks() == self.spec_y_max_ticks(),
            r.spec_x_label() == self.spec_x_label(),
            r.spec_y_label() == self.spec_y_label(),
            self.wf() ==> r.wf(),
    {
        let ghost os = self;
        let mut v = self;
        v.representations.push(representation);
        proof {
            if os.wf() {
                assert forall|i: int|
                    0 <= i < v.spec_reprs().len() implies (#[trigger] v.spec_reprs()[i]).wf() by {
                    if i < os.spec_reprs().len() {
                        assert(v.spec_reprs()[i] == os.spec_reprs()[i]);
                        assert(os.spec_reprs()[i].wf());
                    }
                }
            }
        }
        v
    }

    /// Sets the x range for the view.
    pub fn x_range(self, min: Fixed, max: Fixed) -> (r: Self)
        ensures
            r.spec_x_range() == Some(Range { lower: min, upper: max }),
            r.spec_y_range() == self.spec_y_range(),
            r.spec_reprs() == self.spec_reprs(),
            r.spec_x_max_ticks() == self.spec_x_max_ticks(),
            r.spec_y_max_ticks() == self.spec_y_max_ticks(),
            r.spec_x_label() == self.spec_x_label(),
            r.spec_y_label() == self.spec_y_label(),
            self.wf() ==> r.wf(),
    {
        ContinuousView { x_range: Some(Range::new(min, max)), ..self }
    }

    /// Sets the y range for the view.
    pub fn y_range(self, min: Fixed, max: Fixed) -> (r: Self)
        ensures
            r.spec_y_range() == Some(Range { lower: min, upper: max }),
            r.spec_x_range() == self.spec_x_range(),
            r.spec_reprs() == self.spec_reprs(),
            r.spec_x_max_ticks() == self.spec_x_max_ticks(),
            r.spec_y_max_ticks() == self.spec_y_max_ticks(),
            r.spec_x_label() == self.spec_x_label(),
            r.spec_y_label() == self.spec_y_label(),
            self.wf() ==> r.wf(),
    {
        ContinuousView { y_range: Some(Range::new(min, max)), ..self }
    }

    /// Sets the label for the x axis.
    pub fn x_label(self, value: &str) -> (r: Self)
        requires
            text_render::row_has_no_newline(value@),
        ensures
            r.spec_x_label() is Some && r.spec_x_label()->0@ == value@,
            r.spec_y_label() == self.spec_y_label(),
            r.spec_reprs() == self.spec_reprs(),
            r.spec_x_range() == self.spec_x_range(),
            r.spec_y_range() == self.spec_y_range(),
            r.spec_x_max_ticks() == self.spec_x_max_ticks(),
            r.spec_y_max_ticks() == self.spec_y_max_ticks(),
            self.wf() ==> r.wf(),
    {
        ContinuousView { x_label: Some(value.to_owned()), ..self }
    }

    /// Sets the label for the y axis.
    pub fn y_label(self, value: &str) -> (r: Self)
        requires
            text_render::row_has_no_newline(value@),
        ensures
            r.spec_y_label() is Some && r.spec_y_label()->0@ == value@,
            r.spec_x_label() == self.spec_x_label(),
            r.spec_reprs() == self.spec_reprs(),
            r.spec_x_range() == self.spec_x_range(),
            r.spec_y_range() == self.spec_y_range(),
            r.spec_x_max_ticks() == self.spec_x_max_ticks(),
            r.spec_y_max_ticks() == self.spec_y_max_ticks(),
            self.wf() ==> r.wf(),
    {
        ContinuousView { y_label: Some(value.to_owned()), ..self }
    }

    /// Adds a grid to the view.
    pub fn add_grid(&mut self, grid: Grid)
        ensures
            final(self).spec_reprs() == old(self).spec_reprs(),
            final(self).spec_x_range() == old(self).spec_x_range(),
            final(self).spec_y_range() == old(self).spec_y_range(),
            final(self).spec_x_max_ticks() == old(self).spec_x_max_ticks(),
            final(self).spec_y_max_ticks() == old(self).spec_y_max_ticks(),
            final(self).spec_x_label() == old(self).spec_x_label(),
            final(self).spec_y_label() == old(self).spec_y_label(),
            old(self).wf() ==> final(self).wf(),
    {
        self.grid = Some(grid);
    }

    pub fn grid(&self) -> &Option<Grid> {
        &self.grid
    }

    /// The representations the view holds, in the order they were
    /// added.
    pub fn representations(&self) -> (r: &Vec<ContinuousRepresentation>)
        ensures
            r@ == self.spec_reprs(),
    {
        &self.representations
    }

    /// The widest x extent any representation covers.
    fn default_x_range(&self) -> (r: Range)
        requires
            self.wf(),
        ensures
            r.lower.units == spec_reprs_extent(self.spec_reprs(), 0).0,
            r.upper.units == spec_reprs_extent(self.spec_reprs(), 0).1,
            r.lower.in_range() && r.upper.in_range(),
    {
        self.reprs_extent(0)
    }

    /// The widest y extent any representation covers.
    fn default_y_range(&self) -> (r: Range)
        requires
            self.wf(),
        ensures
            r.lower.units == spec_reprs_extent(self.spec_reprs(), 1).0,
            r.upper.units == spec_reprs_extent(self.spec_reprs(), 1).1,
            r.lower.in_range() && r.upper.in_range(),
    {
        self.reprs_extent(1)
    }

    fn reprs_extent(&self, dim: u32) -> (r: Range)
        requires
            self.wf(),
            dim <= 1,
        ensures
            r.lower.units == spec_reprs_extent(self.spec_reprs(), dim as int).0,
            r.upper.units == spec_reprs_extent(self.spec_reprs(), dim as int).1,
            r.lower.in_range() && r.upper.in_range(),
    {
        let ghost reprs = self.spec_reprs();
        let mut lower: i128 = MAX_UNITS;
        let mut upper: i128 = -MAX_UNITS;
        let mut i: usize = 0;
        while i < self.representations.len()
            invariant
                i <= reprs.len(),
                self.spec_reprs() == reprs,
                self.wf(),
                dim <= 1,
                lower == spec_reprs_extent(reprs.take(i as int), dim as int).0,
                upper == spec_reprs_extent(reprs.take(i as int), dim as int).1,
                -MAX_UNITS <= lower <= MAX_UNITS,
                -MAX_UNITS <= upper <= MAX_UNITS,
            decreases reprs.len() - i,
        {
            proof {
                assert(reprs.take(i + 1).drop_last() =~= reprs.take(i as int));
                assert(reprs.take(i + 1).last() == reprs[i as int]);
                assert(self.spec_reprs()[i as int].wf());
            }
            let this = self.representations[i].range(dim);
            if this.0.units < lower {
                lower = this.0.units;
            }
            let this2 = self.representations[i].range(dim);
            if this2.1.units > upper {
                upper = this2.1.units;
            }
            i = i + 1;
        }
        proof {
            assert(reprs.take(reprs.len() as int) =~= reprs);
        }
        Range::new(Fixed { units: lower }, Fixed { units: upper })
    }

    /// The x range the view will plot: the explicit one when set, else
    /// the widest extent of its data.
    pub open spec fn spec_chosen_x_range(self) -> (int, int) {
        match self.spec_x_range() {
            Some(r) => (r.lower.units as int, r.upper.units as int),
            None => spec_reprs_extent(self.spec_reprs(), 0),
        }
    }

    /// The y range the view will plot.
    pub open spec fn spec_chosen_y_range(self) -> (int, int) {
        match self.spec_y_range() {
            Some(r) => (r.lower.units as int, r.upper.units as int),
            None => spec_reprs_extent(self.spec_reprs(), 1),
        }
    }

    /// The axes the view builds: valid ranges taken over as the axis
    /// bounds, the planned ticks for the view's budgets, and the
    /// view's labels.
    pub open spec fn axes_match(self, x_axis: ContinuousAxis, y_axis: ContinuousAxis) -> bool {
        &&& x_axis.wf()
        &&& y_axis.wf()
        &&& x_axis.spec_min().units == self.spec_chosen_x_range().0
        &&& x_axis.spec_max().units == self.spec_chosen_x_range().1
        &&& y_axis.spec_min().units == self.spec_chosen_y_range().0
        &&& y_axis.spec_max().units == self.spec_chosen_y_range().1
        &&& crate::axis::planned_ticks(
            x_axis.spec_min().units as int,
            x_axis.spec_max().units as int,
            self.spec_x_max_ticks(),
            x_axis.spec_ticks(),
        )
        &&& crate::axis::planned_ticks(
            y_axis.spec_min().units as int,
            y_axis.spec_max().units as int,
            self.spec_y_max_ticks(),
            y_axis.spec_ticks(),
        )
        &&& x_axis.spec_label() == (if self.spec_x_label() is Some {
            self.spec_x_label()->0@
        } else {
            Seq::<char>::empty()
        })
        &&& y_axis.spec_label() == (if self.spec_y_label() is Some {
            self.spec_y_label()->0@
        } else {
            Seq::<char>::empty()
        })
    }

    /// Every representation has a text rendering: none is a plot
    /// that asks for lines.
    pub open spec fn spec_text_supported(self) -> bool {
        forall|i: int|
            0 <= i < self.spec_reprs().len() ==> !((#[trigger] self.spec_reprs()[i]) matches
                ContinuousRepresentation::Plot(p) && p.line_style is Some)
    }

    /// The view can be rendered as text: both effective ranges are
    /// valid, the planner places at least one tick on each axis, and
    /// every representation has a text rendering.
    pub open spec fn spec_text_renderable(self) -> bool {
        let (xl, xu) = self.spec_chosen_x_range();
        let (yl, yu) = self.spec_chosen_y_range();
        &&& -MAX_UNITS <= xl < xu <= MAX_UNITS
        &&& -MAX_UNITS <= yl < yu <= MAX_UNITS
        &&& spec_plan_nonempty(xl, xu, self.spec_x_max_ticks())
        &&& spec_plan_nonempty(yl, yu, self.spec_y_max_ticks())
        &&& self.spec_text_supported()
    }

    /// What the canvas shows at one cell: the x-axis block along the
    /// bottom wins over the y-axis block on the left, which wins over
    /// the representations' faces right of the gutter, which sit on a
    /// blank canvas.
    pub open spec fn spec_view_cell(
        self,
        x_axis: ContinuousAxis,
        y_axis: ContinuousAxis,
        face_width: int,
        face_height: int,
        row: int,
        col: int,
    ) -> char {
        let my = text_render::spec_tick_map(y_axis.spec_ticks(), y_axis, face_height);
        let mx = text_render::spec_tick_map(x_axis.spec_ticks(), x_axis, face_width);
        let lw = text_render::spec_max_label_len(my);
        let g = spec_gutter(x_axis, y_axis, face_width, face_height);
        let xc = text_render::spec_over_char(
            text_render::spec_x_block(mx, x_axis.spec_label(), face_width),
            row - face_height,
            col - g,
        );
        let yc = text_render::spec_over_char(
            text_render::spec_y_block(my, y_axis.spec_label(), face_height, lw),
            row,
            col - (g - 2 - lw),
        );
        if xc != ' ' {
            xc
        } else if yc != ' ' {
            yc
        } else {
            spec_faces_char(
                self.spec_reprs(),
                x_axis,
                y_axis,
                face_width,
                face_height,
                row,
                col - (g + 1),
            )
        }
    }

    /// Builds the two axes, validating the ranges first: an invalid
    /// range — one not strictly ascending within the supported
    /// magnitude — is reported, never silently patched.
    pub fn create_axes(&self) -> (r: Result<(ContinuousAxis, ContinuousAxis), Error>)
        requires
            self.wf(),
        ensures
            r is Ok <==> {
                let (xl, xu) = self.spec_chosen_x_range();
                let (yl, yu) = self.spec_chosen_y_range();
                &&& -MAX_UNITS <= xl < xu <= MAX_UNITS
                &&& -MAX_UNITS <= yl < yu <= MAX_UNITS
            },
            r is Ok ==> self.axes_match(r->Ok_0.0, r->Ok_0.1),
    {
        let default_x = self.default_x_range();
        let x_range = match &self.x_range {
            Some(r) => *r,
            None => default_x,
        };
        if !x_range.is_valid() {
            return Err(
                Error::InvalidRange {
                    name: "x_range".to_owned(),
                    lower: x_range.lower,
                    upper: x_range.upper,
                },
            );
        }
        let default_y = self.default_y_range();
        let y_range = match &self.y_range {
            Some(r) => *r,
            None => default_y,
        };
        if !y_range.is_valid() {
            return Err(
                Error::InvalidRange {
                    name: "y_range".to_owned(),
                    lower: y_range.lower,
                    upper: y_range.upper,
                },
            );
        }
        let x_label: String = match &self.x_label {
            Some(l) => l.clone(),
            None => String::new(),
        };
        let y_label: String = match &self.y_label {
            Some(l) => l.clone(),
            None => String::new(),
        };
        let x_axis = ContinuousAxis::new(x_range.lower, x_range.upper, self.x_max_ticks).label(
            x_label,
        );
        let y_axis = ContinuousAxis::new(y_range.lower, y_range.upper, self.y_max_ticks).label(
            y_label,
        );
        Ok((x_axis, y_axis))
    }

    /// Renders the whole view as text: the representations' faces
    /// merged over a blank canvas, the y-axis block on the left, the
    /// x-axis block along the bottom.
    ///
    /// Success is owed exactly when the view is renderable: both
    /// effective ranges valid, at least one planned tick on each
    /// axis, and no representation asking for a rendering the text
    /// backend lacks. On success the canvas is a `face_height + 4` by
    /// `face_width + 2 + gutter` grid whose every cell is the one
    /// [`ContinuousView::spec_view_cell`] names.
    #[verifier::rlimit(100)]
    pub fn to_text(&self, face_width: u32, face_height: u32) -> (r: Result<String, Error>)
        requires
            self.wf(),
            1 <= face_width <= 10_000,
            1 <= face_height <= 10_000,
        ensures
            r is Ok <==> self.spec_text_renderable(),
            r is Ok ==> exists|x_axis: ContinuousAxis, y_axis: ContinuousAxis|
                {
                    &&& #[trigger] self.axes_match(x_axis, y_axis)
                    &&& text_render::is_grid(
                        r->Ok_0@,
                        face_height + 4,
                        face_width + 2 + spec_gutter(
                            x_axis,
                            y_axis,
                            face_width as int,
                            face_height as int,
                        ),
                    )
                    &&& forall|row: int, col: int|
                        #![trigger text_render::spec_lines(r->Ok_0@)[row][col]]
                        0 <= row < face_height + 4 && 0 <= col < face_width + 2 + spec_gutter(
                            x_axis,
                            y_axis,
                            face_width as int,
                            face_height as int,
                        ) ==> text_render::spec_lines(r->Ok_0@)[row][col] == self.spec_view_cell(
                            x_axis,
                            y_axis,
                            face_width as int,
                            face_height as int,
                            row,
                            col,
                        )
                },
    {
        let ghost fw = face_width as int;
        let ghost fh = face_height as int;
        let ghost xr = self.spec_chosen_x_range();
        let ghost yr = self.spec_chosen_y_range();
        let axes = self.create_axes();
        let (x_axis, y_axis) = match axes {
            Ok(pair) => pair,
            Err(e) => {
                return Err(e);
            },
        };
        if y_axis.ticks().len() == 0 {
            proof {
                let s = choose|s: int|
                    {
                        &&& #[trigger] crate::axis::is_planning_step(yr.0, yr.1, self.spec_y_max_ticks(), s)
                        &&& y_axis.spec_ticks().len() == crate::axis::tick_count(yr.0, yr.1, s)
                        &&& forall|i: int|
                            0 <= i < y_axis.spec_ticks().len() ==> y_axis.spec_ticks()[i].units
                                == (crate::axis::tick_lo(yr.0, s) + i) * s
                    };
                assert(crate::axis::tick_count(yr.0, yr.1, s) <= 0);
                assert(!spec_plan_nonempty(yr.0, yr.1, self.spec_y_max_ticks()));
            }
            return Err(Error::EmptyAxis { name: "y".to_owned() });
        }
        if x_axis.ticks().len() == 0 {
            proof {
                let s = choose|s: int|
                    {
                        &&& #[trigger] crate::axis::is_planning_step(xr.0, xr.1, self.spec_x_max_ticks(), s)
                        &&& x_axis.spec_ticks().len() == crate::axis::tick_count(xr.0, xr.1, s)
                        &&& forall|i: int|
                            0 <= i < x_axis.spec_ticks().len() ==> x_axis.spec_ticks()[i].units
                                == (crate::axis::tick_lo(xr.0, s) + i) * s
                    };
                assert(crate::axis::tick_count(xr.0, xr.1, s) <= 0);
                assert(!spec_plan_nonempty(xr.0, xr.1, self.spec_x_max_ticks()));
            }
            return Err(Error::EmptyAxis { name: "x".to_owned() });
        }
        proof {
            // both plans are populated, whichever admissible step one takes
            let sy = choose|s: int|
                {
                    &&& #[trigger] crate::axis::is_planning_step(yr.0, yr.1, self.spec_y_max_ticks(), s)
                    &&& y_axis.spec_ticks().len() == crate::axis::tick_count(yr.0, yr.1, s)
                    &&& forall|i: int|
                        0 <= i < y_axis.spec_ticks().len() ==> y_axis.spec_ticks()[i].units == (
                        crate::axis::tick_lo(yr.0, s) + i) * s
                };
            assert forall|s: int|
                #[trigger] crate::axis::is_planning_step(yr.0, yr.1, self.spec_y_max_ticks(), s)
                    implies crate::axis::tick_count(yr.0, yr.1, s) > 0 by {
                crate::axis::lemma_planning_steps_agree(yr.0, yr.1, self.spec_y_max_ticks(), s, sy);
            }
            let sx = choose|s: int|
                {
                    &&& #[trigger] crate::axis::is_planning_step(xr.0, xr.1, self.spec_x_max_ticks(), s)
                    &&& x_axis.spec_ticks().len() == crate::axis::tick_count(xr.0, xr.1, s)
                    &&& forall|i: int|
                        0 <= i < x_axis.spec_ticks().len() ==> x_axis.spec_ticks()[i].units == (
                        crate::axis::tick_lo(xr.0, s) + i) * s
                };
            assert forall|s: int|
                #[trigger] crate::axis::is_planning_step(xr.0, xr.1, self.spec_x_max_ticks(), s)
                    implies crate::axis::tick_count(xr.0, xr.1, s) > 0 by {
                crate::axis::lemma_planning_steps_agree(xr.0, xr.1, self.spec_x_max_ticks(), s, sx);
            }
        }
        let (y_axis_string, longest_y_label_width) = text_render::render_y_axis_strings(
            &y_axis,
            face_height,
        );
        let (x_axis_string, start_offset) = text_render::render_x_axis_strings(
            &x_axis,
            face_width,
        );
        let ghost my = text_render::spec_tick_map(y_axis.spec_ticks(), y_axis, fh);
        let ghost mx = text_render::spec_tick_map(x_axis.spec_ticks(), x_axis, fw);
        let ghost lw = text_render::spec_max_label_len(my);
        let ghost g = spec_gutter(x_axis, y_axis, fw, fh);
        let neg_start: i32 = if start_offset < 0 {
            -start_offset
        } else {
            0
        };
        let left_gutter_width: u32 = if longest_y_label_width + 3 >= neg_start {
            (longest_y_label_width + 3) as u32
        } else {
            neg_start as u32
        };
        proof {
            assert(left_gutter_width == g);
        }
        let view_width: u32 = face_width + 1 + left_gutter_width + 1;
        let view_height: u32 = face_height + 4;
        let mut view_string = text_render::empty_face(view_width, view_height);
        proof {
            assert forall|row: int, col: int|
                #![trigger text_render::spec_lines(view_string@)[row][col]]
                0 <= row < view_height && 0 <= col < view_width
                    implies text_render::spec_lines(view_string@)[row][col] == spec_faces_char(
                    self.spec_reprs().take(0),
                    x_axis,
                    y_axis,
                    fw,
                    fh,
                    row,
                    col - (g + 1),
                ) by {
                assert(self.spec_reprs().take(0).len() == 0);
            }
        }
        let mut i: usize = 0;
        let ghost reprs = self.spec_reprs();
        while i < self.representations.len()
            invariant
                i <= reprs.len(),
                self.spec_reprs() == reprs,
                self.wf(),
                x_axis.wf(),
                y_axis.wf(),
                1 <= face_width <= 10_000,
                1 <= face_height <= 10_000,
                fw == face_width as int,
                fh == face_height as int,
                view_height == face_height + 4,
                left_gutter_width as int == g,
                0 <= g <= 100,
                view_width as int == fw + 2 + g,
                forall|k: int|
                    0 <= k < i ==> !((#[trigger] reprs[k]) matches
                        ContinuousRepresentation::Plot(p) && p.line_style is Some),
                text_render::is_grid(view_string@, view_height as int, view_width as int),
                forall|row: int, col: int|
                    #![trigger text_render::spec_lines(view_string@)[row][col]]
                    0 <= row < view_height && 0 <= col < view_width
                        ==> text_render::spec_lines(view_string@)[row][col] == spec_faces_char(
                        reprs.take(i as int),
                        x_axis,
                        y_axis,
                        fw,
                        fh,
                        row,
                        col - (g + 1),
                    ),
            decreases reprs.len() - i,
        {
            proof {
                assert(self.spec_reprs()[i as int].wf());
            }
            let face = self.representations[i].to_text(
                &x_axis,
                &y_axis,
                face_width,
                face_height,
            );
            let face_string = match face {
                Ok(s) => s,
                Err(e) => {
                    proof {
                        assert(!self.spec_text_supported());
                    }
                    return Err(e);
                },
            };
            let ghost pre = view_string@;
            view_string = text_render::overlay(
                view_string.as_str(),
                face_string.as_str(),
                (left_gutter_width + 1) as i32,
                0,
            );
            proof {
                assert(reprs.take(i + 1).drop_last() =~= reprs.take(i as int));
                assert(reprs.take(i + 1).last() == reprs[i as int]);
                let over = text_render::spec_lines(face_string@);
                assert forall|row: int, col: int|
                    #![trigger text_render::spec_lines(view_string@)[row][col]]
                    0 <= row < view_height && 0 <= col < view_width
                        implies text_render::spec_lines(view_string@)[row][col]
                        == spec_faces_char(
                        reprs.take(i + 1),
                        x_axis,
                        y_axis,
                        fw,
                        fh,
                        row,
                        col - (g + 1),
                    ) by {
                    let fc = col - (g + 1);
                    if 0 <= row < fh && 0 <= fc < fw {
                        assert(text_render::spec_over_char(over, row, fc) == over[row][fc]);
                    } else {
                        assert(text_render::spec_over_char(over, row, fc) == ' ');
                    }
                }
            }
            i = i + 1;
        }
        proof {
            assert(reprs.take(reprs.len() as int) =~= reprs);
        }
        let dx_y: i32 = left_gutter_width as i32 - 2 - longest_y_label_width;
        let view_string2 = text_render::overlay(
            view_string.as_str(),
            y_axis_string.as_str(),
            dx_y,
            0,
        );
        proof {
            assert(text_render::spec_lines(y_axis_string@) =~= text_render::spec_y_block(
                my,
                y_axis.spec_label(),
                fh,
                lw,
            ));
        }
        let view_string3 = text_render::overlay(
            view_string2.as_str(),
            x_axis_string.as_str(),
            left_gutter_width as i32,
            face_height as i32,
        );
        proof {
            assert(text_render::spec_lines(x_axis_string@) =~= text_render::spec_x_block(
                mx,
                x_axis.spec_label(),
                fw,
            )) by {
                let xb = text_render::spec_x_block(mx, x_axis.spec_label(), fw);
                assert(text_render::spec_lines(x_axis_string@).len() == 4);
                assert(text_render::spec_lines(x_axis_string@)[0] == xb[0]);
                assert(text_render::spec_lines(x_axis_string@)[1] == xb[1]);
                assert(text_render::spec_lines(x_axis_string@)[2] == xb[2]);
                assert(text_render::spec_lines(x_axis_string@)[3] == xb[3]);
            }
            assert(text_render::is_grid(view_string3@, view_height as int, view_width as int));
            assert forall|row: int, col: int|
                #![trigger text_render::spec_lines(view_string3@)[row][col]]
                0 <= row < view_height && 0 <= col < view_width
                    implies text_render::spec_lines(view_string3@)[row][col]
                    == self.spec_view_cell(x_axis, y_axis, fw, fh, row, col) by {
                assert(text_render::spec_lines(view_string2@)[row][col] == {
                    let yc = text_render::spec_over_char(
                        text_render::spec_y_block(my, y_axis.spec_label(), fh, lw),
                        row,
                        col - (g - 2 - lw),
                    );
                    if yc != ' ' {
                        yc
                    } else {
                        spec_faces_char(reprs, x_axis, y_axis, fw, fh, row, col - (g + 1))
                    }
                });
            }
            assert(self.spec_text_renderable());
            assert(self.axes_match(x_axis, y_axis) && text_render::is_grid(
                view_string3@,
                face_height + 4,
                face_width + 2 + spec_gutter(x_axis, y_axis, fw, fh),
            ) && forall|row: int, col: int|
                #![trigger text_render::spec_lines(view_string3@)[row][col]]
                0 <= row < face_height + 4 && 0 <= col < face_width + 2 + spec_gutter(
                    x_axis,
                    y_axis,
                    fw,
                    fh,
                ) ==> text_render::spec_lines(view_string3@)[row][col] == self.spec_view_cell(
                    x_axis,
                    y_axis,
                    fw,
                    fh,
                    row,
                    col,
                ));
        }
        Ok(view_string3)
    }
}

} // verus!
