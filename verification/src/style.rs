//! How drawn elements should look.
//!
//! All style structs follow the optional-merge pattern: each field is
//! an `Option` that starts as `None`, setters fill single fields, and
//! [`LineStyle::overlay`] (and its siblings) merge another style in,
//! the other style's present fields winning over this one's.

use vstd::prelude::*;

verus! {

/// The style that line corners should use.
#[derive(Debug, Clone, Copy, PartialEq, Eq, Structural)]
pub enum LineJoin {
    Miter,
    Round,
}

/// The marker that should be used for the points of a scatter plot.
#[derive(Debug, Clone, Copy, PartialEq, Eq, Structural)]
pub enum PointMarker {
    Circle,
    Square,
    Cross,
}

/// How a line should be drawn.
#[derive(Debug, Clone)]
pub struct LineStyle {
    pub colour: Option<String>,
    pub linejoin: Option<LineJoin>,
}

impl LineStyle {
    pub fn new() -> (r: Self)
        ensures
            r.colour is None,
            r.linejoin is None,
    {
        LineStyle { colour: None, linejoin: None }
    }

    /// Takes the other style's present fields over this one's.
    pub fn overlay(&mut self, other: &Self)
        ensures
            final(self).colour == if other.colour is Some {
                other.colour
            } else {
                old(self).colour
            },
            final(self).linejoin == if other.linejoin is Some {
                other.linejoin
            } else {
                old(self).linejoin
            },
    {
        if let Some(v) = &other.colour {
            self.colour = Some(v.clone());
        }
        if let Some(v) = &other.linejoin {
            self.linejoin = Some(*v);
        }
    }

    pub fn colour(self, value: &str) -> (r: Self)
        ensures
            r.colour is Some && r.colour->0@ == value@,
            r.linejoin == self.linejoin,
    {
        LineStyle { colour: Some(value.to_owned()), ..self }
    }

    pub fn get_colour(&self) -> (r: String)
        ensures
            r@ == if self.colour is Some {
                self.colour->0@
            } else {
                "black"@
            },
    {
        match &self.colour {
            Some(c) => c.clone(),
            None => "black".to_owned(),
        }
    }

    pub fn linejoin(self, value: LineJoin) -> (r: Self)
        ensures
            r.linejoin == Some(value),
            r.colour == self.colour,
    {
        LineStyle { linejoin: Some(value), ..self }
    }

    pub fn get_linejoin(&self) -> (r: LineJoin)
        ensures
            r == if self.linejoin is Some {
                self.linejoin->0
            } else {
                LineJoin::Round
            },
    {
        match self.linejoin {
            Some(j) => j,
            None => LineJoin::Round,
        }
    }
}

/// How the points of a scatter plot should be drawn.
#[derive(Debug, Clone)]
pub struct PointStyle {
    marker: Option<PointMarker>,
    colour: Option<String>,
}

impl PointStyle {
    pub closed spec fn spec_marker(self) -> Option<PointMarker> {
        self.marker
    }

    pub closed spec fn spec_colour(self) -> Option<String> {
        self.colour
    }

    pub fn new() -> (r: Self)
        ensures
            r.spec_marker() is None,
            r.spec_colour() is None,
    {
        PointStyle { marker: None, colour: None }
    }

    /// Takes the other style's present fields over this one's.
    pub fn overlay(&mut self, other: &Self)
        ensures
            final(self).spec_marker() == if other.spec_marker() is Some {
                other.spec_marker()
            } else {
                old(self).spec_marker()
            },
            final(self).spec_colour() == if other.spec_colour() is Some {
                other.spec_colour()
            } else {
                old(self).spec_colour()
            },
    {
        if let Some(v) = &other.marker {
            self.marker = Some(*v);
        }
        if let Some(v) = &other.colour {
            self.colour = Some(v.clone());
        }
    }

    pub fn marker(self, value: PointMarker) -> (r: Self)
        ensures
            r.spec_marker() == Some(value),
            r.spec_colour() == self.spec_colour(),
    {
        PointStyle { marker: Some(value), ..self }
    }

    pub fn get_marker(&self) -> (r: PointMarker)
        ensures
            r == if self.spec_marker() is Some {
                self.spec_marker()->0
            } else {
                PointMarker::Circle
            },
    {
        match self.marker {
            Some(m) => m,
            None => PointMarker::Circle,
        }
    }

    pub fn colour(self, value: &str) -> (r: Self)
        ensures
            r.spec_colour() is Some && r.spec_colour()->0@ == value@,
            r.spec_marker() == self.spec_marker(),
    {
        PointStyle { colour: Some(value.to_owned()), ..self }
    }

    pub fn get_colour(&self) -> (r: String)
        ensures
            r@ == if self.spec_colour() is Some {
                self.spec_colour()->0@
            } else {
                Seq::<char>::empty()
            },
    {
        match &self.colour {
            Some(c) => c.clone(),
            None => String::new(),
        }
    }
}

/// How a filled box (a histogram bar, a box plot) should be drawn.
#[derive(Debug)]
pub struct BoxStyle {
    fill: Option<String>,
}

impl BoxStyle {
    pub closed spec fn spec_fill(self) -> Option<String> {
        self.fill
    }

    pub fn new() -> (r: Self)
        ensures
            r.spec_fill() is None,
    {
        BoxStyle { fill: None }
    }

    /// Takes the other style's present fill over this one's.
    pub fn overlay(&mut self, other: &Self)
        ensures
            final(self).spec_fill() == if other.spec_fill() is Some {
                other.spec_fill()
            } else {
                old(self).spec_fill()
            },
    {
        if let Some(v) = &other.fill {
            self.fill = Some(v.clone());
        }
    }

    pub fn fill(self, value: &str) -> (r: Self)
        ensures
            r.spec_fill() is Some && r.spec_fill()->0@ == value@,
    {
        BoxStyle { fill: Some(value.to_owned()) }
    }

    pub fn get_fill(&self) -> (r: String)
        ensures
            r@ == if self.spec_fill() is Some {
                self.spec_fill()->0@
            } else {
                Seq::<char>::empty()
            },
    {
        match &self.fill {
            Some(c) => c.clone(),
            None => String::new(),
        }
    }
}

} // verus!
