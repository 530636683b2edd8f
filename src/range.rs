use vstd::prelude::*;

verus! {

/// Identifier the host gives a trace when it declares it.
pub type TraceHandle = u32;

/// A closed interval `[from, to]` on the x axis.
#[derive(Clone, Copy, Debug, PartialEq, Eq, Structural)]
pub struct NumericRange {
    pub from: i64,
    pub to: i64,
}

impl NumericRange {
    pub fn new(from: i64, to: i64) -> (r: NumericRange)
        ensures
            r.from == from,
            r.to == to,
    {
        NumericRange { from, to }
    }

    /// Width of the interval, `to - from`.
    pub fn len(&self) -> (r: i128)
        ensures
            r == self.to - self.from,
    {
        self.to as i128 - self.from as i128
    }

    pub fn as_tuple(&self) -> (r: (i64, i64))
        ensures
            r == (self.from, self.to),
    {
        (self.from, self.to)
    }

    pub open spec fn spec_contains(&self, point: int) -> bool {
        self.from <= point <= self.to
    }

    pub fn contains(&self, point: i64) -> (r: bool)
        ensures
            r == self.spec_contains(point as int),
    {
        self.from <= point && point <= self.to
    }
}

/// Where a bundle holds data.
#[derive(Clone, Copy, Debug, PartialEq, Eq, Structural)]
pub enum BundleRange {
    /// The bundle has no data outside `[from, to]`.
    Bounded { from: i64, to: i64 },
    /// The bundle is defined for every x.
    Everywhere,
}

impl BundleRange {
    pub open spec fn spec_contains(&self, v: int) -> bool {
        match *self {
            BundleRange::Bounded { from, to } => from <= v <= to,
            BundleRange::Everywhere => true,
        }
    }

    pub fn contains(&self, v: i64) -> (r: bool)
        ensures
            r == self.spec_contains(v as int),
    {
        match *self {
            BundleRange::Bounded { from, to } => from <= v && v <= to,
            BundleRange::Everywhere => true,
        }
    }
}

/// How a point query treats an x that falls between two samples.
#[derive(Clone, Copy, Debug, PartialEq, Eq, Structural)]
pub enum InterpolationStrategy {
    /// Only an exact match gives a value (no interpolation).
    Exact,
    /// The closer of the two bracketing samples; a tie goes to the right one.
    Nearest,
    /// The straight line between the two bracketing samples, at the query x.
    Linear,
    /// The left bracketing sample.
    Previous,
    /// The right bracketing sample.
    Next,
}

} // verus!
