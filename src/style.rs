use vstd::prelude::*;

use std::collections::HashMap;

use crate::color::ResolvedColor;
use crate::range::TraceHandle;

verus! {

broadcast use vstd::std_specs::hash::group_hash_axioms;

/// A shared default value, for fields that hand out a reference even when unset.
pub trait StaticDefault: Sized {
    spec fn spec_default() -> Self;

    fn default() -> (r: &'static Self)
        ensures
            *r == Self::spec_default(),
    ;
}

/// A style field that is either set to a value or explicitly unset.
#[derive(Clone, Copy, Debug, PartialEq, Eq)]
pub enum OrUnset<T> {
    Unset,
    Value(T),
}

impl<T> Default for OrUnset<T> {
    fn default() -> (r: OrUnset<T>)
        ensures
            r == OrUnset::<T>::Unset,
    {
        OrUnset::Unset
    }
}

impl<T> OrUnset<T> {
    /// The value if set, else `value`.
    pub fn unwrap_or(self, value: T) -> (r: T)
        ensures
            r == match self {
                OrUnset::Value(v) => v,
                OrUnset::Unset => value,
            },
    {
        match self {
            OrUnset::Value(v) => v,
            OrUnset::Unset => value,
        }
    }

    /// The value if set, else `T`'s default.
    pub fn unwrap_or_default(self) -> (r: T) where T: Default
        ensures
            match self {
                OrUnset::Value(v) => r == v,
                OrUnset::Unset => T::default.ensures((), r),
            },
    {
        match self {
            OrUnset::Value(v) => v,
            OrUnset::Unset => T::default(),
        }
    }

    /// A reference to the value if set, else to the shared default.
    pub fn ref_or_default(&self) -> (r: &T) where T: StaticDefault + 'static
        ensures
            *r == match *self {
                OrUnset::Value(v) => v,
                OrUnset::Unset => T::spec_default(),
            },
    {
        match self {
            OrUnset::Value(v) => v,
            OrUnset::Unset => T::default(),
        }
    }

    /// Same as `ref_or_default`.
    pub fn or_default(&self) -> (r: &T) where T: StaticDefault + 'static
        ensures
            *r == match *self {
                OrUnset::Value(v) => v,
                OrUnset::Unset => T::spec_default(),
            },
    {
        self.ref_or_default()
    }

    /// A clone of the value if set, else `value`.
    pub fn set_or(&self, value: T) -> (r: T) where T: Clone
        ensures
            match *self {
                OrUnset::Value(v) => cloned(v, r),
                OrUnset::Unset => r == value,
            },
    {
        match self {
            OrUnset::Value(v) => v.clone(),
            OrUnset::Unset => value,
        }
    }
}

/// Which backgrounds a random trace colour must stand out against.
#[derive(Clone, Copy, Debug, PartialEq, Eq, Hash, Structural)]
pub enum TraceRandomColorSpace {
    ContrastWithBoth,
    ContrastWithLight,
    ContrastWithDark,
}

/// How a trace's colour is chosen.
#[derive(Clone, Debug, PartialEq, Eq, Hash)]
pub enum TraceColor {
    Exact(ResolvedColor),
    Random(TraceRandomColorSpace),
    /// Taken from the named palette by the trace's palette index.
    PaletteAuto(String),
}

/// How a trace's line is drawn; dash lengths are IEEE-754 single-precision
/// bit patterns.
#[derive(Clone, Copy, Debug, PartialEq, Eq)]
pub enum TraceLineStyle {
    Hidden,
    Solid,
    Dashed([u32; 2]),
    DoubleDashed([u32; 4]),
}

impl TraceLineStyle {
    /// Whether the line is drawn without dashes.
    pub fn is_solid(&self) -> (r: bool)
        ensures
            r == (*self is Hidden || *self is Solid),
    {
        match self {
            TraceLineStyle::Hidden | TraceLineStyle::Solid => true,
            _ => false,
        }
    }
}

impl StaticDefault for TraceLineStyle {
    open spec fn spec_default() -> Self {
        TraceLineStyle::Solid
    }

    fn default() -> (r: &'static Self) {
        &TraceLineStyle::Solid
    }
}

/// Whether a trace's samples are marked.
#[derive(Clone, Copy, Debug, Default, PartialEq, Eq, Structural)]
pub enum TracePointsStyle {
    #[default]
    Hidden,
    Show,
}

impl StaticDefault for TracePointsStyle {
    open spec fn spec_default() -> Self {
        TracePointsStyle::Hidden
    }

    fn default() -> (r: &'static Self) {
        &TracePointsStyle::Hidden
    }
}

/// A trace's position in its palette: chosen automatically or given.
#[derive(Clone, Copy, Debug, PartialEq, Eq, Structural)]
pub enum TracePaletteIndex {
    Auto,
    Index(usize),
}

impl StaticDefault for TracePaletteIndex {
    open spec fn spec_default() -> Self {
        TracePaletteIndex::Auto
    }

    fn default() -> (r: &'static Self) {
        &TracePaletteIndex::Auto
    }
}

/// Whether the area under a trace is filled.
#[derive(Clone, Copy, Debug, Default, PartialEq, Eq, Structural)]
pub enum TraceFillStyle {
    #[default]
    NoFill,
    ToZeroY,
}

impl StaticDefault for TraceFillStyle {
    open spec fn spec_default() -> Self {
        TraceFillStyle::NoFill
    }

    fn default() -> (r: &'static Self) {
        &TraceFillStyle::NoFill
    }
}

/// Changes to a trace style: `None` leaves a field as it is. `z_index` and
/// `legend_priority` are IEEE-754 double-precision bit patterns.
#[derive(Clone, Debug, PartialEq)]
pub struct TraceStylePatch {
    pub color: Option<OrUnset<TraceColor>>,
    pub points: Option<OrUnset<TracePointsStyle>>,
    pub line: Option<OrUnset<TraceLineStyle>>,
    pub line_width: Option<OrUnset<u32>>,
    pub palette_index: Option<OrUnset<TracePaletteIndex>>,
    pub z_index: Option<OrUnset<u64>>,
    pub legend_priority: Option<OrUnset<u64>>,
    pub fill: Option<OrUnset<TraceFillStyle>>,
}

impl TraceStylePatch {
    /// A patch that changes nothing.
    pub fn empty() -> (r: TraceStylePatch)
        ensures
            r.spec_is_empty(),
    {
        TraceStylePatch {
            color: None,
            points: None,
            line: None,
            line_width: None,
            palette_index: None,
            z_index: None,
            legend_priority: None,
            fill: None,
        }
    }

    pub open spec fn spec_is_empty(&self) -> bool {
        &&& self.color.is_none()
        &&& self.points.is_none()
        &&& self.line.is_none()
        &&& self.line_width.is_none()
        &&& self.palette_index.is_none()
        &&& self.z_index.is_none()
        &&& self.legend_priority.is_none()
        &&& self.fill.is_none()
    }

    /// Whether the patch changes no field.
    pub fn is_empty(&self) -> (r: bool)
        ensures
            r == self.spec_is_empty(),
    {
        self.color.is_none() && self.points.is_none() && self.line.is_none()
            && self.line_width.is_none() && self.palette_index.is_none()
            && self.z_index.is_none() && self.legend_priority.is_none() && self.fill.is_none()
    }
}

/// A base patch for every trace, and a patch of its own for some traces.
pub struct TraceStyleSheetPatch {
    pub base: TraceStylePatch,
    pub traces: HashMap<TraceHandle, TraceStylePatch>,
}

/// Collects a style sheet patch trace by trace.
pub struct TraceStyleSheetPatchBuilder {
    style_sheet: TraceStyleSheetPatch,
}

impl TraceStyleSheetPatchBuilder {
    pub closed spec fn sheet_base(&self) -> TraceStylePatch {
        self.style_sheet.base
    }

    pub closed spec fn sheet_traces(&self) -> Map<TraceHandle, TraceStylePatch> {
        self.style_sheet.traces@
    }

    /// Starts with `base` and no trace of its own.
    pub fn base(base: TraceStylePatch) -> (r: TraceStyleSheetPatchBuilder)
        ensures
            r.sheet_base() == base,
            r.sheet_traces() == Map::<TraceHandle, TraceStylePatch>::empty(),
    {
        TraceStyleSheetPatchBuilder { style_sheet: TraceStyleSheetPatch { base, traces: HashMap::new() } }
    }

    /// Sets the patch of `trace_handle`, replacing one given before.
    pub fn add(&mut self, trace_handle: TraceHandle, style: TraceStylePatch)
        ensures
            final(self).sheet_base() == old(self).sheet_base(),
            final(self).sheet_traces() == old(self).sheet_traces().insert(trace_handle, style),
    {
        self.style_sheet.traces.insert(trace_handle, style);
    }

    /// The style sheet patch collected.
    pub fn collect(self) -> (r: TraceStyleSheetPatch)
        ensures
            r.base == self.sheet_base(),
            r.traces@ == self.sheet_traces(),
    {
        self.style_sheet
    }
}

} // verus!
