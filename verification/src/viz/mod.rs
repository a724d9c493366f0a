//! Chart support: text measurement and layout, axis and unit helpers,
//! legend layout and series preparation.

use vstd::prelude::*;

pub mod legend;
pub mod series;
pub mod text;
pub mod util;

verus! {

/// Where to place the legend.
/// - `Inside`: overlay inside the plot (may overlap data)
/// - `Right`: separate right-side panel (no overlap)
/// - `Top`/`Bottom`: separate bands that wrap long labels
#[derive(Debug, Clone, Copy, PartialEq, Eq, Structural)]
pub enum LegendMode {
    Inside,
    Right,
    Top,
    Bottom,
}

/// Which chart to render.
#[derive(Debug, Clone, Copy, PartialEq, Eq, Structural)]
pub enum PlotKind {
    Line,
    Scatter,
    LinePoints,
    Area,
    StackedArea,
    GroupedBar,
    Loess,
}

/// Default legend placement: a band below the chart.
pub const DEFAULT_LEGEND_MODE: LegendMode = LegendMode::Bottom;

} // verus!
