//! Constraint model, region engine and backtracking solver for a grid puzzle whose
//! cells are lit or unlit and may carry a constraint glyph.
//!
//! * [`symbol`], [`panel`]: the glyphs, the state of a cell, and the rule of each glyph.
//! * [`model`]: what a grid is, apart from its storage; every contract speaks of it.
//! * [`bits`], [`grid`]: the grid as stored, one bitmask per row.
//! * [`rotation`], [`region`], [`neighbourhood`]: flood-filled regions and their shapes.
//! * [`solver`], [`diagnostics`], [`highlight`]: the search, and what an editor shows.
//! * [`decimal`], [`panel_text`], [`grid_text`], [`neighbourhood_text`]: the text forms.

pub mod bits;
pub mod decimal;
pub mod diagnostics;
pub mod grid;
pub mod grid_text;
pub mod highlight;
pub mod model;
pub mod neighbourhood;
pub mod neighbourhood_text;
pub mod panel;
pub mod panel_text;
pub mod region;
pub mod rotation;
pub mod solver;
pub mod symbol;

pub use diagnostics::get_errors;
pub use grid::{Grid, GridIter, Gridlike};
pub use grid_text::GridParseError;
pub use neighbourhood::{Neighbourhood, NeighbourhoodGridIter};
pub use neighbourhood_text::{NeighbourhoodParseError, PanelLocParseError};
pub use panel::{Panel, PanelError, PanelLoc};
pub use panel_text::PanelParseError;
pub use rotation::Rotation;
pub use symbol::{Color, Symbol};
