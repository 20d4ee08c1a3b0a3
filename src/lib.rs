//! Generation of visually distinct multi-colour polygonal markers.
//!
//! Colours are chosen from a fixed candidate grid so that their perceptual
//! (Lab) distances are as large as possible, grouped into balanced
//! high-contrast sets, reordered for adjacent contrast, and rasterised as
//! polygons of coloured wedges.
//!
//! Lab values are carried as fixed-point integers (thousandths of a Lab
//! unit), so every distance, threshold and score in this crate is an exact
//! integer.

pub mod color;
pub mod random;
pub mod select;
pub mod partition;
pub mod render;
pub mod order;
pub mod pipeline;
