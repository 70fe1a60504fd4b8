//! Inline layout core: text-run coalescing and greedy line breaking for an
//! inline flow of render boxes.
//!
//! The crate is organised leaf-first:
//! - [`ranges`]: index ranges over the box sequence and element-span repair;
//! - [`boxes`]: the render-box data model, whitespace compression, splitting;
//! - [`flow`]: the inline flow state and the layout context;
//! - [`text_scan`]: the text-run scanner (coalesces adjacent text boxes);
//! - [`line_scan`]: the line-box scanner (greedy packing with deferral);
//! - [`driver`]: the inline layout entry points.

pub mod ranges;
pub mod boxes;
pub mod flow;
pub mod text_scan;
pub mod line_scan;
pub mod driver;
