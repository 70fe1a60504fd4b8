//! The inline flow state operated on by the two scanners, and the layout
//! context that supplies the font service.

use vstd::prelude::*;
use crate::boxes::{RenderBox, wf_box, KindV};
use crate::ranges::{BoxRange, NodeRange};

verus! {

/// A font with fixed metrics: a per-character advance and a line height,
/// both in `Au`. This is the test font used until per-style font selection
/// exists.
#[derive(Clone, Copy)]
pub struct Font {
    pub advance: i32,
    pub line_height: i32,
}

pub open spec fn wf_font(f: Font) -> bool {
    &&& 0 <= f.advance
    &&& 0 <= f.line_height
}

/// The font service; it hands out the single test font.
pub struct FontCache {
    pub test_font: Font,
}

impl FontCache {
    pub fn get_test_font(&self) -> (f: Font)
        ensures
            f == self.test_font,
    {
        self.test_font
    }
}

/// Ambient state for one layout pass.
pub struct LayoutContext {
    pub font_cache: FontCache,
}

/// No box in the sequence is raw unscanned text.
pub open spec fn no_unscanned(s: Seq<RenderBox>) -> bool {
    forall|i: int| 0 <= i < s.len() ==> !(#[trigger] s[i]@.kind is UnscannedText)
}

/// Every box in the sequence is well-formed.
pub open spec fn all_boxes_wf(s: Seq<RenderBox>) -> bool {
    forall|i: int| 0 <= i < s.len() ==> wf_box(#[trigger] s[i]@)
}

/// Every element span lies within the first `n` boxes.
pub open spec fn elems_within(es: Seq<NodeRange>, n: int) -> bool {
    forall|i: int| 0 <= i < es.len() ==> (#[trigger] es[i].span).within(n)
}

/// An inline flow: the ordered box sequence, the computed line spans, the
/// element spans, and the flow's assigned geometry (all in `Au`).
pub struct InlineFlow {
    /// All inline render boxes; several boxes may correspond to one element.
    pub boxes: Vec<RenderBox>,
    /// Disjoint, covering ranges into `boxes`: the computed line positions.
    pub lines: Vec<BoxRange>,
    /// Well-nested ranges into `boxes`, one per non-leaf element.
    pub elems: Vec<NodeRange>,
    /// Container width assigned by the parent flow.
    pub width: i32,
    /// Total height, set by height assignment.
    pub height: i32,
    pub min_width: i32,
    pub pref_width: i32,
}

/// Basic well-formedness of a flow: box indices fit in `u16`, every box is
/// well-formed, and every element span is in bounds.
pub open spec fn wf_flow(f: InlineFlow) -> bool {
    &&& f.boxes@.len() <= u16::MAX
    &&& all_boxes_wf(f.boxes@)
    &&& elems_within(f.elems@, f.boxes@.len() as int)
}

impl InlineFlow {
    /// A fresh flow with the given container width and no boxes.
    pub fn new(width: i32) -> (f: InlineFlow)
        ensures
            f.boxes@.len() == 0,
            f.lines@.len() == 0,
            f.elems@.len() == 0,
            f.width == width,
            f.height == 0,
            f.min_width == 0,
            f.pref_width == 0,
    {
        InlineFlow {
            boxes: Vec::new(),
            lines: Vec::new(),
            elems: Vec::new(),
            width,
            height: 0,
            min_width: 0,
            pref_width: 0,
        }
    }
}

} // verus!
