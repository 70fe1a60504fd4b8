//! Index ranges over an inline flow's box sequence, and the repair of
//! element spans when a clump of boxes is coalesced into a single box.

use vstd::prelude::*;

verus! {

/// Half-open range of box indices: covers `[start, start + len)`.
/// Box indices always fit in `u16`.
#[derive(Clone, Copy, Debug, PartialEq, Eq, Structural)]
pub struct BoxRange {
    pub start: u16,
    pub len: u16,
}

impl BoxRange {
    /// One past the last index covered by the range.
    pub open spec fn end(self) -> int {
        self.start + self.len
    }

    /// The range lies within a box sequence of length `n`.
    pub open spec fn within(self, n: int) -> bool {
        self.start + self.len <= n
    }

    /// The range covers box index `i`.
    pub open spec fn covers(self, i: int) -> bool {
        self.start <= i < self.end()
    }

    /// The empty range at index zero.
    pub fn empty() -> (r: BoxRange)
        ensures
            r.start == 0,
            r.len == 0,
    {
        BoxRange { start: 0, len: 0 }
    }
}

/// Two ranges are well-nested when they are disjoint or one contains the other.
pub open spec fn nested(a: BoxRange, b: BoxRange) -> bool {
    ||| a.end() <= b.start
    ||| b.end() <= a.start
    ||| a.start <= b.start && b.end() <= a.end()
    ||| b.start <= a.start && a.end() <= b.end()
}

/// An element span together with the non-leaf DOM node that owns it.
/// Spans are kept as plain index ranges, never as pointers into the box
/// sequence, so repair is pure integer arithmetic.
#[derive(Clone, Copy, Debug, PartialEq, Eq, Structural)]
pub struct NodeRange {
    pub node: u32,
    pub span: BoxRange,
}

/// How an element span relates to a clump of boxes about to be coalesced.
/// The clump is itself given as a half-open `BoxRange`. Exactly one variant
/// applies to every pair; the overlap payloads count the boxes shared by the
/// span and the clump and are always at least one.
pub enum ClumpRangeRelation {
    /// The span ends at or before the clump's first box.
    EntirelyBefore,
    /// The span starts at or after the clump's end.
    EntirelyAfter,
    /// The span covers exactly the clump.
    Coincides,
    /// The span strictly contains the clump.
    ContainsClump,
    /// The span lies strictly inside the clump.
    ContainedByClump,
    /// The span starts before the clump and ends inside it.
    OverlapsClumpStart(u16),
    /// The span starts inside the clump and ends after it.
    OverlapsClumpEnd(u16),
}

/// Classification of an element span `r` against a clump `c`.
/// `Coincides` deliberately wins over `ContainsClump` and `ContainedByClump`,
/// and those win over the overlap cases; the order matters.
pub open spec fn spec_relation(r: BoxRange, c: BoxRange) -> ClumpRangeRelation {
    if r.end() <= c.start {
        ClumpRangeRelation::EntirelyBefore
    } else if c.end() <= r.start {
        ClumpRangeRelation::EntirelyAfter
    } else if r.start == c.start && r.end() == c.end() {
        ClumpRangeRelation::Coincides
    } else if r.start <= c.start && c.end() <= r.end() {
        ClumpRangeRelation::ContainsClump
    } else if c.start <= r.start && r.end() <= c.end() {
        ClumpRangeRelation::ContainedByClump
    } else if r.start < c.start {
        ClumpRangeRelation::OverlapsClumpStart((r.end() - c.start) as u16)
    } else {
        ClumpRangeRelation::OverlapsClumpEnd((c.end() - r.start) as u16)
    }
}

/// Classifies an element span against a clump of coalescible boxes.
pub fn relation_of_clump_and_range(r: BoxRange, c: BoxRange) -> (rel: ClumpRangeRelation)
    ensures
        rel == spec_relation(r, c),
{
    let r_end: u32 = r.start as u32 + r.len as u32;
    let c_end: u32 = c.start as u32 + c.len as u32;
    if r_end <= c.start as u32 {
        ClumpRangeRelation::EntirelyBefore
    } else if c_end <= r.start as u32 {
        ClumpRangeRelation::EntirelyAfter
    } else if r.start == c.start && r_end == c_end {
        ClumpRangeRelation::Coincides
    } else if r.start <= c.start && c_end <= r_end {
        ClumpRangeRelation::ContainsClump
    } else if c.start <= r.start && r_end <= c_end {
        ClumpRangeRelation::ContainedByClump
    } else if r.start < c.start {
        ClumpRangeRelation::OverlapsClumpStart((r_end - c.start as u32) as u16)
    } else {
        ClumpRangeRelation::OverlapsClumpEnd((c_end - r.start as u32) as u16)
    }
}

/// The repaired element span after the clump `c` (of `c.len >= 2` boxes) is
/// replaced by a single box standing at index `c.start`.
///
/// A span entirely after the clump shifts left by the net shrinkage
/// `c.len - 1`. A span coinciding with or contained in the clump becomes the
/// singleton span of the replacement box. A span strictly containing the
/// clump shrinks by the full clump size `c.len` — one more than the net box
/// loss, so such a span gives up the replacement box; this undercount is a
/// deliberate quirk of the scanner, pinned by a test. A span overlapping one
/// side keeps the replacement box and loses the `overlap - 1` other clump
/// boxes it covered.
pub open spec fn repair_range(r: BoxRange, c: BoxRange) -> BoxRange {
    match spec_relation(r, c) {
        ClumpRangeRelation::EntirelyBefore => r,
        ClumpRangeRelation::EntirelyAfter => BoxRange {
            start: (r.start - (c.len - 1)) as u16,
            len: r.len,
        },
        ClumpRangeRelation::Coincides => BoxRange { start: c.start, len: 1 },
        ClumpRangeRelation::ContainedByClump => BoxRange { start: c.start, len: 1 },
        ClumpRangeRelation::ContainsClump => BoxRange {
            start: r.start,
            len: (r.len - c.len) as u16,
        },
        ClumpRangeRelation::OverlapsClumpStart(ov) => BoxRange {
            start: r.start,
            len: (r.len - (ov - 1)) as u16,
        },
        ClumpRangeRelation::OverlapsClumpEnd(ov) => BoxRange {
            start: c.start,
            len: (r.len - (ov - 1)) as u16,
        },
    }
}

/// Applies [`repair_range`] to one element span.
pub fn repair_span(r: BoxRange, c: BoxRange) -> (out: BoxRange)
    requires
        c.len >= 2,
    ensures
        out == repair_range(r, c),
{
    let rel = relation_of_clump_and_range(r, c);
    match rel {
        ClumpRangeRelation::EntirelyBefore => r,
        ClumpRangeRelation::EntirelyAfter => BoxRange {
            start: r.start - (c.len - 1),
            len: r.len,
        },
        ClumpRangeRelation::Coincides => BoxRange { start: c.start, len: 1 },
        ClumpRangeRelation::ContainedByClump => BoxRange { start: c.start, len: 1 },
        ClumpRangeRelation::ContainsClump => BoxRange { start: r.start, len: r.len - c.len },
        ClumpRangeRelation::OverlapsClumpStart(ov) => BoxRange {
            start: r.start,
            len: r.len - (ov - 1),
        },
        ClumpRangeRelation::OverlapsClumpEnd(ov) => BoxRange {
            start: c.start,
            len: r.len - (ov - 1),
        },
    }
}

/// Repairing a span keeps it inside the shrunken box sequence: if the span
/// and the clump lay within `l` boxes, the repaired span lies within the
/// `l - (c.len - 1)` boxes left after the clump collapses to one box.
pub proof fn lemma_repair_within(r: BoxRange, c: BoxRange, l: int)
    requires
        c.len >= 2,
        c.end() <= l,
        r.within(l),
    ensures
        repair_range(r, c).within(l - (c.len - 1)),
{
}

/// The relations under which repair is known to preserve well-nestedness.
pub open spec fn relation_keeps_nesting(r: BoxRange, c: BoxRange) -> bool {
    match spec_relation(r, c) {
        ClumpRangeRelation::EntirelyBefore => true,
        ClumpRangeRelation::EntirelyAfter => true,
        ClumpRangeRelation::Coincides => true,
        ClumpRangeRelation::ContainedByClump => true,
        _ => false,
    }
}

/// Repair preserves pairwise well-nestedness of element spans, for spans
/// that do not partially overlap the clump and do not strictly contain it.
/// (A span strictly containing the clump shrinks by one box too many, which
/// can break nesting against a span that shares its right edge; a span
/// partially overlapping the clump gains the replacement box, which can
/// overlap a disjoint neighbour that also gains it.)
pub proof fn lemma_repair_preserves_nesting(a: BoxRange, b: BoxRange, c: BoxRange)
    requires
        c.len >= 2,
        nested(a, b),
        relation_keeps_nesting(a, c),
        relation_keeps_nesting(b, c),
    ensures
        nested(repair_range(a, c), repair_range(b, c)),
{
}

} // verus!
