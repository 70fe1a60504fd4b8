//! The inline layout entry points: width bubble-up (which runs the text-run
//! scanner), per-box width initialization, vertical stacking as a stand-in
//! for true line-box height calculation, and display-list emission.

use vstd::prelude::*;
use crate::boxes::{
    copy_box, spec_intrinsic_width, views_of, wf_box, BoxKind, BoxV, KindV, RenderBox, AU_PER_PX,
    from_px,
};
use crate::flow::{
    all_boxes_wf, elems_within, no_unscanned, wf_flow, wf_font, InlineFlow, LayoutContext,
};
use crate::text_scan::{sum_text, TextRunScanner};

verus! {

/// The largest intrinsic width among the first `b` boxes (zero when none).
pub open spec fn max_intrinsic(s: Seq<RenderBox>, b: int) -> int
    decreases b,
{
    if b <= 0 {
        0
    } else {
        let m = max_intrinsic(s, b - 1);
        let w = spec_intrinsic_width(s[b - 1]@);
        if w > m {
            w
        } else {
            m
        }
    }
}

/// Runs the text-run scanner over the flow, then sets the flow's minimum
/// and preferred widths to the largest intrinsic width of the resulting
/// boxes.
pub fn bubble_widths_inline(flow: &mut InlineFlow, ctx: &LayoutContext)
    requires
        old(flow).boxes@.len() > 0,
        wf_flow(*old(flow)),
        wf_font(ctx.font_cache.test_font),
        sum_text(old(flow).boxes@, 0, old(flow).boxes@.len() as int) <= i32::MAX,
        ctx.font_cache.test_font.advance * sum_text(
            old(flow).boxes@,
            0,
            old(flow).boxes@.len() as int,
        ) <= i32::MAX,
    ensures
        no_unscanned(final(flow).boxes@),
        all_boxes_wf(final(flow).boxes@),
        1 <= final(flow).boxes@.len() <= old(flow).boxes@.len(),
        elems_within(final(flow).elems@, final(flow).boxes@.len() as int),
        final(flow).elems@.len() == old(flow).elems@.len(),
        final(flow).lines == old(flow).lines,
        final(flow).width == old(flow).width,
        final(flow).min_width == max_intrinsic(final(flow).boxes@, final(flow).boxes@.len() as int),
        final(flow).pref_width == final(flow).min_width,
        no_unscanned(old(flow).boxes@) ==> views_of(final(flow).boxes@) == views_of(
            old(flow).boxes@,
        ) && final(flow).elems@ == old(flow).elems@,
        views_of(final(flow).boxes@) == crate::text_scan::scanned_boxes(
            old(flow).boxes@,
            0,
            ctx.font_cache.test_font.advance as int,
            ctx.font_cache.test_font.line_height as int,
        ),
        forall|j: int|
            0 <= j < final(flow).elems@.len() ==> (#[trigger] final(flow).elems@[j]).span
                == crate::text_scan::scanned_span(
                old(flow).elems@[j].span,
                old(flow).boxes@,
                0,
                0,
            ),
    {
    let mut scanner = TextRunScanner::new();
    scanner.scan_for_runs(ctx, flow);
    let n = flow.boxes.len();
    let mut min_width: i32 = 0;
    let mut i: usize = 0;
    while i < n
        invariant
            i <= n,
            n == flow.boxes@.len(),
            all_boxes_wf(flow.boxes@),
            min_width == max_intrinsic(flow.boxes@, i as int),
        decreases n - i,
    {
        let w = flow.boxes[i].get_min_width();
        if w > min_width {
            min_width = w;
        }
        i = i + 1;
    }
    flow.min_width = min_width;
    flow.pref_width = min_width;
}

/// The width a box is initialized with: an image's intrinsic width in `Au`,
/// a shaped text box's width as set by shaping, a fixed placeholder for a
/// generic box.
pub open spec fn assigned_width(b: BoxV) -> int {
    match b.kind {
        KindV::Image { width_px, .. } => width_px * AU_PER_PX,
        KindV::Text { .. } => b.width,
        KindV::Generic => 45 * AU_PER_PX,
        KindV::UnscannedText { .. } => b.width,
    }
}

/// Initializes each box's width by its kind. The flow must already be
/// scanned: unscanned text has no width to assign.
pub fn assign_widths_inline(flow: &mut InlineFlow, _ctx: &LayoutContext)
    requires
        all_boxes_wf(old(flow).boxes@),
        no_unscanned(old(flow).boxes@),
    ensures
        final(flow).boxes@.len() == old(flow).boxes@.len(),
        forall|j: int|
            0 <= j < old(flow).boxes@.len() ==> #[trigger] final(flow).boxes@[j]@ == (BoxV {
                width: assigned_width(old(flow).boxes@[j]@),
                ..old(flow).boxes@[j]@
            }),
        all_boxes_wf(final(flow).boxes@),
        no_unscanned(final(flow).boxes@),
        final(flow).lines == old(flow).lines,
        final(flow).elems == old(flow).elems,
        final(flow).width == old(flow).width,
        final(flow).height == old(flow).height,
        final(flow).min_width == old(flow).min_width,
        final(flow).pref_width == old(flow).pref_width,
{
    let ghost sv = flow.boxes@;
    let n = flow.boxes.len();
    let mut i: usize = 0;
    while i < n
        invariant
            i <= n,
            n == flow.boxes@.len() == sv.len(),
            all_boxes_wf(sv),
            no_unscanned(sv),
            forall|m: int| i <= m < n ==> #[trigger] flow.boxes@[m] == sv[m],
            forall|m: int|
                0 <= m < i ==> #[trigger] flow.boxes@[m]@ == (BoxV {
                    width: assigned_width(sv[m]@),
                    ..sv[m]@
                }),
            forall|m: int| 0 <= m < i ==> wf_box(#[trigger] flow.boxes@[m]@),
            flow.lines == old(flow).lines,
            flow.elems == old(flow).elems,
            flow.width == old(flow).width,
            flow.height == old(flow).height,
            flow.min_width == old(flow).min_width,
            flow.pref_width == old(flow).pref_width,
        decreases n - i,
    {
        proof {
            assert(wf_box(sv[i as int]@));
            assert(!(sv[i as int]@.kind is UnscannedText));
        }
        let b = copy_box(&flow.boxes[i]);
        let w = match &b.kind {
            BoxKind::Image(wpx, _) => from_px(*wpx),
            BoxKind::Text(_) => b.width,
            BoxKind::Generic => from_px(45),
            BoxKind::UnscannedText(_) => vstd::pervasive::unreached(),
        };
        let nb = RenderBox { kind: b.kind, x: b.x, y: b.y, width: w, height: b.height, id: b.id };
        flow.boxes.set(i, nb);
        i = i + 1;
    }
    proof {
        assert forall|m: int|
            0 <= m < n implies wf_box(#[trigger] flow.boxes@[m]@) && !(
        flow.boxes@[m]@.kind is UnscannedText) by {
            assert(!(sv[m]@.kind is UnscannedText));
        }
    }
}

/// The height a box takes in the vertical stacking pass.
pub open spec fn assigned_height(b: BoxV) -> int {
    match b.kind {
        KindV::Image { height_px, .. } => height_px * AU_PER_PX,
        KindV::Text { .. } => b.height,
        KindV::Generic => 30 * AU_PER_PX,
        KindV::UnscannedText { .. } => b.height,
    }
}

/// The vertical advance a box contributes: at least the fallback line
/// height of twenty pixels.
pub open spec fn row_advance(b: BoxV) -> int {
    if assigned_height(b) > 20 * AU_PER_PX {
        assigned_height(b)
    } else {
        20 * AU_PER_PX
    }
}

/// Total vertical advance of the boxes `s[a..b]`.
pub open spec fn row_sum(s: Seq<RenderBox>, a: int, b: int) -> int
    decreases b - a,
{
    if a >= b {
        0
    } else {
        row_advance(s[a]@) + row_sum(s, a + 1, b)
    }
}

pub proof fn lemma_row_sum_nonneg(s: Seq<RenderBox>, a: int, b: int)
    requires
        forall|j: int| a <= j < b ==> 0 <= assigned_height(#[trigger] s[j]@),
    ensures
        0 <= row_sum(s, a, b),
    decreases b - a,
{
    if a < b {
        lemma_row_sum_nonneg(s, a + 1, b);
    }
}

pub proof fn lemma_row_sum_split(s: Seq<RenderBox>, a: int, b: int, c: int)
    requires
        a <= b <= c,
    ensures
        row_sum(s, a, c) == row_sum(s, a, b) + row_sum(s, b, c),
    decreases b - a,
{
    if a < b {
        lemma_row_sum_split(s, a + 1, b, c);
    }
}

/// Stacks the boxes vertically: each box's top is the running total of the
/// row advances before it, its height is set by kind, and the flow's total
/// height is the full stack. A placeholder until true line-box heights.
pub fn assign_height_inline(flow: &mut InlineFlow, _ctx: &LayoutContext)
    requires
        all_boxes_wf(old(flow).boxes@),
        no_unscanned(old(flow).boxes@),
        row_sum(old(flow).boxes@, 0, old(flow).boxes@.len() as int) <= i32::MAX,
    ensures
        final(flow).boxes@.len() == old(flow).boxes@.len(),
        forall|j: int|
            0 <= j < old(flow).boxes@.len() ==> #[trigger] final(flow).boxes@[j]@ == (BoxV {
                y: row_sum(old(flow).boxes@, 0, j),
                height: assigned_height(old(flow).boxes@[j]@),
                ..old(flow).boxes@[j]@
            }),
        final(flow).height == row_sum(old(flow).boxes@, 0, old(flow).boxes@.len() as int),
        final(flow).lines == old(flow).lines,
        final(flow).elems == old(flow).elems,
        final(flow).width == old(flow).width,
        final(flow).min_width == old(flow).min_width,
        final(flow).pref_width == old(flow).pref_width,
{
    let ghost sv = flow.boxes@;
    let n = flow.boxes.len();
    let mut cur_y: i32 = 0;
    let mut i: usize = 0;
    proof {
        assert forall|j: int| 0 <= j < n implies 0 <= assigned_height(#[trigger] sv[j]@) by {
            assert(wf_box(sv[j]@));
        }
    }
    while i < n
        invariant
            i <= n,
            n == flow.boxes@.len() == sv.len(),
            all_boxes_wf(sv),
            no_unscanned(sv),
            forall|j: int| 0 <= j < n ==> 0 <= assigned_height(#[trigger] sv[j]@),
            row_sum(sv, 0, n as int) <= i32::MAX,
            cur_y == row_sum(sv, 0, i as int),
            0 <= cur_y,
            forall|m: int| i <= m < n ==> #[trigger] flow.boxes@[m] == sv[m],
            forall|m: int|
                0 <= m < i ==> #[trigger] flow.boxes@[m]@ == (BoxV {
                    y: row_sum(sv, 0, m),
                    height: assigned_height(sv[m]@),
                    ..sv[m]@
                }),
            flow.lines == old(flow).lines,
            flow.elems == old(flow).elems,
            flow.width == old(flow).width,
            flow.height == old(flow).height,
            flow.min_width == old(flow).min_width,
            flow.pref_width == old(flow).pref_width,
        decreases n - i,
    {
        proof {
            assert(wf_box(sv[i as int]@));
            lemma_row_sum_split(sv, 0, i as int, i as int + 1);
            lemma_row_sum_split(sv, 0, i as int + 1, n as int);
            lemma_row_sum_nonneg(sv, i as int + 1, n as int);
            assert(row_sum(sv, i as int + 1, i as int + 1) == 0);
            assert(row_sum(sv, i as int, i as int + 1) == row_advance(sv[i as int]@));
        }
        let b = copy_box(&flow.boxes[i]);
        let box_height = match &b.kind {
            BoxKind::Image(_, hpx) => from_px(*hpx),
            BoxKind::Text(_) => b.height,
            BoxKind::Generic => from_px(30),
            BoxKind::UnscannedText(_) => vstd::pervasive::unreached(),
        };
        let line_height = from_px(20);
        let advance = if box_height > line_height {
            box_height
        } else {
            line_height
        };
        let nb = RenderBox {
            kind: b.kind,
            x: b.x,
            y: cur_y,
            width: b.width,
            height: box_height,
            id: b.id,
        };
        flow.boxes.set(i, nb);
        cur_y = cur_y + advance;
        i = i + 1;
    }
    flow.height = cur_y;
}

/// One rectangle of the display list: a box's absolute position and size.
#[derive(Clone, Copy, Debug, PartialEq, Eq, Structural)]
pub struct DisplayItem {
    pub x: i32,
    pub y: i32,
    pub width: i32,
    pub height: i32,
    pub id: u32,
}

/// The display item a box contributes at the given flow offset.
pub open spec fn item_of(b: BoxV, ox: int, oy: int) -> DisplayItem {
    DisplayItem {
        x: (b.x + ox) as i32,
        y: (b.y + oy) as i32,
        width: b.width as i32,
        height: b.height as i32,
        id: b.id as u32,
    }
}

/// Every box's origin translates by the offset without overflow.
pub open spec fn translatable(s: Seq<RenderBox>, ox: int, oy: int) -> bool {
    forall|j: int|
        0 <= j < s.len() ==> i32::MIN <= (#[trigger] s[j]@).x + ox <= i32::MAX && i32::MIN <= s[j]@.y
            + oy <= i32::MAX
}

/// Emits one display item per box, in box order, translated by the flow's
/// offset; no culling is performed.
pub fn build_display_list_inline(
    flow: &InlineFlow,
    offset_x: i32,
    offset_y: i32,
    list: &mut Vec<DisplayItem>,
)
    requires
        translatable(flow.boxes@, offset_x as int, offset_y as int),
    ensures
        final(list)@.len() == old(list)@.len() + flow.boxes@.len(),
        forall|j: int| 0 <= j < old(list)@.len() ==> #[trigger] final(list)@[j] == old(list)@[j],
        forall|j: int|
            0 <= j < flow.boxes@.len() ==> #[trigger] final(list)@[old(list)@.len() + j] == item_of(
                flow.boxes@[j]@,
                offset_x as int,
                offset_y as int,
            ),
{
    let n = flow.boxes.len();
    let mut i: usize = 0;
    while i < n
        invariant
            i <= n,
            n == flow.boxes@.len(),
            translatable(flow.boxes@, offset_x as int, offset_y as int),
            list@.len() == old(list)@.len() + i,
            forall|j: int| 0 <= j < old(list)@.len() ==> #[trigger] list@[j] == old(list)@[j],
            forall|j: int|
                0 <= j < i ==> #[trigger] list@[old(list)@.len() + j] == item_of(
                    flow.boxes@[j]@,
                    offset_x as int,
                    offset_y as int,
                ),
        decreases n - i,
    {
        proof {
            assert(i32::MIN <= flow.boxes@[i as int]@.x + offset_x <= i32::MAX);
        }
        let b = &flow.boxes[i];
        list.push(
            DisplayItem {
                x: b.x + offset_x,
                y: b.y + offset_y,
                width: b.width,
                height: b.height,
                id: b.id,
            },
        );
        i = i + 1;
    }
}

} // verus!
