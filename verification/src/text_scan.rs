//! The text-run scanner: a single forward pass that coalesces maximal runs
//! ("clumps") of adjacent unscanned text boxes into single shaped text boxes,
//! and repairs the element spans to account for the elided boxes.
//!
//! Element spans are repaired clump by clump, with the clump expressed in the
//! coordinates of the partially built output sequence, so that spans already
//! shifted by earlier flushes are classified consistently.

use vstd::prelude::*;
use crate::boxes::{
    adapt_text_box, compress_text, copy_box, lemma_compress_len, lemma_views_index,
    lemma_views_len, spec_can_merge, spec_text_box, transform_text, views_of, wf_box, BoxV, KindV,
    RenderBox,
};
use crate::flow::{
    all_boxes_wf, elems_within, no_unscanned, wf_flow, wf_font, InlineFlow, LayoutContext,
};
use crate::ranges::{lemma_repair_within, repair_range, repair_span, BoxRange, NodeRange};

verus! {

/// The raw characters of an unscanned text box; empty for any other kind.
pub open spec fn raw_text_of(b: BoxV) -> Seq<char> {
    match b.kind {
        KindV::UnscannedText { text } => text,
        _ => Seq::empty(),
    }
}

/// Total raw text length over the boxes `s[a..b]`.
pub open spec fn sum_text(s: Seq<RenderBox>, a: int, b: int) -> int
    decreases b - a,
{
    if a >= b {
        0
    } else {
        raw_text_of(s[a]@).len() + sum_text(s, a + 1, b)
    }
}

pub proof fn lemma_sum_text_nonneg(s: Seq<RenderBox>, a: int, b: int)
    ensures
        0 <= sum_text(s, a, b),
    decreases b - a,
{
    if a < b {
        lemma_sum_text_nonneg(s, a + 1, b);
    }
}

pub proof fn lemma_sum_text_split(s: Seq<RenderBox>, a: int, b: int, c: int)
    requires
        a <= b <= c,
    ensures
        sum_text(s, a, c) == sum_text(s, a, b) + sum_text(s, b, c),
    decreases b - a,
{
    if a < b {
        lemma_sum_text_split(s, a + 1, b, c);
    }
}

/// The text of the run synthesized for the clump `s[cs..ce]`: each box's raw
/// text compressed independently, concatenated in order.
pub open spec fn clump_text(s: Seq<RenderBox>, cs: int, ce: int) -> Seq<char>
    decreases ce - cs,
{
    if cs >= ce {
        Seq::empty()
    } else {
        compress_text(raw_text_of(s[cs]@)) + clump_text(s, cs + 1, ce)
    }
}

pub proof fn lemma_clump_text_snoc(s: Seq<RenderBox>, cs: int, b: int)
    requires
        cs <= b,
    ensures
        clump_text(s, cs, b + 1) =~= clump_text(s, cs, b) + compress_text(raw_text_of(s[b]@)),
    decreases b - cs,
{
    let x = compress_text(raw_text_of(s[cs]@));
    let y = compress_text(raw_text_of(s[b]@));
    if cs == b {
        assert(clump_text(s, cs + 1, b + 1) == Seq::<char>::empty());
        assert(clump_text(s, cs, b) == Seq::<char>::empty());
        assert(clump_text(s, cs, b + 1) == x + clump_text(s, cs + 1, b + 1));
        assert(clump_text(s, cs, b + 1) =~= clump_text(s, cs, b) + y);
    } else {
        lemma_clump_text_snoc(s, cs + 1, b);
        assert(clump_text(s, cs, b + 1) == x + clump_text(s, cs + 1, b + 1));
        assert(x + (clump_text(s, cs + 1, b) + y) =~= (x + clump_text(s, cs + 1, b)) + y);
    }
}

/// The synthesized run is no longer than the raw text it came from.
pub proof fn lemma_clump_text_len(s: Seq<RenderBox>, cs: int, ce: int)
    requires
        ce <= s.len(),
    ensures
        clump_text(s, cs, ce).len() <= sum_text(s, cs, ce),
    decreases ce - cs,
{
    if cs < ce {
        lemma_compress_len(raw_text_of(s[cs]@), 0, false);
        lemma_clump_text_len(s, cs + 1, ce);
    }
}

/// Each adjacent pair inside `s[a..b]` may coalesce.
pub open spec fn chained(s: Seq<RenderBox>, a: int, b: int) -> bool {
    forall|j: int| a <= j < b - 1 ==> spec_can_merge(#[trigger] s[j]@, s[j + 1]@)
}

/// The single box a flushed clump leaves behind: a text clump becomes one
/// shaped text box covering the whole synthesized run; a singleton non-text
/// clump is the box itself, unchanged.
pub open spec fn flushed_box(s: Seq<RenderBox>, cs: int, ce: int, advance: int, line_h: int) -> BoxV {
    if s[cs]@.kind is UnscannedText {
        spec_text_box(s[cs]@, advance, line_h, clump_text(s, cs, ce))
    } else {
        s[cs]@
    }
}

/// The end of the maximal clump starting at `j`: the clump extends for as
/// long as each adjacent pair may coalesce.
pub open spec fn clump_end(s: Seq<RenderBox>, j: int) -> int
    decreases s.len() - j,
{
    if j + 1 >= s.len() {
        s.len() as int
    } else if spec_can_merge(s[j]@, s[j + 1]@) {
        clump_end(s, j + 1)
    } else {
        j + 1
    }
}

pub proof fn lemma_clump_end_range(s: Seq<RenderBox>, j: int)
    requires
        0 <= j < s.len(),
    ensures
        j < clump_end(s, j) <= s.len(),
    decreases s.len() - j,
{
    if j + 1 < s.len() && spec_can_merge(s[j]@, s[j + 1]@) {
        lemma_clump_end_range(s, j + 1);
    }
}

/// A coalescible chain up to a boundary (or the end) is exactly the maximal
/// clump.
pub proof fn lemma_clump_end_of_chain(s: Seq<RenderBox>, cs: int, i: int)
    requires
        0 <= cs < i <= s.len(),
        chained(s, cs, i),
        i == s.len() || !spec_can_merge(s[i - 1]@, s[i]@),
    ensures
        clump_end(s, cs) == i,
    decreases i - cs,
{
    if cs + 1 >= s.len() {
    } else if spec_can_merge(s[cs]@, s[cs + 1]@) {
        assert(i != cs + 1);
        lemma_clump_end_of_chain(s, cs + 1, i);
    } else {
        if i > cs + 1 {
            assert(spec_can_merge(s[cs]@, s[cs + 1]@));
        }
    }
}

/// What the whole scan emits from `s[cs..]`: the replacement boxes of the
/// maximal clumps, in input order.
pub open spec fn scanned_boxes(s: Seq<RenderBox>, cs: int, advance: int, line_h: int) -> Seq<BoxV>
    decreases s.len() - cs,
        via scanned_boxes_decreases
{
    if cs < 0 || cs >= s.len() {
        Seq::empty()
    } else {
        seq![flushed_box(s, cs, clump_end(s, cs), advance, line_h)] + scanned_boxes(
            s,
            clump_end(s, cs),
            advance,
            line_h,
        )
    }
}

#[via_fn]
proof fn scanned_boxes_decreases(s: Seq<RenderBox>, cs: int, advance: int, line_h: int) {
    if 0 <= cs < s.len() {
        lemma_clump_end_range(s, cs);
    }
}

/// What the whole scan makes of one element span: [`repair_range`] folded
/// over the multi-box text clumps of `s[cs..]`, each clump standing at the
/// output index `q` it will occupy.
pub open spec fn scanned_span(r: BoxRange, s: Seq<RenderBox>, cs: int, q: int) -> BoxRange
    decreases s.len() - cs,
        via scanned_span_decreases
{
    if cs < 0 || cs >= s.len() {
        r
    } else {
        let e = clump_end(s, cs);
        let r2 = if e - cs >= 2 && s[cs]@.kind is UnscannedText {
            repair_range(r, BoxRange { start: q as u16, len: (e - cs) as u16 })
        } else {
            r
        };
        scanned_span(r2, s, e, q + 1)
    }
}

#[via_fn]
proof fn scanned_span_decreases(r: BoxRange, s: Seq<RenderBox>, cs: int, q: int) {
    if 0 <= cs < s.len() {
        lemma_clump_end_range(s, cs);
    }
}

/// Scans an inline flow's box sequence into text-run boxes. Reusable across
/// flows, but must be reset (not inside a clump) before each run.
pub struct TextRunScanner {
    pub in_clump: bool,
    pub clump_start: usize,
    pub clump_end: usize,
}

impl TextRunScanner {
    pub fn new() -> (s: TextRunScanner)
        ensures
            !s.in_clump,
    {
        TextRunScanner { in_clump: false, clump_start: 0, clump_end: 0 }
    }

    /// Begins a new clump holding exactly the box at `i`.
    pub fn reset_clump_to_index(&mut self, i: usize)
        requires
            i < usize::MAX,
        ensures
            final(self).in_clump,
            final(self).clump_start == i,
            final(self).clump_end == i + 1,
    {
        self.clump_start = i;
        self.clump_end = i + 1;
        self.in_clump = true;
    }

    /// Flushes the current clump `in_boxes[clump_start..clump_end]` to the
    /// output: appends the clump's replacement box and, for a multi-box text
    /// clump, repairs every element span against the clump placed at the
    /// output position it will occupy.
    pub fn flush_clump_to_list(
        &mut self,
        ctx: &LayoutContext,
        in_boxes: &Vec<RenderBox>,
        out_boxes: &mut Vec<RenderBox>,
        elems: &mut Vec<NodeRange>,
    )
        requires
            old(self).in_clump,
            old(self).clump_start < old(self).clump_end <= in_boxes@.len(),
            chained(in_boxes@, old(self).clump_start as int, old(self).clump_end as int),
            all_boxes_wf(in_boxes@),
            wf_font(ctx.font_cache.test_font),
            sum_text(in_boxes@, old(self).clump_start as int, old(self).clump_end as int)
                <= i32::MAX,
            ctx.font_cache.test_font.advance * sum_text(
                in_boxes@,
                old(self).clump_start as int,
                old(self).clump_end as int,
            ) <= i32::MAX,
            old(out_boxes)@.len() + (in_boxes@.len() - old(self).clump_start) <= u16::MAX,
            elems_within(
                old(elems)@,
                old(out_boxes)@.len() + (in_boxes@.len() - old(self).clump_start),
            ),
        ensures
            !final(self).in_clump,
            final(out_boxes)@.len() == old(out_boxes)@.len() + 1,
            no_unscanned(old(out_boxes)@) ==> no_unscanned(final(out_boxes)@),
            all_boxes_wf(old(out_boxes)@) ==> all_boxes_wf(final(out_boxes)@),
            views_of(final(out_boxes)@) == views_of(old(out_boxes)@).push(
                flushed_box(
                    in_boxes@,
                    old(self).clump_start as int,
                    old(self).clump_end as int,
                    ctx.font_cache.test_font.advance as int,
                    ctx.font_cache.test_font.line_height as int,
                ),
            ),
            wf_box(
                flushed_box(
                    in_boxes@,
                    old(self).clump_start as int,
                    old(self).clump_end as int,
                    ctx.font_cache.test_font.advance as int,
                    ctx.font_cache.test_font.line_height as int,
                ),
            ),
            !(flushed_box(
                in_boxes@,
                old(self).clump_start as int,
                old(self).clump_end as int,
                ctx.font_cache.test_font.advance as int,
                ctx.font_cache.test_font.line_height as int,
            ).kind is UnscannedText),
            final(elems)@.len() == old(elems)@.len(),
            forall|j: int|
                0 <= j < final(elems)@.len() ==> (#[trigger] final(elems)@[j]).node == old(
                    elems,
                )@[j].node,
            if old(self).clump_end - old(self).clump_start >= 2 {
                &&& forall|j: int|
                    0 <= j < final(elems)@.len() ==> (#[trigger] final(elems)@[j]).span
                        == repair_range(
                        old(elems)@[j].span,
                        BoxRange {
                            start: old(out_boxes)@.len() as u16,
                            len: (old(self).clump_end - old(self).clump_start) as u16,
                        },
                    )
                &&& elems_within(
                    final(elems)@,
                    old(out_boxes)@.len() + (in_boxes@.len() - old(self).clump_start) - (old(
                        self,
                    ).clump_end - old(self).clump_start - 1),
                )
            } else {
                final(elems)@ == old(elems)@
            },
    {
        let cs = self.clump_start;
        let ce = self.clump_end;
        let ghost sv = in_boxes@;
        let ghost l = out_boxes@.len() + (in_boxes@.len() - cs);
        let is_text = in_boxes[cs].is_unscanned();
        if !is_text {
            // A clump of more than one box is coalescible, hence text-only;
            // a non-text clump is necessarily a singleton.
            proof {
                if ce - cs >= 2 {
                    assert(spec_can_merge(sv[cs as int]@, sv[cs as int + 1]@));
                    assert(false);
                }
            }
            let b = copy_box(&in_boxes[cs]);
            let ghost bv = b@;
            out_boxes.push(b);
            proof {
                assert(wf_box(sv[cs as int]@));
                assert(views_of(out_boxes@) =~= views_of(old(out_boxes)@).push(
                    flushed_box(
                        sv,
                        cs as int,
                        ce as int,
                        ctx.font_cache.test_font.advance as int,
                        ctx.font_cache.test_font.line_height as int,
                    ),
                ));
                assert forall|j: int|
                    0 <= j < out_boxes@.len() implies #[trigger] out_boxes@[j]@ == (if j < old(
                        out_boxes,
                    )@.len() {
                        old(out_boxes)@[j]@
                    } else {
                        bv
                    }) by {
                    if j < old(out_boxes)@.len() {
                        assert(out_boxes@[j] == old(out_boxes)@[j]);
                    }
                }
            }
        } else {
            // Every box of a text clump is unscanned text: the first by the
            // match above, the rest because each pair is coalescible.
            proof {
                assert forall|j: int| cs <= j < ce implies (#[trigger] sv[j]@)
                    .kind is UnscannedText by {
                    if j < ce - 1 {
                        assert(spec_can_merge(sv[j]@, sv[j + 1]@));
                    } else if j > cs {
                        assert(spec_can_merge(sv[j - 1]@, sv[j]@));
                    }
                }
            }
            // Transform each box's text independently and concatenate.
            let mut text: Vec<char> = Vec::new();
            let mut j: usize = cs;
            proof {
                lemma_sum_text_nonneg(sv, cs as int, ce as int);
            }
            while j < ce
                invariant
                    cs <= j <= ce <= sv.len(),
                    sv == in_boxes@,
                    forall|m: int| cs <= m < ce ==> (#[trigger] sv[m]@).kind is UnscannedText,
                    text@ == clump_text(sv, cs as int, j as int),
                    text@.len() <= sum_text(sv, cs as int, j as int),
                    sum_text(sv, cs as int, ce as int) <= i32::MAX,
                decreases ce - j,
            {
                let mut piece = transform_text(in_boxes[j].raw_text());
                proof {
                    lemma_clump_text_snoc(sv, cs as int, j as int);
                    lemma_sum_text_split(sv, cs as int, j as int, j as int + 1);
                    lemma_sum_text_split(sv, cs as int, j as int + 1, ce as int);
                    lemma_sum_text_nonneg(sv, j as int + 1, ce as int);
                    assert(sum_text(sv, j as int + 1, j as int + 1) == 0);
                    assert(sum_text(sv, j as int, j as int + 1) == raw_text_of(sv[j as int]@).len());
                    assert(piece@.len() <= raw_text_of(sv[j as int]@).len());
                }
                text.append(&mut piece);
                j = j + 1;
            }
            // Shape the concatenation as a single run and emit one text box.
            let f = ctx.font_cache.get_test_font();
            proof {
                assert(text@.len() <= i32::MAX);
                assert(f.advance * text@.len() <= f.advance * sum_text(sv, cs as int, ce as int))
                    by (nonlinear_arith)
                    requires 0 <= f.advance && text@.len() <= sum_text(sv, cs as int, ce as int);
            }
            let new_box = adapt_text_box(&in_boxes[cs], f.advance, f.line_height, text);
            // Repair element spans for a multi-box clump: the clump stands at
            // the output index it is about to occupy.
            if ce - cs >= 2 {
                let c = BoxRange { start: out_boxes.len() as u16, len: (ce - cs) as u16 };
                let mut ei: usize = 0;
                while ei < elems.len()
                    invariant
                        ei <= elems@.len(),
                        elems@.len() == old(elems)@.len(),
                        c.start == out_boxes@.len() as u16,
                        c.len == ce - cs,
                        2 <= c.len,
                        c.end() <= l,
                        l == out_boxes@.len() + (in_boxes@.len() - cs),
                        cs < ce <= in_boxes@.len(),
                        elems_within(old(elems)@, l),
                        forall|m: int|
                            0 <= m < ei ==> (#[trigger] elems@[m]).node == old(elems)@[m].node
                                && elems@[m].span == repair_range(old(elems)@[m].span, c)
                                && elems@[m].span.within(l - (c.len - 1)),
                        forall|m: int| ei <= m < elems@.len() ==> elems@[m] == old(elems)@[m],
                    decreases elems@.len() - ei,
                {
                    let node = elems[ei].node;
                    let sp = elems[ei].span;
                    let nsp = repair_span(sp, c);
                    proof {
                        lemma_repair_within(sp, c, l);
                    }
                    elems.set(ei, NodeRange { node, span: nsp });
                    ei = ei + 1;
                }
            }
            let ghost bv = new_box@;
            out_boxes.push(new_box);
            proof {
                assert(views_of(out_boxes@) =~= views_of(old(out_boxes)@).push(
                    flushed_box(
                        sv,
                        cs as int,
                        ce as int,
                        ctx.font_cache.test_font.advance as int,
                        ctx.font_cache.test_font.line_height as int,
                    ),
                ));
                assert forall|j: int|
                    0 <= j < out_boxes@.len() implies #[trigger] out_boxes@[j]@ == (if j < old(
                        out_boxes,
                    )@.len() {
                        old(out_boxes)@[j]@
                    } else {
                        bv
                    }) by {
                    if j < old(out_boxes)@.len() {
                        assert(out_boxes@[j] == old(out_boxes)@[j]);
                    }
                }
            }
        }
        self.in_clump = false;
    }

    /// One forward pass over the flow's boxes: identifies maximal clumps,
    /// flushes each, and swaps the compacted sequence into the flow.
    ///
    /// The outcome is pinned exactly: the flow's boxes become the
    /// [`scanned_boxes`] of the input — one replacement box per maximal
    /// clump, in input order — and each element span becomes its
    /// [`scanned_span`], the repair relation folded over the multi-box text
    /// clumps. Afterwards no box is unscanned text, so no two adjacent boxes
    /// are coalescible; element spans stay in bounds and keep their nodes;
    /// and a flow that was already scanned is left exactly as it was
    /// (running the scanner twice is a no-op).
    pub fn scan_for_runs(&mut self, ctx: &LayoutContext, flow: &mut InlineFlow)
        requires
            !old(self).in_clump,
            old(flow).boxes@.len() > 0,
            wf_flow(*old(flow)),
            wf_font(ctx.font_cache.test_font),
            sum_text(old(flow).boxes@, 0, old(flow).boxes@.len() as int) <= i32::MAX,
            ctx.font_cache.test_font.advance * sum_text(
                old(flow).boxes@,
                0,
                old(flow).boxes@.len() as int,
            ) <= i32::MAX,
        ensures
            !final(self).in_clump,
            no_unscanned(final(flow).boxes@),
            forall|j: int|
                1 <= j < final(flow).boxes@.len() ==> !spec_can_merge(
                    final(flow).boxes@[j - 1]@,
                    #[trigger] final(flow).boxes@[j]@,
                ),
            1 <= final(flow).boxes@.len() <= old(flow).boxes@.len(),
            all_boxes_wf(final(flow).boxes@),
            elems_within(final(flow).elems@, final(flow).boxes@.len() as int),
            final(flow).elems@.len() == old(flow).elems@.len(),
            forall|j: int|
                0 <= j < final(flow).elems@.len() ==> (#[trigger] final(flow).elems@[j]).node
                    == old(flow).elems@[j].node,
            final(flow).lines == old(flow).lines,
            final(flow).width == old(flow).width,
            final(flow).height == old(flow).height,
            final(flow).min_width == old(flow).min_width,
            final(flow).pref_width == old(flow).pref_width,
            no_unscanned(old(flow).boxes@) ==> views_of(final(flow).boxes@) == views_of(
                old(flow).boxes@,
            ) && final(flow).elems@ == old(flow).elems@,
            views_of(final(flow).boxes@) == scanned_boxes(
                old(flow).boxes@,
                0,
                ctx.font_cache.test_font.advance as int,
                ctx.font_cache.test_font.line_height as int,
            ),
            forall|j: int|
                0 <= j < final(flow).elems@.len() ==> (#[trigger] final(flow).elems@[j]).span
                    == scanned_span(old(flow).elems@[j].span, old(flow).boxes@, 0, 0),
    {
        let n = flow.boxes.len();
        let mut in_boxes: Vec<RenderBox> = Vec::new();
        core::mem::swap(&mut in_boxes, &mut flow.boxes);
        let ghost sv = in_boxes@;
        let ghost adv = ctx.font_cache.test_font.advance as int;
        let ghost lh = ctx.font_cache.test_font.line_height as int;
        let mut out_boxes: Vec<RenderBox> = Vec::new();
        self.reset_clump_to_index(0);
        proof {
            assert(views_of(out_boxes@) =~= Seq::<BoxV>::empty());
            assert(Seq::<BoxV>::empty() + scanned_boxes(sv, 0, adv, lh) =~= scanned_boxes(
                sv,
                0,
                adv,
                lh,
            ));
        }
        let mut i: usize = 1;
        while i < n
            invariant
                1 <= i <= n,
                n == sv.len(),
                in_boxes@ == sv,
                sv == old(flow).boxes@,
                self.in_clump,
                self.clump_start < self.clump_end == i,
                chained(sv, self.clump_start as int, i as int),
                all_boxes_wf(sv),
                wf_font(ctx.font_cache.test_font),
                sum_text(sv, self.clump_start as int, n as int) <= i32::MAX,
                ctx.font_cache.test_font.advance * sum_text(
                    sv,
                    self.clump_start as int,
                    n as int,
                ) <= i32::MAX,
                no_unscanned(out_boxes@),
                all_boxes_wf(out_boxes@),
                out_boxes@.len() <= self.clump_start,
                out_boxes@.len() + (n - self.clump_start) <= u16::MAX,
                elems_within(flow.elems@, out_boxes@.len() + (n - self.clump_start)),
                flow.elems@.len() == old(flow).elems@.len(),
                forall|j: int|
                    0 <= j < flow.elems@.len() ==> (#[trigger] flow.elems@[j]).node == old(
                        flow,
                    ).elems@[j].node,
                flow.lines == old(flow).lines,
                flow.width == old(flow).width,
                flow.height == old(flow).height,
                flow.min_width == old(flow).min_width,
                flow.pref_width == old(flow).pref_width,
                no_unscanned(sv) ==> views_of(out_boxes@) == views_of(sv).subrange(
                    0,
                    self.clump_start as int,
                ) && flow.elems@ == old(flow).elems@ && self.clump_start == i - 1,
                adv == ctx.font_cache.test_font.advance as int,
                lh == ctx.font_cache.test_font.line_height as int,
                views_of(out_boxes@) + scanned_boxes(sv, self.clump_start as int, adv, lh)
                    == scanned_boxes(sv, 0, adv, lh),
                forall|j: int|
                    0 <= j < flow.elems@.len() ==> scanned_span(
                        old(flow).elems@[j].span,
                        sv,
                        0,
                        0,
                    ) == scanned_span(
                        (#[trigger] flow.elems@[j]).span,
                        sv,
                        self.clump_start as int,
                        out_boxes@.len() as int,
                    ),
            decreases n - i,
        {
            let can_coalesce = in_boxes[i - 1].can_merge_with_box(&in_boxes[i]);
            if can_coalesce {
                self.clump_end = i + 1;
            } else {
                proof {
                    lemma_sum_text_split(sv, self.clump_start as int, i as int, n as int);
                    lemma_sum_text_nonneg(sv, self.clump_start as int, i as int);
                    lemma_sum_text_nonneg(sv, i as int, n as int);
                    let adv = ctx.font_cache.test_font.advance as int;
                    assert(adv * sum_text(sv, self.clump_start as int, i as int) <= adv * sum_text(
                        sv,
                        self.clump_start as int,
                        n as int,
                    )) by (nonlinear_arith)
                        requires
                            0 <= adv,
                            sum_text(sv, self.clump_start as int, i as int) <= sum_text(
                                sv,
                                self.clump_start as int,
                                n as int,
                            );
                    assert(adv * sum_text(sv, i as int, n as int) <= adv * sum_text(
                        sv,
                        self.clump_start as int,
                        n as int,
                    )) by (nonlinear_arith)
                        requires
                            0 <= adv,
                            sum_text(sv, i as int, n as int) <= sum_text(
                                sv,
                                self.clump_start as int,
                                n as int,
                            );
                }
                let ghost pre_cs = self.clump_start as int;
                let ghost pre_views = views_of(out_boxes@);
                let ghost pre_q = out_boxes@.len() as int;
                let ghost pre_elems = flow.elems@;
                self.flush_clump_to_list(ctx, &in_boxes, &mut out_boxes, &mut flow.elems);
                proof {
                    if no_unscanned(sv) {
                        lemma_views_index(sv, pre_cs);
                        assert(!(sv[pre_cs]@.kind is UnscannedText));
                        assert forall|j: int|
                            0 <= j < views_of(out_boxes@).len() implies #[trigger] views_of(
                            out_boxes@,
                        )[j] == views_of(sv).subrange(0, i as int)[j] by {
                            lemma_views_index(sv, j);
                        }
                        assert(views_of(out_boxes@) =~= views_of(sv).subrange(0, i as int));
                    }
                    lemma_clump_end_of_chain(sv, pre_cs, i as int);
                    let fb = flushed_box(sv, pre_cs, i as int, adv, lh);
                    assert(scanned_boxes(sv, pre_cs, adv, lh) == seq![fb] + scanned_boxes(
                        sv,
                        i as int,
                        adv,
                        lh,
                    ));
                    assert(views_of(out_boxes@) =~= pre_views + seq![fb]);
                    assert((pre_views + seq![fb]) + scanned_boxes(sv, i as int, adv, lh)
                        =~= pre_views + (seq![fb] + scanned_boxes(sv, i as int, adv, lh)));
                    if i as int - pre_cs >= 2 {
                        assert(spec_can_merge(sv[pre_cs]@, sv[pre_cs + 1]@));
                    }
                    assert forall|j: int|
                        0 <= j < flow.elems@.len() implies scanned_span(
                        old(flow).elems@[j].span,
                        sv,
                        0,
                        0,
                    ) == scanned_span(
                        (#[trigger] flow.elems@[j]).span,
                        sv,
                        i as int,
                        out_boxes@.len() as int,
                    ) by {
                        assert(scanned_span(pre_elems[j].span, sv, pre_cs, pre_q) == scanned_span(
                            flow.elems@[j].span,
                            sv,
                            i as int,
                            pre_q + 1,
                        ));
                    }
                }
                self.reset_clump_to_index(i);
            }
            i = i + 1;
        }
        proof {
            lemma_sum_text_split(sv, self.clump_start as int, n as int, n as int);
        }
        let ghost pre_cs = self.clump_start as int;
        let ghost pre_views = views_of(out_boxes@);
        let ghost pre_q = out_boxes@.len() as int;
        let ghost pre_elems = flow.elems@;
        self.flush_clump_to_list(ctx, &in_boxes, &mut out_boxes, &mut flow.elems);
        proof {
            if no_unscanned(sv) {
                lemma_views_index(sv, pre_cs);
                assert(!(sv[pre_cs]@.kind is UnscannedText));
                assert forall|j: int|
                    0 <= j < views_of(out_boxes@).len() implies #[trigger] views_of(out_boxes@)[j]
                    == views_of(sv)[j] by {
                    lemma_views_index(sv, j);
                }
                lemma_views_len(sv);
                assert(views_of(out_boxes@) =~= views_of(sv));
            }
            lemma_clump_end_of_chain(sv, pre_cs, n as int);
            let fb = flushed_box(sv, pre_cs, n as int, adv, lh);
            assert(scanned_boxes(sv, pre_cs, adv, lh) == seq![fb] + scanned_boxes(
                sv,
                n as int,
                adv,
                lh,
            ));
            assert(scanned_boxes(sv, n as int, adv, lh) == Seq::<BoxV>::empty());
            assert(views_of(out_boxes@) =~= pre_views + seq![fb]);
            assert(pre_views + (seq![fb] + scanned_boxes(sv, n as int, adv, lh)) =~= pre_views
                + seq![fb]);
            assert(views_of(out_boxes@) =~= scanned_boxes(sv, 0, adv, lh));
            if n as int - pre_cs >= 2 {
                assert(spec_can_merge(sv[pre_cs]@, sv[pre_cs + 1]@));
            }
            assert forall|j: int|
                0 <= j < flow.elems@.len() implies (#[trigger] flow.elems@[j]).span == scanned_span(
                old(flow).elems@[j].span,
                sv,
                0,
                0,
            ) by {
                assert(scanned_span(pre_elems[j].span, sv, pre_cs, pre_q) == scanned_span(
                    flow.elems@[j].span,
                    sv,
                    n as int,
                    pre_q + 1,
                ));
                assert(scanned_span(flow.elems@[j].span, sv, n as int, pre_q + 1)
                    == flow.elems@[j].span);
            }
        }
        core::mem::swap(&mut out_boxes, &mut flow.boxes);
        proof {
            assert forall|j: int|
                1 <= j < flow.boxes@.len() implies !spec_can_merge(
                flow.boxes@[j - 1]@,
                #[trigger] flow.boxes@[j]@,
            ) by {
                assert(!(flow.boxes@[j - 1]@.kind is UnscannedText));
            }
        }
    }
}

} // verus!
