//! The line-box scanner: greedy packing of the post-coalescence boxes into
//! lines bounded by the flow's container width, with a LIFO work list for
//! the deferred remainders of splits, and assignment of per-box horizontal
//! offsets within each line.

use vstd::prelude::*;
use crate::boxes::{
    box_text_len, copy_box, lemma_split_spec_props, lemma_views_index, lemma_views_len, split_spec,
    views_of, wf_box, BoxV, KindV, RenderBox, SplitOutcome, SplitOutcomeV,
};
use crate::flow::{all_boxes_wf, no_unscanned, InlineFlow};
use crate::ranges::BoxRange;

verus! {

/// Total width of the boxes `s[a..b]`, in `Au`.
pub open spec fn width_sum(s: Seq<RenderBox>, a: int, b: int) -> int
    decreases b - a,
{
    if a >= b {
        0
    } else {
        s[a]@.width + width_sum(s, a + 1, b)
    }
}

/// Size measure of the boxes `s[a..b]`: one per box plus its text length.
/// Splitting strictly shrinks it, so it bounds the scanner's output length
/// and serves as its termination measure.
pub open spec fn size_sum(s: Seq<RenderBox>, a: int, b: int) -> int
    decreases b - a,
{
    if a >= b {
        0
    } else {
        1 + box_text_len(s[a]@) + size_sum(s, a + 1, b)
    }
}

pub proof fn lemma_width_sum_nonneg(s: Seq<RenderBox>, a: int, b: int)
    requires
        forall|j: int| a <= j < b ==> 0 <= (#[trigger] s[j]@).width,
    ensures
        0 <= width_sum(s, a, b),
    decreases b - a,
{
    if a < b {
        lemma_width_sum_nonneg(s, a + 1, b);
    }
}

pub proof fn lemma_width_sum_split(s: Seq<RenderBox>, a: int, b: int, c: int)
    requires
        a <= b <= c,
    ensures
        width_sum(s, a, c) == width_sum(s, a, b) + width_sum(s, b, c),
    decreases b - a,
{
    if a < b {
        lemma_width_sum_split(s, a + 1, b, c);
    }
}

/// Boxes equal on `[a, b)` have equal width sums there.
pub proof fn lemma_width_sum_congruence(s1: Seq<RenderBox>, s2: Seq<RenderBox>, a: int, b: int)
    requires
        forall|j: int| a <= j < b ==> #[trigger] s1[j] == s2[j],
    ensures
        width_sum(s1, a, b) == width_sum(s2, a, b),
    decreases b - a,
{
    if a < b {
        lemma_width_sum_congruence(s1, s2, a + 1, b);
    }
}

pub proof fn lemma_size_sum_nonneg(s: Seq<RenderBox>, a: int, b: int)
    ensures
        0 <= size_sum(s, a, b),
        a < b ==> 1 <= size_sum(s, a, b),
    decreases b - a,
{
    if a < b {
        lemma_size_sum_nonneg(s, a + 1, b);
    }
}

pub proof fn lemma_size_sum_split(s: Seq<RenderBox>, a: int, b: int, c: int)
    requires
        a <= b <= c,
    ensures
        size_sum(s, a, c) == size_sum(s, a, b) + size_sum(s, b, c),
    decreases b - a,
{
    if a < b {
        lemma_size_sum_split(s, a + 1, b, c);
    }
}

pub proof fn lemma_size_sum_congruence(s1: Seq<RenderBox>, s2: Seq<RenderBox>, a: int, b: int)
    requires
        forall|j: int| a <= j < b ==> #[trigger] s1[j] == s2[j],
    ensures
        size_sum(s1, a, b) == size_sum(s2, a, b),
    decreases b - a,
{
    if a < b {
        lemma_size_sum_congruence(s1, s2, a + 1, b);
    }
}

/// Width and size of a whole sequence after a push.
pub proof fn lemma_sums_push(s: Seq<RenderBox>, x: RenderBox)
    ensures
        width_sum(s.push(x), 0, s.len() as int + 1) == width_sum(s, 0, s.len() as int) + x@.width,
        size_sum(s.push(x), 0, s.len() as int + 1) == size_sum(s, 0, s.len() as int) + 1 + box_text_len(
            x@,
        ),
{
    let t = s.push(x);
    lemma_width_sum_split(t, 0, s.len() as int, s.len() as int + 1);
    lemma_size_sum_split(t, 0, s.len() as int, s.len() as int + 1);
    lemma_width_sum_congruence(t, s, 0, s.len() as int);
    lemma_size_sum_congruence(t, s, 0, s.len() as int);
    assert(t[s.len() as int] == x);
    assert(width_sum(t, s.len() as int + 1, s.len() as int + 1) == 0);
    assert(size_sum(t, s.len() as int + 1, s.len() as int + 1) == 0);
    assert(width_sum(t, s.len() as int, s.len() as int + 1) == x@.width);
    assert(size_sum(t, s.len() as int, s.len() as int + 1) == 1 + box_text_len(x@));
}

/// Pushing a well-formed box keeps a sequence well-formed.
pub proof fn lemma_all_wf_push(s: Seq<RenderBox>, x: RenderBox)
    requires
        all_boxes_wf(s),
        wf_box(x@),
    ensures
        all_boxes_wf(s.push(x)),
{
    let t = s.push(x);
    assert forall|j: int| 0 <= j < t.len() implies wf_box(#[trigger] t[j]@) by {
        if j < s.len() {
            assert(t[j] == s[j]);
        }
    }
}

/// Pushing a shaped (non-raw-text) box keeps a sequence free of raw text.
pub proof fn lemma_no_unscanned_push(s: Seq<RenderBox>, x: RenderBox)
    requires
        no_unscanned(s),
        !(x@.kind is UnscannedText),
    ensures
        no_unscanned(s.push(x)),
{
    let t = s.push(x);
    assert forall|j: int| 0 <= j < t.len() implies !((#[trigger] t[j]@).kind is UnscannedText) by {
        if j < s.len() {
            assert(t[j] == s[j]);
        }
    }
}

/// The view of a box with its horizontal offset replaced.
pub open spec fn with_x(b: BoxV, x: int) -> BoxV {
    BoxV { x, ..b }
}

/// Line spans are non-empty and consecutive, the first starting at zero.
pub open spec fn lines_chained(lines: Seq<BoxRange>) -> bool {
    &&& forall|k: int| 0 <= k < lines.len() ==> (#[trigger] lines[k]).len >= 1
    &&& forall|k: int| 0 < k < lines.len() ==> (#[trigger] lines[k]).start == lines[k - 1].end()
    &&& lines.len() > 0 ==> lines[0].start == 0
}

/// One past the last box index covered by the line spans.
pub open spec fn covered(lines: Seq<BoxRange>) -> int {
    if lines.len() == 0 {
        0
    } else {
        lines[lines.len() - 1].end()
    }
}

/// The line spans tile `[0, n)` exactly: disjoint, contiguous, covering,
/// each non-empty.
pub open spec fn lines_partition(lines: Seq<BoxRange>, n: int) -> bool {
    &&& lines_chained(lines)
    &&& covered(lines) == n
}

/// Horizontal offsets never decrease along the boxes of one line.
#[verifier::opaque]
pub open spec fn line_x_monotone(s: Seq<RenderBox>, r: BoxRange) -> bool {
    forall|j: int| r.start <= j < r.end() - 1 ==> (#[trigger] s[j]@).x <= s[j + 1]@.x
}

// ---------------------------------------------------------------------------
// The per-box decision and the whole scan, as functions of their inputs
// ---------------------------------------------------------------------------

/// Whether the decision on box `b`, with `avail` width left on a line that
/// is `empty` or not, places a box (the whole box or its left fragment) on
/// the line. Every decision on an empty line places something, so the scan
/// always makes progress.
pub open spec fn append_places(b: BoxV, avail: int, empty: bool) -> bool {
    if b.width <= avail {
        true
    } else if !(b.kind is Text) {
        empty
    } else {
        match split_spec(b, avail) {
            SplitOutcomeV::CannotSplit { .. } => empty,
            SplitOutcomeV::SplitUnnecessary { .. } => true,
            SplitOutcomeV::SplitDidFit { .. } => true,
            SplitOutcomeV::SplitDidNotFit { .. } => empty,
        }
    }
}

/// The box the decision places on the line, when it places one: the box
/// itself when it fits or is forced, the left fragment of a split otherwise.
pub open spec fn append_placed(b: BoxV, avail: int, empty: bool) -> BoxV {
    if b.width <= avail {
        b
    } else if !(b.kind is Text) {
        b
    } else {
        match split_spec(b, avail) {
            SplitOutcomeV::CannotSplit { piece } => piece,
            SplitOutcomeV::SplitUnnecessary { piece } => piece,
            SplitOutcomeV::SplitDidFit { left, .. } => left,
            SplitOutcomeV::SplitDidNotFit { left, .. } => left,
        }
    }
}

/// Whether the decision defers a box onto the work list: the remainder of a
/// split, or the whole box when a non-empty line must be flushed and the
/// box retried.
pub open spec fn append_defers(b: BoxV, avail: int, empty: bool) -> bool {
    if b.width <= avail {
        false
    } else if !(b.kind is Text) {
        !empty
    } else {
        match split_spec(b, avail) {
            SplitOutcomeV::CannotSplit { .. } => !empty,
            SplitOutcomeV::SplitUnnecessary { .. } => false,
            SplitOutcomeV::SplitDidFit { .. } => true,
            SplitOutcomeV::SplitDidNotFit { .. } => true,
        }
    }
}

/// The box the decision defers, when it defers one.
pub open spec fn append_deferred(b: BoxV, avail: int, empty: bool) -> BoxV {
    if !(b.kind is Text) {
        b
    } else {
        match split_spec(b, avail) {
            SplitOutcomeV::CannotSplit { piece } => piece,
            SplitOutcomeV::SplitUnnecessary { piece } => piece,
            SplitOutcomeV::SplitDidFit { right, .. } => right,
            SplitOutcomeV::SplitDidNotFit { right, .. } => if empty {
                right
            } else {
                b
            },
        }
    }
}

/// The line scanner's abstract state: the deferral stack (top at the end),
/// the remaining input, the emitted boxes, the completed line spans, and
/// the pending line (a suffix of `out` of `pend_len` boxes).
#[verifier::ext_equal]
pub ghost struct LineScanState {
    pub work: Seq<BoxV>,
    pub inp: Seq<BoxV>,
    pub out: Seq<BoxV>,
    pub lines: Seq<BoxRange>,
    pub pend_len: int,
    pub pend_width: int,
}

/// Size measure of a box-view sequence: one per box plus its text length.
pub open spec fn size_v(s: Seq<BoxV>) -> int
    decreases s.len(),
{
    if s.len() == 0 {
        0
    } else {
        1 + box_text_len(s[0]) + size_v(s.drop_first())
    }
}

pub proof fn lemma_size_v_nonneg(s: Seq<BoxV>)
    ensures
        0 <= size_v(s),
    decreases s.len(),
{
    if s.len() > 0 {
        lemma_size_v_nonneg(s.drop_first());
    }
}

pub proof fn lemma_size_v_push(s: Seq<BoxV>, x: BoxV)
    ensures
        size_v(s.push(x)) == size_v(s) + 1 + box_text_len(x),
    decreases s.len(),
{
    assert(s.push(x)[0] == if s.len() == 0 {
        x
    } else {
        s[0]
    });
    if s.len() == 0 {
        assert(s.push(x).drop_first() =~= Seq::<BoxV>::empty());
        assert(size_v(Seq::<BoxV>::empty()) == 0);
    } else {
        assert(s.push(x).drop_first() =~= s.drop_first().push(x));
        lemma_size_v_push(s.drop_first(), x);
    }
}

/// Running width of `s[a..j]`, over box views.
pub open spec fn widths_before(s: Seq<BoxV>, a: int, j: int) -> int
    decreases j - a,
{
    if a >= j {
        0
    } else {
        s[a].width + widths_before(s, a + 1, j)
    }
}

/// The two width sums agree through the view.
pub proof fn lemma_widths_views(s: Seq<RenderBox>, a: int, b: int)
    requires
        0 <= a || a >= b,
        b <= s.len(),
    ensures
        widths_before(views_of(s), a, b) == width_sum(s, a, b),
    decreases b - a,
{
    if a < b {
        lemma_views_index(s, a);
        lemma_widths_views(s, a + 1, b);
    }
}

/// The boxes from `start` on get their final horizontal offsets: each box's
/// `x` becomes the total width of the boxes before it on the line.
pub open spec fn assign_offsets(s: Seq<BoxV>, start: int) -> Seq<BoxV> {
    s.map(
        |j: int, b: BoxV|
            if start <= j {
                with_x(b, widths_before(s, start, j))
            } else {
                b
            },
    )
}

/// Flushing the pending line: its boxes get their offsets, its span is
/// recorded, and the pending state clears.
pub open spec fn flush_state(st: LineScanState) -> LineScanState {
    let start = st.out.len() - st.pend_len;
    LineScanState {
        work: st.work,
        inp: st.inp,
        out: assign_offsets(st.out, start),
        lines: st.lines.push(BoxRange { start: start as u16, len: st.pend_len as u16 }),
        pend_len: 0,
        pend_width: 0,
    }
}

/// One scan step: take the next box (deferral stack first, else input),
/// decide on it, and either extend the pending line (deferring a split
/// remainder) or defer the box and flush the full line.
pub open spec fn line_scan_step(st: LineScanState, width: int) -> LineScanState {
    let from_work = st.work.len() > 0;
    let b = if from_work {
        st.work.last()
    } else {
        st.inp.first()
    };
    let work1 = if from_work {
        st.work.drop_last()
    } else {
        st.work
    };
    let inp1 = if from_work {
        st.inp
    } else {
        st.inp.drop_first()
    };
    let avail = width - st.pend_width;
    let empty = st.pend_len == 0;
    let work2 = if append_defers(b, avail, empty) {
        work1.push(append_deferred(b, avail, empty))
    } else {
        work1
    };
    if append_places(b, avail, empty) {
        let p = append_placed(b, avail, empty);
        LineScanState {
            work: work2,
            inp: inp1,
            out: st.out.push(p),
            lines: st.lines,
            pend_len: st.pend_len + 1,
            pend_width: st.pend_width + p.width,
        }
    } else {
        flush_state(
            LineScanState {
                work: work2,
                inp: inp1,
                out: st.out,
                lines: st.lines,
                pend_len: st.pend_len,
                pend_width: st.pend_width,
            },
        )
    }
}

/// Termination measure of a scan state.
pub open spec fn scan_measure(st: LineScanState) -> int {
    2 * (size_v(st.work) + size_v(st.inp)) + (if st.pend_len != 0 {
        1int
    } else {
        0int
    })
}

/// Splitting yields a strictly shorter right piece, whatever the box.
pub proof fn lemma_split_right_shorter(b: BoxV, avail: int)
    ensures
        match split_spec(b, avail) {
            SplitOutcomeV::SplitDidFit { right, .. } => box_text_len(right) < box_text_len(b),
            SplitOutcomeV::SplitDidNotFit { right, .. } => box_text_len(right) < box_text_len(b),
            _ => true,
        },
{
    match b.kind {
        KindV::Text { run } => {
            let n = run.text.len() as int;
            crate::boxes::lemma_last_fit_break_range(run.text, run.advance, avail, n - 1);
            crate::boxes::lemma_first_break_range(run.text, 0);
        },
        _ => {},
    }
}

/// One step strictly decreases the measure: an appended box leaves the
/// pending sources (any deferred remainder is strictly smaller), and a
/// deferred whole box costs the flush of a non-empty pending line.
pub proof fn lemma_step_decreases(st: LineScanState, width: int)
    requires
        st.work.len() > 0 || st.inp.len() > 0,
    ensures
        0 <= scan_measure(line_scan_step(st, width)),
        scan_measure(line_scan_step(st, width)) < scan_measure(st),
{
    let from_work = st.work.len() > 0;
    let b = if from_work {
        st.work.last()
    } else {
        st.inp.first()
    };
    let work1 = if from_work {
        st.work.drop_last()
    } else {
        st.work
    };
    let inp1 = if from_work {
        st.inp
    } else {
        st.inp.drop_first()
    };
    if from_work {
        assert(st.work =~= work1.push(b));
        lemma_size_v_push(work1, b);
    }
    let avail = width - st.pend_width;
    let empty = st.pend_len == 0;
    lemma_split_right_shorter(b, avail);
    if append_defers(b, avail, empty) {
        lemma_size_v_push(work1, append_deferred(b, avail, empty));
    }
    let st2 = line_scan_step(st, width);
    lemma_size_v_nonneg(st2.work);
    lemma_size_v_nonneg(st2.inp);
    lemma_size_v_nonneg(work1);
    lemma_size_v_nonneg(inp1);
}

/// The whole scan, as a function of the state: steps until both sources are
/// empty, then flushes any partial line left.
pub open spec fn line_scan_run(st: LineScanState, width: int) -> LineScanState
    decreases scan_measure(st),
        via line_scan_run_decreases
{
    if st.work.len() == 0 && st.inp.len() == 0 {
        if st.pend_len > 0 {
            flush_state(st)
        } else {
            st
        }
    } else {
        line_scan_run(line_scan_step(st, width), width)
    }
}

#[via_fn]
proof fn line_scan_run_decreases(st: LineScanState, width: int) {
    lemma_size_v_nonneg(st.work);
    lemma_size_v_nonneg(st.inp);
    if !(st.work.len() == 0 && st.inp.len() == 0) {
        lemma_step_decreases(st, width);
    }
}

/// What scanning a box sequence under a container width produces.
pub open spec fn line_scan_result(boxes: Seq<BoxV>, width: int) -> LineScanState {
    line_scan_run(
        LineScanState {
            work: Seq::empty(),
            inp: boxes,
            out: Seq::empty(),
            lines: Seq::empty(),
            pend_len: 0,
            pend_width: 0,
        },
        width,
    )
}

/// The line scan is a function of the box sequence and the container width
/// alone: resetting and rerunning the scanner on unchanged inputs yields
/// identical lines and identical per-box offsets.
pub proof fn lemma_line_scan_deterministic(b1: Seq<BoxV>, b2: Seq<BoxV>, width: int)
    requires
        b1 == b2,
    ensures
        line_scan_result(b1, width) == line_scan_result(b2, width),
{
}

/// The scanner's abstract state, with `i` input boxes already consumed.
pub open spec fn state_of(s: LineboxScanner, sv: Seq<RenderBox>, i: int) -> LineScanState {
    LineScanState {
        work: views_of(s.work_list@),
        inp: views_of(sv).skip(i),
        out: views_of(s.new_boxes@),
        lines: s.line_spans@,
        pend_len: s.pending_span.len as int,
        pend_width: s.pending_width as int,
    }
}

/// A sequence one longer, equal on the prefix, with a given last view, has
/// the pushed views.
pub proof fn lemma_views_extended(s1: Seq<RenderBox>, s2: Seq<RenderBox>, v: BoxV)
    requires
        s2.len() == s1.len() + 1,
        forall|j: int| 0 <= j < s1.len() ==> #[trigger] s2[j] == s1[j],
        s2[s1.len() as int]@ == v,
    ensures
        views_of(s2) =~= views_of(s1).push(v),
{
    lemma_views_len(s1);
    lemma_views_len(s2);
    assert forall|j: int|
        0 <= j < s2.len() implies #[trigger] views_of(s2)[j] == views_of(s1).push(v)[j] by {
        lemma_views_index(s2, j);
        if j < s1.len() {
            lemma_views_index(s1, j);
        }
    }
}

/// Dropping the last box commutes with taking views.
pub proof fn lemma_views_shortened(s1: Seq<RenderBox>, s2: Seq<RenderBox>)
    requires
        s1.len() == s2.len() + 1,
        forall|j: int| 0 <= j < s2.len() ==> #[trigger] s1[j] == s2[j],
    ensures
        views_of(s2) =~= views_of(s1).drop_last(),
{
    lemma_views_len(s1);
    lemma_views_len(s2);
    assert forall|j: int|
        0 <= j < s2.len() implies #[trigger] views_of(s2)[j] == views_of(s1).drop_last()[j] by {
        lemma_views_index(s2, j);
        lemma_views_index(s1, j);
    }
}

/// Greedy line packer. Reusable across flows after [`LineboxScanner::reset`].
pub struct LineboxScanner {
    /// The output box sequence being built (splits add fresh boxes).
    pub new_boxes: Vec<RenderBox>,
    /// LIFO stack of deferred boxes, drained before the input sequence.
    pub work_list: Vec<RenderBox>,
    /// The span (into `new_boxes`) of the line being assembled.
    pub pending_span: BoxRange,
    /// The accumulated width of the pending line.
    pub pending_width: i32,
    /// The completed line spans.
    pub line_spans: Vec<BoxRange>,
}

impl LineboxScanner {
    pub fn new() -> (s: LineboxScanner)
        ensures
            s.new_boxes@.len() == 0,
            s.work_list@.len() == 0,
            s.line_spans@.len() == 0,
            s.pending_span.start == 0 && s.pending_span.len == 0,
            s.pending_width == 0,
    {
        LineboxScanner {
            new_boxes: Vec::new(),
            work_list: Vec::new(),
            pending_span: BoxRange { start: 0, len: 0 },
            pending_width: 0,
            line_spans: Vec::new(),
        }
    }

    /// Clears all accumulated state; required before scanning another flow.
    pub fn reset(&mut self)
        ensures
            final(self).new_boxes@.len() == 0,
            final(self).work_list@.len() == 0,
            final(self).line_spans@.len() == 0,
            final(self).pending_span.start == 0 && final(self).pending_span.len == 0,
            final(self).pending_width == 0,
    {
        self.new_boxes = Vec::new();
        self.work_list = Vec::new();
        self.line_spans = Vec::new();
        self.pending_span = BoxRange { start: 0, len: 0 };
        self.pending_width = 0;
    }

    /// Unconditionally appends a box to the pending line.
    fn push_box_to_line(&mut self, b: RenderBox)
        requires
            old(self).new_boxes@.len() < u16::MAX,
            old(self).pending_span.len < u16::MAX,
            old(self).pending_span.len > 0 ==> old(self).pending_span.end() == old(
                self,
            ).new_boxes@.len(),
            old(self).pending_span.len == 0 ==> old(self).pending_width == 0,
            old(self).pending_width == width_sum(
                old(self).new_boxes@,
                old(self).pending_span.start as int,
                old(self).pending_span.end(),
            ),
            0 <= old(self).pending_width,
            old(self).pending_width + b@.width <= i32::MAX,
            wf_box(b@),
        ensures
            all_boxes_wf(old(self).new_boxes@) ==> all_boxes_wf(final(self).new_boxes@),
            no_unscanned(old(self).new_boxes@) && !(b@.kind is UnscannedText) ==> no_unscanned(
                final(self).new_boxes@,
            ),
            final(self).new_boxes@ == old(self).new_boxes@.push(b),
            final(self).pending_span.len == old(self).pending_span.len + 1,
            final(self).pending_span.start == (if old(self).pending_span.len == 0 {
                old(self).new_boxes@.len() as u16
            } else {
                old(self).pending_span.start
            }),
            final(self).pending_span.end() == final(self).new_boxes@.len(),
            final(self).pending_width == old(self).pending_width + b@.width,
            final(self).pending_width == width_sum(
                final(self).new_boxes@,
                final(self).pending_span.start as int,
                final(self).pending_span.end(),
            ),
            final(self).work_list == old(self).work_list,
            final(self).line_spans == old(self).line_spans,
    {
        let ghost oldv = self.new_boxes@;
        if self.pending_span.len == 0 {
            self.pending_span.start = self.new_boxes.len() as u16;
        }
        self.pending_span.len = self.pending_span.len + 1;
        self.pending_width = self.pending_width + b.width;
        let ghost bb = b;
        self.new_boxes.push(b);
        proof {
            let st = self.pending_span.start as int;
            let en = self.pending_span.end();
            lemma_width_sum_congruence(self.new_boxes@, oldv, st, en - 1);
            lemma_width_sum_split(self.new_boxes@, st, en - 1, en);
            assert(self.new_boxes@[en - 1] == bb);
            assert(width_sum(self.new_boxes@, en, en) == 0);
            assert(width_sum(self.new_boxes@, en - 1, en) == bb@.width);
            if all_boxes_wf(oldv) {
                lemma_all_wf_push(oldv, bb);
            }
            if no_unscanned(oldv) && !(bb@.kind is UnscannedText) {
                lemma_no_unscanned_push(oldv, bb);
            }
        }
    }

    /// Flushes the pending line: walks its boxes in order, setting each
    /// horizontal offset to the running width accumulated so far, then
    /// records the line span and resets the pending state.
    fn flush_current_line(&mut self)
        requires
            1 <= old(self).pending_span.len,
            old(self).pending_span.end() == old(self).new_boxes@.len(),
            all_boxes_wf(old(self).new_boxes@),
            old(self).pending_width <= i32::MAX,
            old(self).pending_width == width_sum(
                old(self).new_boxes@,
                old(self).pending_span.start as int,
                old(self).pending_span.end(),
            ),
        ensures
            final(self).line_spans@ == old(self).line_spans@.push(old(self).pending_span),
            final(self).pending_span.start == 0 && final(self).pending_span.len == 0,
            final(self).pending_width == 0,
            final(self).work_list == old(self).work_list,
            final(self).new_boxes@.len() == old(self).new_boxes@.len(),
            all_boxes_wf(final(self).new_boxes@),
            forall|j: int|
                0 <= j < old(self).new_boxes@.len() && !(old(self).pending_span.start <= j < old(
                    self,
                ).pending_span.end()) ==> #[trigger] final(self).new_boxes@[j] == old(
                    self,
                ).new_boxes@[j],
            forall|j: int|
                old(self).pending_span.start <= j < old(self).pending_span.end()
                    ==> #[trigger] final(self).new_boxes@[j]@ == with_x(
                    old(self).new_boxes@[j]@,
                    width_sum(old(self).new_boxes@, old(self).pending_span.start as int, j),
                ),
            line_x_monotone(final(self).new_boxes@, old(self).pending_span),
            views_of(final(self).new_boxes@) == assign_offsets(
                views_of(old(self).new_boxes@),
                old(self).pending_span.start as int,
            ),
    {
        let ghost oldv = self.new_boxes@;
        let start = self.pending_span.start as usize;
        let end = start + self.pending_span.len as usize;
        let mut offset_x: i32 = 0;
        let mut j: usize = start;
        proof {
            assert forall|m: int| start <= m < end implies 0 <= (#[trigger] oldv[m]@).width by {
                assert(wf_box(oldv[m]@));
            }
        }
        while j < end
            invariant
                start <= j <= end <= self.new_boxes@.len(),
                end == self.new_boxes@.len(),
                oldv.len() == self.new_boxes@.len(),
                all_boxes_wf(oldv),
                forall|m: int| start <= m < end ==> 0 <= (#[trigger] oldv[m]@).width,
                width_sum(oldv, start as int, end as int) <= i32::MAX,
                offset_x == width_sum(oldv, start as int, j as int),
                0 <= offset_x,
                forall|m: int|
                    0 <= m < oldv.len() && !(start <= m < j) ==> #[trigger] self.new_boxes@[m]
                        == oldv[m],
                forall|m: int|
                    start <= m < j ==> #[trigger] self.new_boxes@[m]@ == with_x(
                        oldv[m]@,
                        width_sum(oldv, start as int, m),
                    ),
                self.pending_span == old(self).pending_span,
                self.pending_width == old(self).pending_width,
                self.work_list == old(self).work_list,
                self.line_spans == old(self).line_spans,
            decreases end - j,
        {
            let b = copy_box(&self.new_boxes[j]);
            let w = b.width;
            proof {
                lemma_width_sum_split(oldv, start as int, j as int, j + 1);
                lemma_width_sum_split(oldv, start as int, j + 1, end as int);
                lemma_width_sum_nonneg(oldv, j + 1, end as int);
                assert(width_sum(oldv, j + 1, j + 1) == 0);
                assert(width_sum(oldv, j as int, j + 1) == oldv[j as int]@.width);
                assert(self.new_boxes@[j as int] == oldv[j as int]);
            }
            let nb = RenderBox {
                kind: b.kind,
                x: offset_x,
                y: b.y,
                width: b.width,
                height: b.height,
                id: b.id,
            };
            self.new_boxes.set(j, nb);
            offset_x = offset_x + w;
            j = j + 1;
        }
        self.line_spans.push(self.pending_span);
        self.pending_span = BoxRange { start: 0, len: 0 };
        self.pending_width = 0;
        proof {
            reveal(line_x_monotone);
            let st = old(self).pending_span.start as int;
            let en = old(self).pending_span.end();
            assert forall|m: int|
                0 <= m < self.new_boxes@.len() implies wf_box(#[trigger] self.new_boxes@[m]@) by {
                assert(wf_box(oldv[m]@));
                if st <= m < en {
                    lemma_width_sum_split(oldv, st, m, en);
                    lemma_width_sum_nonneg(oldv, st, m);
                    lemma_width_sum_nonneg(oldv, m, en);
                }
            }
            assert forall|m: int|
                st <= m < en - 1 implies (#[trigger] self.new_boxes@[m]@).x <= self.new_boxes@[m
                + 1]@.x by {
                lemma_width_sum_split(oldv, st, m, m + 1);
                assert(width_sum(oldv, m + 1, m + 1) == 0);
                assert(width_sum(oldv, m, m + 1) == oldv[m]@.width);
                assert(0 <= oldv[m]@.width);
                assert(self.new_boxes@[m]@ == with_x(oldv[m]@, width_sum(oldv, st, m)));
                assert(self.new_boxes@[m + 1]@ == with_x(oldv[m + 1]@, width_sum(oldv, st, m + 1)));
            }
            assert(views_of(self.new_boxes@) =~= assign_offsets(views_of(oldv), st)) by {
                lemma_views_len(self.new_boxes@);
                lemma_views_len(oldv);
                assert forall|m: int|
                    0 <= m < self.new_boxes@.len() implies #[trigger] views_of(self.new_boxes@)[m]
                    == assign_offsets(views_of(oldv), st)[m] by {
                    lemma_views_index(self.new_boxes@, m);
                    lemma_views_index(oldv, m);
                    if st <= m {
                        lemma_widths_views(oldv, st, m);
                        assert(self.new_boxes@[m]@ == with_x(oldv[m]@, width_sum(oldv, st, m)));
                    } else {
                        assert(self.new_boxes@[m] == oldv[m]);
                    }
                }
            }
        }
    }

    /// Tries to place one box on the pending line. Returns whether the box
    /// (or a piece of it) was appended; when it returns false the line was
    /// full (hence non-empty), the box was deferred onto the work list, and
    /// the caller flushes the line and retries.
    fn try_append_to_line(&mut self, in_box: RenderBox, container_width: i32) -> (appended: bool)
        requires
            wf_box(in_box@),
            0 <= container_width,
            old(self).new_boxes@.len() < u16::MAX,
            old(self).pending_span.len < u16::MAX,
            old(self).pending_span.len > 0 ==> old(self).pending_span.end() == old(
                self,
            ).new_boxes@.len(),
            old(self).pending_span.len == 0 ==> old(self).pending_width == 0,
            old(self).pending_width == width_sum(
                old(self).new_boxes@,
                old(self).pending_span.start as int,
                old(self).pending_span.end(),
            ),
            0 <= old(self).pending_width,
            old(self).pending_width + in_box@.width <= i32::MAX,
        ensures
            final(self).line_spans == old(self).line_spans,
            all_boxes_wf(old(self).work_list@) ==> all_boxes_wf(final(self).work_list@),
            all_boxes_wf(old(self).new_boxes@) ==> all_boxes_wf(final(self).new_boxes@),
            no_unscanned(old(self).work_list@) && !(in_box@.kind is UnscannedText)
                ==> no_unscanned(final(self).work_list@),
            no_unscanned(old(self).new_boxes@) && !(in_box@.kind is UnscannedText)
                ==> no_unscanned(final(self).new_boxes@),
            old(self).work_list@.len() <= final(self).work_list@.len() <= old(
                self,
            ).work_list@.len() + 1,
            !appended ==> {
                &&& final(self).work_list@.len() == old(self).work_list@.len() + 1
                &&& final(self).new_boxes == old(self).new_boxes
                &&& final(self).pending_span == old(self).pending_span
                &&& final(self).pending_width == old(self).pending_width
                &&& old(self).pending_span.len > 0
                &&& size_sum(final(self).work_list@, 0, final(self).work_list@.len() as int)
                    <= size_sum(old(self).work_list@, 0, old(self).work_list@.len() as int) + 1
                    + box_text_len(in_box@)
                &&& width_sum(final(self).work_list@, 0, final(self).work_list@.len() as int)
                    <= width_sum(old(self).work_list@, 0, old(self).work_list@.len() as int)
                    + in_box@.width
            },
            appended ==> {
                &&& final(self).new_boxes@.len() == old(self).new_boxes@.len() + 1
                &&& forall|j: int|
                    0 <= j < old(self).new_boxes@.len() ==> #[trigger] final(self).new_boxes@[j]
                        == old(self).new_boxes@[j]
                &&& wf_box(final(self).new_boxes@[old(self).new_boxes@.len() as int]@)
                &&& final(self).pending_span.len == old(self).pending_span.len + 1
                &&& final(self).pending_span.start == (if old(self).pending_span.len == 0 {
                    old(self).new_boxes@.len() as u16
                } else {
                    old(self).pending_span.start
                })
                &&& final(self).pending_span.end() == final(self).new_boxes@.len()
                &&& final(self).pending_width == width_sum(
                    final(self).new_boxes@,
                    final(self).pending_span.start as int,
                    final(self).pending_span.end(),
                )
                &&& 0 <= final(self).pending_width
                &&& size_sum(final(self).work_list@, 0, final(self).work_list@.len() as int)
                    <= size_sum(old(self).work_list@, 0, old(self).work_list@.len() as int)
                    + box_text_len(in_box@)
                &&& final(self).pending_width + width_sum(
                    final(self).work_list@,
                    0,
                    final(self).work_list@.len() as int,
                ) <= old(self).pending_width + width_sum(
                    old(self).work_list@,
                    0,
                    old(self).work_list@.len() as int,
                ) + in_box@.width
            },
            appended == append_places(
                in_box@,
                container_width - old(self).pending_width,
                old(self).pending_span.len == 0,
            ),
            appended ==> final(self).new_boxes@[old(self).new_boxes@.len() as int]@
                == append_placed(
                in_box@,
                container_width - old(self).pending_width,
                old(self).pending_span.len == 0,
            ),
            appended ==> final(self).pending_width == old(self).pending_width + append_placed(
                in_box@,
                container_width - old(self).pending_width,
                old(self).pending_span.len == 0,
            ).width,
            if append_defers(
                in_box@,
                container_width - old(self).pending_width,
                old(self).pending_span.len == 0,
            ) {
                &&& final(self).work_list@.len() == old(self).work_list@.len() + 1
                &&& forall|j: int|
                    0 <= j < old(self).work_list@.len() ==> #[trigger] final(self).work_list@[j]
                        == old(self).work_list@[j]
                &&& final(self).work_list@[old(self).work_list@.len() as int]@ == append_deferred(
                    in_box@,
                    container_width - old(self).pending_width,
                    old(self).pending_span.len == 0,
                )
            } else {
                final(self).work_list@ == old(self).work_list@
            },
    {
        let remaining_width = container_width - self.pending_width;
        let in_box_width = in_box.width;
        let line_is_empty = self.pending_span.len == 0;
        proof {
            lemma_split_spec_props(in_box@, remaining_width as int);
        }
        if in_box_width <= remaining_width {
            // The box fits without splitting.
            self.push_box_to_line(in_box);
            return true;
        }
        if !in_box.can_split() {
            if line_is_empty {
                // Force it onto the otherwise empty line; horizontal
                // overflow is permitted and no signal is emitted.
                self.push_box_to_line(in_box);
                return true;
            } else {
                // Defer the box; the caller flushes and retries it.
                let ghost oldw = self.work_list@;
                self.work_list.push(in_box);
                proof {
                    lemma_sums_push(oldw, in_box);
                    if all_boxes_wf(oldw) {
                        lemma_all_wf_push(oldw, in_box);
                    }
                    if no_unscanned(oldw) && !(in_box@.kind is UnscannedText) {
                        lemma_no_unscanned_push(oldw, in_box);
                    }
                }
                return false;
            }
        }
        match in_box.split_to_width(remaining_width, line_is_empty) {
            SplitOutcome::CannotSplit(piece) => {
                // The run offers no break opportunity in the available width.
                if line_is_empty {
                    // Treated like an unsplittable overflow: emit it so the
                    // scan makes progress.
                    self.push_box_to_line(piece);
                    true
                } else {
                    let ghost oldw = self.work_list@;
                    self.work_list.push(piece);
                    proof {
                        lemma_sums_push(oldw, piece);
                        if all_boxes_wf(oldw) {
                            lemma_all_wf_push(oldw, piece);
                        }
                    }
                    false
                }
            },
            SplitOutcome::SplitUnnecessary(piece) => {
                // The untouched piece is small enough after all.
                self.push_box_to_line(piece);
                true
            },
            SplitOutcome::SplitDidFit(left, right) => {
                self.push_box_to_line(left);
                let ghost oldw = self.work_list@;
                self.work_list.push(right);
                proof {
                    lemma_sums_push(oldw, right);
                    if all_boxes_wf(oldw) {
                        lemma_all_wf_push(oldw, right);
                    }
                    if no_unscanned(oldw) && !(right@.kind is UnscannedText) {
                        lemma_no_unscanned_push(oldw, right);
                    }
                }
                true
            },
            SplitOutcome::SplitDidNotFit(left, right) => {
                if line_is_empty {
                    // Overflow with the left piece and defer the remainder.
                    self.push_box_to_line(left);
                    let ghost oldw = self.work_list@;
                    self.work_list.push(right);
                    proof {
                        lemma_sums_push(oldw, right);
                        if all_boxes_wf(oldw) {
                            lemma_all_wf_push(oldw, right);
                        }
                    }
                    true
                } else {
                    // Defer the whole original box: retried on a fresh line
                    // it may split at a later break.
                    let ghost oldw = self.work_list@;
                    self.work_list.push(in_box);
                    proof {
                        lemma_sums_push(oldw, in_box);
                        if all_boxes_wf(oldw) {
                            lemma_all_wf_push(oldw, in_box);
                        }
                    }
                    false
                }
            },
        }
    }

    /// Packs the flow's boxes into lines: drains the work list first, then
    /// consumes the input left to right; a box that does not fit a non-empty
    /// line flushes it and is retried. Commits the rebuilt box sequence and
    /// the line spans into the flow.
    ///
    /// The outcome is pinned exactly: the flow's boxes and lines equal
    /// [`line_scan_result`] of the input boxes and the container width, so
    /// every box lands whole or as its in-order split fragments, offsets are
    /// the running width sums from zero, and rescanning unchanged inputs
    /// yields identical results. In addition the line spans tile the box
    /// sequence exactly, every line is non-empty, offsets never decrease
    /// along a line, and element spans and the flow's widths are untouched;
    /// the scanner's own buffers end empty, ready for reuse.
    #[verifier::rlimit(100)]
    pub fn scan_for_lines(&mut self, flow: &mut InlineFlow)
        requires
            all_boxes_wf(old(flow).boxes@),
            0 <= old(flow).width,
            width_sum(old(flow).boxes@, 0, old(flow).boxes@.len() as int) <= i32::MAX,
            size_sum(old(flow).boxes@, 0, old(flow).boxes@.len() as int) <= u16::MAX,
        ensures
            lines_partition(final(flow).lines@, final(flow).boxes@.len() as int),
            forall|k: int|
                0 <= k < final(flow).lines@.len() ==> line_x_monotone(
                    final(flow).boxes@,
                    #[trigger] final(flow).lines@[k],
                ),
            all_boxes_wf(final(flow).boxes@),
            final(flow).elems == old(flow).elems,
            final(flow).width == old(flow).width,
            final(flow).height == old(flow).height,
            final(flow).min_width == old(flow).min_width,
            final(flow).pref_width == old(flow).pref_width,
            old(flow).boxes@.len() == 0 ==> final(flow).boxes@.len() == 0
                && final(flow).lines@.len() == 0,
            old(flow).boxes@.len() > 0 ==> final(flow).boxes@.len() > 0
                && final(flow).lines@.len() > 0,
            old(flow).boxes@.len() <= final(flow).boxes@.len(),
            final(flow).boxes@.len() <= size_sum(old(flow).boxes@, 0, old(flow).boxes@.len() as int),
            no_unscanned(old(flow).boxes@) ==> no_unscanned(final(flow).boxes@),
            views_of(final(flow).boxes@) == line_scan_result(
                views_of(old(flow).boxes@),
                old(flow).width as int,
            ).out,
            final(flow).lines@ == line_scan_result(
                views_of(old(flow).boxes@),
                old(flow).width as int,
            ).lines,
            final(self).work_list@.len() == 0,
            final(self).new_boxes@.len() == 0,
            final(self).line_spans@.len() == 0,
            final(self).pending_span.len == 0,
            final(self).pending_width == 0,
    {
        self.reset();
        let n = flow.boxes.len();
        let container_width = flow.width;
        let mut in_boxes: Vec<RenderBox> = Vec::new();
        core::mem::swap(&mut in_boxes, &mut flow.boxes);
        let ghost sv = in_boxes@;
        let ghost s0 = size_sum(sv, 0, sv.len() as int);
        let ghost w0 = width_sum(sv, 0, sv.len() as int);
        let mut i: usize = 0;
        proof {
            let wid = container_width as int;
            let st0 = state_of(*self, sv, 0);
            lemma_views_len(self.work_list@);
            lemma_views_len(self.new_boxes@);
            lemma_views_len(sv);
            assert(st0 =~= (LineScanState {
                work: Seq::empty(),
                inp: views_of(sv),
                out: Seq::empty(),
                lines: Seq::empty(),
                pend_len: 0,
                pend_width: 0,
            }));
            assert(line_scan_run(st0, wid) == line_scan_result(views_of(sv), wid));
        }
        while self.work_list.len() > 0 || i < n
            invariant
                i <= n,
                n == sv.len(),
                in_boxes@ == sv,
                all_boxes_wf(sv),
                all_boxes_wf(self.work_list@),
                all_boxes_wf(self.new_boxes@),
                no_unscanned(sv) ==> no_unscanned(self.work_list@) && no_unscanned(
                    self.new_boxes@,
                ),
                0 <= container_width,
                s0 == size_sum(sv, 0, n as int),
                w0 == width_sum(sv, 0, n as int),
                s0 <= u16::MAX,
                w0 <= i32::MAX,
                self.new_boxes@.len() + size_sum(self.work_list@, 0, self.work_list@.len() as int)
                    + size_sum(sv, i as int, n as int) <= s0,
                i as int <= self.new_boxes@.len() + self.work_list@.len(),
                0 <= self.pending_width,
                self.pending_width + width_sum(self.work_list@, 0, self.work_list@.len() as int)
                    + width_sum(sv, i as int, n as int) <= w0,
                self.pending_width == width_sum(
                    self.new_boxes@,
                    self.pending_span.start as int,
                    self.pending_span.end(),
                ),
                self.pending_span.len > 0 ==> self.pending_span.end() == self.new_boxes@.len()
                    && self.pending_span.start == covered(self.line_spans@),
                self.pending_span.len == 0 ==> self.pending_width == 0 && covered(self.line_spans@)
                    == self.new_boxes@.len() && self.pending_span.start == 0,
                lines_chained(self.line_spans@),
                forall|k: int|
                    0 <= k < self.line_spans@.len() ==> line_x_monotone(
                        self.new_boxes@,
                        #[trigger] self.line_spans@[k],
                    ),
                flow.boxes@.len() == 0,
                flow.lines == old(flow).lines,
                flow.elems == old(flow).elems,
                flow.width == old(flow).width,
                flow.height == old(flow).height,
                flow.min_width == old(flow).min_width,
                flow.pref_width == old(flow).pref_width,
                line_scan_run(state_of(*self, sv, i as int), container_width as int)
                    == line_scan_result(views_of(sv), container_width as int),
            decreases
                    size_sum(self.work_list@, 0, self.work_list@.len() as int) + size_sum(
                        sv,
                        i as int,
                        n as int,
                    ),
                    (if self.pending_span.len > 0 {
                        1int
                    } else {
                        0int
                    }),
        {
            let ghost pre = *self;
            let ghost pre_i = i as int;
            let cur_box: RenderBox;
            if self.work_list.len() > 0 {
                let ghost oldw = self.work_list@;
                let popped = self.work_list.pop();
                cur_box = match popped {
                    Option::Some(b) => b,
                    Option::None => vstd::pervasive::unreached(),
                };
                proof {
                    assert(oldw =~= self.work_list@.push(cur_box));
                    lemma_sums_push(self.work_list@, cur_box);
                    assert(wf_box(oldw[oldw.len() - 1]@));
                    if no_unscanned(sv) {
                        assert(!(oldw[oldw.len() - 1]@.kind is UnscannedText));
                        assert forall|j: int|
                            0 <= j < self.work_list@.len() implies !((#[trigger] self.work_list@[j]@)
                            .kind is UnscannedText) by {
                            assert(self.work_list@[j] == oldw[j]);
                        }
                    }
                }
            } else {
                cur_box = copy_box(&in_boxes[i]);
                proof {
                    assert(wf_box(sv[i as int]@));
                    lemma_size_sum_split(sv, i as int, i as int + 1, n as int);
                    lemma_width_sum_split(sv, i as int, i as int + 1, n as int);
                    assert(size_sum(sv, i as int, i as int + 1) == 1 + box_text_len(sv[i as int]@));
                    assert(width_sum(sv, i as int, i as int + 1) == sv[i as int]@.width);
                }
                i = i + 1;
            }
            let ghost cb = cur_box@;
            let ghost work_after_take = self.work_list@;
            let ghost i_after_take = i as int;
            proof {
                lemma_size_sum_nonneg(self.work_list@, 0, self.work_list@.len() as int);
                lemma_size_sum_nonneg(sv, i as int, n as int);
                lemma_width_sum_nonneg_wf(self.work_list@, 0, self.work_list@.len() as int);
                lemma_width_sum_nonneg_wf(sv, i as int, n as int);
                assert(self.new_boxes@.len() < u16::MAX);
                assert(self.pending_width + cb.width <= i32::MAX);
                assert(size_sum(pre.work_list@, 0, pre.work_list@.len() as int) + size_sum(
                    sv,
                    pre_i,
                    n as int,
                ) == size_sum(work_after_take, 0, work_after_take.len() as int) + size_sum(
                    sv,
                    i_after_take,
                    n as int,
                ) + 1 + box_text_len(cb));
                assert(width_sum(pre.work_list@, 0, pre.work_list@.len() as int) + width_sum(
                    sv,
                    pre_i,
                    n as int,
                ) == width_sum(work_after_take, 0, work_after_take.len() as int) + width_sum(
                    sv,
                    i_after_take,
                    n as int,
                ) + cb.width);
            }
            let ghost mid = *self;
            let box_was_appended = self.try_append_to_line(cur_box, container_width);
            if !box_was_appended {
                self.flush_current_line();
                proof {
                    lemma_covered_push(mid.line_spans@, mid.pending_span);
                }
            }
            proof {
                assert forall|k: int|
                    0 <= k < self.line_spans@.len() implies line_x_monotone(
                    self.new_boxes@,
                    #[trigger] self.line_spans@[k],
                ) by {
                    if k < mid.line_spans@.len() {
                        assert(self.line_spans@[k] == mid.line_spans@[k]);
                        lemma_chained_covered(mid.line_spans@, k);
                        lemma_monotone_stable(mid.new_boxes@, self.new_boxes@, mid.line_spans@[k]);
                    }
                }
                lemma_size_sum_nonneg(self.work_list@, 0, self.work_list@.len() as int);
                lemma_size_sum_nonneg(sv, i as int, n as int);
                lemma_size_sum_nonneg(pre.work_list@, 0, pre.work_list@.len() as int);
                lemma_size_sum_nonneg(sv, pre_i, n as int);
                if box_was_appended {
                    assert(size_sum(self.work_list@, 0, self.work_list@.len() as int) + size_sum(
                        sv,
                        i as int,
                        n as int,
                    ) < size_sum(pre.work_list@, 0, pre.work_list@.len() as int) + size_sum(
                        sv,
                        pre_i,
                        n as int,
                    ));
                }
                // one abstract step: the concrete iteration took, decided,
                // and possibly flushed exactly as `line_scan_step` says
                let wid = container_width as int;
                let stp = state_of(pre, sv, pre_i);
                let stq = state_of(*self, sv, i as int);
                let avail = wid - pre.pending_width;
                let empty = pre.pending_span.len == 0;
                lemma_views_len(pre.work_list@);
                lemma_views_len(work_after_take);
                lemma_views_len(sv);
                lemma_views_len(pre.new_boxes@);
                lemma_views_len(self.new_boxes@);
                lemma_views_len(self.work_list@);
                if pre.work_list@.len() > 0 {
                    lemma_views_index(pre.work_list@, pre.work_list@.len() - 1);
                    lemma_views_shortened(pre.work_list@, work_after_take);
                    assert(stp.work.last() == cb);
                    assert(views_of(work_after_take) == stp.work.drop_last());
                } else {
                    lemma_views_index(sv, pre_i);
                    assert(stp.inp.first() == cb);
                    assert(views_of(sv).skip(pre_i).drop_first() =~= views_of(sv).skip(pre_i + 1));
                }
                assert(box_was_appended == append_places(cb, avail, empty));
                if append_defers(cb, avail, empty) {
                    lemma_views_extended(
                        work_after_take,
                        self.work_list@,
                        append_deferred(cb, avail, empty),
                    );
                } else {
                    assert(self.work_list@ == work_after_take);
                }
                if box_was_appended {
                    lemma_views_extended(
                        mid.new_boxes@,
                        self.new_boxes@,
                        append_placed(cb, avail, empty),
                    );
                    assert(stq =~= line_scan_step(stp, wid));
                } else {
                    assert(mid.pending_span.start as int == views_of(pre.new_boxes@).len()
                        - pre.pending_span.len);
                    assert((views_of(pre.new_boxes@).len() - pre.pending_span.len) as u16
                        == pre.pending_span.start);
                    assert(stq =~= line_scan_step(stp, wid));
                }
                assert(stp.work.len() > 0 || stp.inp.len() > 0);
                assert(line_scan_run(stp, wid) == line_scan_run(line_scan_step(stp, wid), wid));
                if !box_was_appended {
                    assert(size_sum(self.work_list@, 0, self.work_list@.len() as int) + size_sum(
                        sv,
                        i as int,
                        n as int,
                    ) <= size_sum(pre.work_list@, 0, pre.work_list@.len() as int) + size_sum(
                        sv,
                        pre_i,
                        n as int,
                    ));
                    assert(mid.pending_span.len > 0);
                    assert(self.pending_span.len == 0);
                }
            }
        }
        let ghost st_done = state_of(*self, sv, n as int);
        proof {
            let wid = container_width as int;
            lemma_views_len(self.work_list@);
            lemma_views_len(sv);
            assert(st_done.work.len() == 0 && st_done.inp.len() == 0);
            assert(line_scan_run(st_done, wid) == (if st_done.pend_len > 0 {
                flush_state(st_done)
            } else {
                st_done
            }));
        }
        if self.pending_span.len > 0 {
            let ghost pre = *self;
            self.flush_current_line();
            proof {
                lemma_covered_push(pre.line_spans@, pre.pending_span);
                assert forall|k: int|
                    0 <= k < self.line_spans@.len() implies line_x_monotone(
                    self.new_boxes@,
                    #[trigger] self.line_spans@[k],
                ) by {
                    if k < pre.line_spans@.len() {
                        assert(self.line_spans@[k] == pre.line_spans@[k]);
                        lemma_chained_covered(pre.line_spans@, k);
                        lemma_monotone_stable(pre.new_boxes@, self.new_boxes@, pre.line_spans@[k]);
                    }
                }
                lemma_views_len(pre.new_boxes@);
                assert(pre.pending_span.start as int == views_of(pre.new_boxes@).len()
                    - pre.pending_span.len);
                assert((views_of(pre.new_boxes@).len() - pre.pending_span.len) as u16
                    == pre.pending_span.start);
                assert(state_of(*self, sv, n as int) =~= flush_state(st_done));
            }
        }
        proof {
            let wid = container_width as int;
            assert(state_of(*self, sv, n as int) == line_scan_result(views_of(sv), wid));
        }
        // Commit: the rebuilt boxes and the line spans move into the flow
        // (the flow's stale line spans do not stay in the scanner).
        core::mem::swap(&mut self.new_boxes, &mut flow.boxes);
        core::mem::swap(&mut self.line_spans, &mut flow.lines);
        let mut stale: Vec<BoxRange> = Vec::new();
        core::mem::swap(&mut stale, &mut self.line_spans);
    }
}

/// Width sums of well-formed boxes are non-negative.
pub proof fn lemma_width_sum_nonneg_wf(s: Seq<RenderBox>, a: int, b: int)
    requires
        all_boxes_wf(s),
        0 <= a,
        b <= s.len(),
    ensures
        0 <= width_sum(s, a, b),
    decreases b - a,
{
    if a < b {
        assert(wf_box(s[a]@));
        lemma_width_sum_nonneg_wf(s, a + 1, b);
    }
}

/// Appending a line span keeps the chain and extends the covered prefix.
pub proof fn lemma_covered_push(lines: Seq<BoxRange>, r: BoxRange)
    requires
        lines_chained(lines),
        r.len >= 1,
        r.start == covered(lines),
    ensures
        lines_chained(lines.push(r)),
        covered(lines.push(r)) == r.end(),
{
    let t = lines.push(r);
    assert forall|k: int| 0 <= k < t.len() implies (#[trigger] t[k]).len >= 1 by {
        if k < lines.len() {
            assert(t[k] == lines[k]);
        }
    }
    assert forall|k: int| 0 < k < t.len() implies (#[trigger] t[k]).start == t[k - 1].end() by {
        if k < lines.len() {
            assert(t[k] == lines[k]);
        }
    }
}

/// Every chained line span ends at or before the covered prefix.
pub proof fn lemma_chained_covered(lines: Seq<BoxRange>, k: int)
    requires
        lines_chained(lines),
        0 <= k < lines.len(),
    ensures
        lines[k].end() <= covered(lines),
    decreases lines.len() - k,
{
    if k < lines.len() - 1 {
        assert(lines[k + 1].start == lines[k].end());
        lemma_chained_covered(lines, k + 1);
    }
}

/// A line whose boxes are unchanged keeps its monotone offsets. The boxes a
/// scan step touches (appended at the end, or repositioned in the pending
/// span) always lie at or after the covered prefix, so flushed lines are
/// stable.
pub proof fn lemma_monotone_stable(s1: Seq<RenderBox>, s2: Seq<RenderBox>, r: BoxRange)
    requires
        line_x_monotone(s1, r),
        forall|j: int| r.start <= j < r.end() && 0 <= j < s1.len() ==> #[trigger] s2[j] == s1[j],
        r.end() <= s1.len(),
    ensures
        line_x_monotone(s2, r),
{
    reveal(line_x_monotone);
    assert forall|j: int| r.start <= j < r.end() - 1 implies (#[trigger] s2[j]@).x <= s2[j + 1]@.x
    by {
        assert(s2[j] == s1[j]);
        assert(s2[j + 1] == s1[j + 1]);
        assert(s1[j]@.x <= s1[j + 1]@.x);
    }
}

} // verus!

