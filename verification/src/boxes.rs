//! The render-box data model: box kinds, device-pixel geometry, whitespace
//! compression of raw text, and splitting of shaped text boxes at break
//! opportunities.
//!
//! Geometry is measured in `Au`, a 32-bit scaled integer device-pixel unit
//! with 60 units to the pixel. Text is shaped against a fixed-advance test
//! font: a shaped run of `n` characters is `advance * n` units wide.

use vstd::prelude::*;

verus! {

/// `Au` units per CSS pixel.
pub const AU_PER_PX: i32 = 60;

/// Largest pixel value that converts to `Au` without overflow.
pub const MAX_PX: i32 = 35_000_000;

/// Converts a pixel count to `Au` units.
pub fn from_px(px: i32) -> (r: i32)
    requires
        0 <= px <= MAX_PX,
    ensures
        r == px * AU_PER_PX,
{
    px * AU_PER_PX
}

/// Mathematical image of a shaped text run.
#[verifier::ext_equal]
pub ghost struct TextRunV {
    pub advance: int,
    pub text: Seq<char>,
}

/// Mathematical image of a box kind.
#[verifier::ext_equal]
pub ghost enum KindV {
    UnscannedText { text: Seq<char> },
    Text { run: TextRunV },
    Image { width_px: int, height_px: int },
    Generic,
}

/// Mathematical image of a render box.
#[verifier::ext_equal]
pub ghost struct BoxV {
    pub kind: KindV,
    pub x: int,
    pub y: int,
    pub width: int,
    pub height: int,
    pub id: int,
}

/// A shaped text run: the characters and the fixed per-character advance
/// (in `Au`) of the font they were shaped with.
pub struct TextRun {
    pub advance: i32,
    pub text: Vec<char>,
}

impl View for TextRun {
    type V = TextRunV;

    open spec fn view(&self) -> TextRunV {
        TextRunV { advance: self.advance as int, text: self.text@ }
    }
}

/// The kind of an inline render box.
pub enum BoxKind {
    /// Raw text straight from box construction; not yet shaped.
    UnscannedText(Vec<char>),
    /// Shaped text covering a whole text run.
    Text(TextRun),
    /// A replaced element with an intrinsic size in pixels.
    Image(i32, i32),
    /// Any other inline-level box.
    Generic,
}

impl View for BoxKind {
    type V = KindV;

    open spec fn view(&self) -> KindV {
        match self {
            BoxKind::UnscannedText(t) => KindV::UnscannedText { text: t@ },
            BoxKind::Text(run) => KindV::Text { run: run@ },
            BoxKind::Image(w, h) => KindV::Image { width_px: *w as int, height_px: *h as int },
            BoxKind::Generic => KindV::Generic,
        }
    }
}

/// One leaf of inline layout: a kind plus a mutable position rectangle
/// (origin and size, all in `Au`) and a stable identifier.
pub struct RenderBox {
    pub kind: BoxKind,
    pub x: i32,
    pub y: i32,
    pub width: i32,
    pub height: i32,
    pub id: u32,
}

impl View for RenderBox {
    type V = BoxV;

    open spec fn view(&self) -> BoxV {
        BoxV {
            kind: self.kind@,
            x: self.x as int,
            y: self.y as int,
            width: self.width as int,
            height: self.height as int,
            id: self.id as int,
        }
    }
}

/// The view of a box sequence.
pub open spec fn views_of(s: Seq<RenderBox>) -> Seq<BoxV> {
    s.map(|i: int, b: RenderBox| b@)
}

pub proof fn lemma_views_len(s: Seq<RenderBox>)
    ensures
        views_of(s).len() == s.len(),
{
}

pub proof fn lemma_views_index(s: Seq<RenderBox>, j: int)
    requires
        0 <= j < s.len(),
    ensures
        views_of(s)[j] == s[j]@,
{
}

/// A shaped run is well-formed when its advance is non-negative and its
/// total width fits in `Au`.
pub open spec fn wf_run(r: TextRunV) -> bool {
    &&& 0 <= r.advance
    &&& r.text.len() <= i32::MAX
    &&& r.advance * r.text.len() <= i32::MAX
}

/// A well-formed box has non-negative extents; a shaped text box is exactly
/// as wide as its run; an image's intrinsic size converts to `Au` without
/// overflow.
pub open spec fn wf_box(b: BoxV) -> bool {
    &&& 0 <= b.width
    &&& 0 <= b.height
    &&& match b.kind {
        KindV::Text { run } => wf_run(run) && b.width == run.advance * run.text.len(),
        KindV::Image { width_px, height_px } => {
            0 <= width_px <= MAX_PX && 0 <= height_px <= MAX_PX
        },
        _ => true,
    }
}

/// The characters a box carries, if any (used as a termination measure by
/// the line scanner: splitting always shortens the text).
pub open spec fn box_text_len(b: BoxV) -> int {
    match b.kind {
        KindV::UnscannedText { text } => text.len() as int,
        KindV::Text { run } => run.text.len() as int,
        _ => 0,
    }
}

// ---------------------------------------------------------------------------
// Whitespace compression
// ---------------------------------------------------------------------------

/// Whitespace under the `CompressWhitespaceNewline` policy.
pub open spec fn is_ws(ch: char) -> bool {
    ch == ' ' || ch == '\t' || ch == '\n'
}

/// The compression of `s[i..]`, given whether the character before `s[i]`
/// was emitted as whitespace: every maximal run of whitespace becomes a
/// single space.
pub open spec fn compress_from(s: Seq<char>, i: int, prev_ws: bool) -> Seq<char>
    decreases s.len() - i,
{
    if i < 0 || i >= s.len() {
        Seq::empty()
    } else if is_ws(s[i]) {
        if prev_ws {
            compress_from(s, i + 1, true)
        } else {
            seq![' '] + compress_from(s, i + 1, true)
        }
    } else {
        seq![s[i]] + compress_from(s, i + 1, false)
    }
}

/// Whitespace compression of a whole raw string. Compression context is not
/// threaded between adjacent boxes: each box's text is compressed alone.
pub open spec fn compress_text(s: Seq<char>) -> Seq<char> {
    compress_from(s, 0, false)
}

/// Compression never lengthens text.
pub proof fn lemma_compress_len(s: Seq<char>, i: int, prev_ws: bool)
    requires
        0 <= i <= s.len(),
    ensures
        compress_from(s, i, prev_ws).len() <= s.len() - i,
    decreases s.len() - i,
{
    if i < s.len() {
        lemma_compress_len(s, i + 1, true);
        lemma_compress_len(s, i + 1, false);
    }
}

/// Applies the whitespace policy to one box's raw text.
pub fn transform_text(v: &Vec<char>) -> (out: Vec<char>)
    ensures
        out@ == compress_text(v@),
        out@.len() <= v@.len(),
{
    let mut out: Vec<char> = Vec::new();
    let mut prev_ws: bool = false;
    let mut i: usize = 0;
    proof {
        lemma_compress_len(v@, 0, false);
    }
    while i < v.len()
        invariant
            i <= v@.len(),
            compress_text(v@) == out@ + compress_from(v@, i as int, prev_ws),
            out@.len() + (v@.len() - i) >= compress_text(v@).len(),
        decreases v@.len() - i,
    {
        let ch = v[i];
        proof {
            lemma_compress_len(v@, i as int + 1, true);
            lemma_compress_len(v@, i as int + 1, false);
        }
        if ch == ' ' || ch == '\t' || ch == '\n' {
            if !prev_ws {
                out.push(' ');
                assert(compress_text(v@) == out@ + compress_from(v@, i as int + 1, true));
            }
            prev_ws = true;
        } else {
            out.push(ch);
            assert(compress_text(v@) == out@ + compress_from(v@, i as int + 1, false));
            prev_ws = false;
        }
        i = i + 1;
    }
    assert(compress_text(v@) =~= out@);
    out
}

// ---------------------------------------------------------------------------
// Box capabilities
// ---------------------------------------------------------------------------

/// Two boxes may coalesce into one text run: both must be unscanned text.
/// (Style, font and whitespace handling are conservatively treated as
/// equivalent whenever the kinds agree.)
pub open spec fn spec_can_merge(a: BoxV, b: BoxV) -> bool {
    (a.kind is UnscannedText) && (b.kind is UnscannedText)
}

impl RenderBox {
    /// Whether this box and its right neighbour may coalesce.
    pub fn can_merge_with_box(&self, other: &RenderBox) -> (r: bool)
        ensures
            r == spec_can_merge(self@, other@),
    {
        match (&self.kind, &other.kind) {
            (BoxKind::UnscannedText(_), BoxKind::UnscannedText(_)) => true,
            _ => false,
        }
    }

    /// Only shaped text boxes can split at a break opportunity.
    pub open spec fn spec_can_split(self) -> bool {
        self.kind is Text
    }

    pub fn can_split(&self) -> (r: bool)
        ensures
            r == self.spec_can_split(),
    {
        match &self.kind {
            BoxKind::Text(_) => true,
            _ => false,
        }
    }

    /// Whether this box is raw text that has not been shaped yet.
    pub fn is_unscanned(&self) -> (r: bool)
        ensures
            r == (self@.kind is UnscannedText),
    {
        match &self.kind {
            BoxKind::UnscannedText(_) => true,
            BoxKind::Text(_) => false,
            BoxKind::Image(_, _) => false,
            BoxKind::Generic => false,
        }
    }

    /// The unshaped source text; meaningful only for unscanned text boxes.
    pub fn raw_text(&self) -> (t: &Vec<char>)
        requires
            self@.kind is UnscannedText,
        ensures
            self@.kind matches KindV::UnscannedText { text } && t@ == text,
    {
        match &self.kind {
            BoxKind::UnscannedText(t) => t,
            BoxKind::Text(_) => vstd::pervasive::unreached(),
            BoxKind::Image(_, _) => vstd::pervasive::unreached(),
            BoxKind::Generic => vstd::pervasive::unreached(),
        }
    }
}

/// Copies the characters `v[from..to]` into a fresh vector.
pub fn subvec_chars(v: &Vec<char>, from: usize, to: usize) -> (out: Vec<char>)
    requires
        from <= to <= v@.len(),
    ensures
        out@ == v@.subrange(from as int, to as int),
{
    let mut out: Vec<char> = Vec::new();
    let mut i: usize = from;
    while i < to
        invariant
            from <= i <= to <= v@.len(),
            out@ == v@.subrange(from as int, i as int),
        decreases to - i,
    {
        out.push(v[i]);
        assert(out@ =~= v@.subrange(from as int, i as int + 1));
        i = i + 1;
    }
    out
}

/// A structural copy of a render box.
pub fn copy_box(b: &RenderBox) -> (r: RenderBox)
    ensures
        r@ == b@,
{
    let kind = match &b.kind {
        BoxKind::UnscannedText(t) => BoxKind::UnscannedText(subvec_chars(t, 0, t.len())),
        BoxKind::Text(run) => BoxKind::Text(
            TextRun { advance: run.advance, text: subvec_chars(&run.text, 0, run.text.len()) },
        ),
        BoxKind::Image(w, h) => BoxKind::Image(*w, *h),
        BoxKind::Generic => BoxKind::Generic,
    };
    proof {
        assert(kind@ =~= b.kind@) by {
            match &b.kind {
                BoxKind::UnscannedText(t) => {
                    assert(t@.subrange(0, t@.len() as int) =~= t@);
                },
                BoxKind::Text(run) => {
                    assert(run.text@.subrange(0, run.text@.len() as int) =~= run.text@);
                },
                _ => {},
            }
        }
    }
    RenderBox { kind, x: b.x, y: b.y, width: b.width, height: b.height, id: b.id }
}

// ---------------------------------------------------------------------------
// Splitting a text box to a width
// ---------------------------------------------------------------------------

/// The outcome of asking a box to split to an available width.
pub enum SplitOutcome {
    /// The run offers no break opportunity at all.
    CannotSplit(RenderBox),
    /// The whole box already fits; nothing was split.
    SplitUnnecessary(RenderBox),
    /// The left piece fits in the available width.
    SplitDidFit(RenderBox, RenderBox),
    /// Even the shortest left piece overflows the available width.
    SplitDidNotFit(RenderBox, RenderBox),
}

/// Mathematical image of a split outcome.
#[verifier::ext_equal]
pub ghost enum SplitOutcomeV {
    CannotSplit { piece: BoxV },
    SplitUnnecessary { piece: BoxV },
    SplitDidFit { left: BoxV, right: BoxV },
    SplitDidNotFit { left: BoxV, right: BoxV },
}

impl View for SplitOutcome {
    type V = SplitOutcomeV;

    open spec fn view(&self) -> SplitOutcomeV {
        match self {
            SplitOutcome::CannotSplit(b) => SplitOutcomeV::CannotSplit { piece: b@ },
            SplitOutcome::SplitUnnecessary(b) => SplitOutcomeV::SplitUnnecessary { piece: b@ },
            SplitOutcome::SplitDidFit(l, r) => SplitOutcomeV::SplitDidFit { left: l@, right: r@ },
            SplitOutcome::SplitDidNotFit(l, r) => SplitOutcomeV::SplitDidNotFit {
                left: l@,
                right: r@,
            },
        }
    }
}

/// The largest break index `j <= i` whose left piece (`j` characters) fits
/// in `avail`, or `-1` if there is none. A break opportunity is a space.
pub open spec fn last_fit_break_from(text: Seq<char>, advance: int, avail: int, i: int) -> int
    decreases i + 1,
{
    if i < 0 || i >= text.len() {
        -1
    } else if text[i] == ' ' && advance * i <= avail {
        i
    } else {
        last_fit_break_from(text, advance, avail, i - 1)
    }
}

/// The smallest break index at or after `i`, or `-1` if there is none.
pub open spec fn first_break_from(text: Seq<char>, i: int) -> int
    decreases text.len() - i,
{
    if i < 0 || i >= text.len() {
        -1
    } else if text[i] == ' ' {
        i
    } else {
        first_break_from(text, i + 1)
    }
}

pub proof fn lemma_last_fit_break_range(text: Seq<char>, advance: int, avail: int, i: int)
    requires
        -1 <= i,
    ensures
        -1 <= last_fit_break_from(text, advance, avail, i) <= i,
        last_fit_break_from(text, advance, avail, i) < text.len(),
    decreases i + 1,
{
    if !(i < 0 || i >= text.len()) && !(text[i] == ' ' && advance * i <= avail) {
        lemma_last_fit_break_range(text, advance, avail, i - 1);
    }
}

pub proof fn lemma_first_break_range(text: Seq<char>, i: int)
    ensures
        first_break_from(text, i) == -1 || i <= first_break_from(text, i) < text.len(),
    decreases text.len() - i,
{
    if !(i < 0 || i >= text.len()) && !(text[i] == ' ') {
        lemma_first_break_range(text, i + 1);
    }
}

/// The left piece of splitting text box `b` (with run `run`) at break `i`:
/// the first `i` characters, keeping the box's origin and identity.
pub open spec fn split_left(b: BoxV, run: TextRunV, i: int) -> BoxV {
    BoxV {
        kind: KindV::Text { run: TextRunV { advance: run.advance, text: run.text.subrange(0, i) } },
        x: b.x,
        y: b.y,
        width: run.advance * i,
        height: b.height,
        id: b.id,
    }
}

/// The right piece: everything after the break's space character.
pub open spec fn split_right(b: BoxV, run: TextRunV, i: int) -> BoxV {
    BoxV {
        kind: KindV::Text {
            run: TextRunV {
                advance: run.advance,
                text: run.text.subrange(i + 1, run.text.len() as int),
            },
        },
        x: b.x,
        y: b.y,
        width: run.advance * (run.text.len() - i - 1),
        height: b.height,
        id: b.id,
    }
}

/// What splitting a shaped text box to `avail` yields: the untouched box if
/// it already fits; `CannotSplit` if the run has no break opportunity;
/// otherwise a split at the best-fitting break, or at the first break when
/// none fits. Non-text boxes cannot split.
pub open spec fn split_spec(b: BoxV, avail: int) -> SplitOutcomeV {
    match b.kind {
        KindV::Text { run } => {
            let n = run.text.len() as int;
            if run.advance * n <= avail {
                SplitOutcomeV::SplitUnnecessary { piece: b }
            } else {
                let last_fit = last_fit_break_from(run.text, run.advance, avail, n - 1);
                let first = first_break_from(run.text, 0);
                if first == -1 {
                    SplitOutcomeV::CannotSplit { piece: b }
                } else if last_fit >= 0 {
                    SplitOutcomeV::SplitDidFit {
                        left: split_left(b, run, last_fit),
                        right: split_right(b, run, last_fit),
                    }
                } else {
                    SplitOutcomeV::SplitDidNotFit {
                        left: split_left(b, run, first),
                        right: split_right(b, run, first),
                    }
                }
            }
        },
        _ => SplitOutcomeV::CannotSplit { piece: b },
    }
}

/// Splitting a well-formed text box yields well-formed pieces that together
/// are no wider than the whole, and a strictly shorter right piece.
pub proof fn lemma_split_spec_props(b: BoxV, avail: int)
    requires
        wf_box(b),
    ensures
        match split_spec(b, avail) {
            SplitOutcomeV::CannotSplit { piece } => piece == b,
            SplitOutcomeV::SplitUnnecessary { piece } => piece == b,
            SplitOutcomeV::SplitDidFit { left, right } => {
                &&& wf_box(left)
                &&& wf_box(right)
                &&& 0 <= left.width
                &&& left.width + right.width <= b.width
                &&& box_text_len(right) < box_text_len(b)
            },
            SplitOutcomeV::SplitDidNotFit { left, right } => {
                &&& wf_box(left)
                &&& wf_box(right)
                &&& 0 <= left.width
                &&& left.width + right.width <= b.width
                &&& box_text_len(right) < box_text_len(b)
            },
        },
{
    match b.kind {
        KindV::Text { run } => {
            let n = run.text.len() as int;
            lemma_last_fit_break_range(run.text, run.advance, avail, n - 1);
            lemma_first_break_range(run.text, 0);
            let last_fit = last_fit_break_from(run.text, run.advance, avail, n - 1);
            let first = first_break_from(run.text, 0);
            if run.advance * n <= avail {
            } else if first == -1 {
            } else {
                let i = if last_fit >= 0 { last_fit } else { first };
                assert(0 <= i < n);
                assert(run.advance * i <= run.advance * n) by (nonlinear_arith)
                    requires 0 <= run.advance && i <= n;
                assert(run.advance * (n - i - 1) <= run.advance * n) by (nonlinear_arith)
                    requires 0 <= run.advance && n - i - 1 <= n;
                assert(run.advance * i + run.advance * (n - i - 1) <= run.advance * n)
                    by (nonlinear_arith)
                    requires 0 <= run.advance && 0 <= i < n;
                assert(0 <= run.advance * i) by (nonlinear_arith)
                    requires 0 <= run.advance && 0 <= i;
                assert(0 <= run.advance * (n - i - 1)) by (nonlinear_arith)
                    requires 0 <= run.advance && i < n;
            }
        },
        _ => {},
    }
}

impl RenderBox {
    /// Splits this box, if it is shaped text, to the available width.
    /// The outcome is a pure function of the box and the width; the box
    /// itself is left untouched, so a caller may still defer it whole.
    pub fn split_to_width(&self, avail: i32, _starts_line: bool) -> (out: SplitOutcome)
        requires
            wf_box(self@),
        ensures
            out@ == split_spec(self@, avail as int),
    {
        let x = self.x;
        let y = self.y;
        let width = self.width;
        let height = self.height;
        let id = self.id;
        match &self.kind {
            BoxKind::Text(run) => {
                let ghost runv = run@;
                let n = run.text.len();
                if width <= avail {
                    return SplitOutcome::SplitUnnecessary(copy_box(self));
                }
                // Find the first break and the last break whose left piece fits.
                let mut first_b: Option<usize> = None;
                let mut last_fit: Option<usize> = None;
                let mut cur_w: i32 = 0;
                let mut j: usize = 0;
                while j < n
                    invariant
                        j <= n,
                        n == runv.text.len(),
                        run@ == runv,
                        wf_run(runv),
                        cur_w == runv.advance * j,
                        match first_b {
                            Option::None => first_break_from(runv.text, 0) == first_break_from(
                                runv.text,
                                j as int,
                            ),
                            Option::Some(f) => f < j && first_break_from(runv.text, 0) == f,
                        },
                        match last_fit {
                            Option::None => last_fit_break_from(
                                runv.text,
                                runv.advance,
                                avail as int,
                                j - 1,
                            ) == -1,
                            Option::Some(f) => f < j && last_fit_break_from(
                                runv.text,
                                runv.advance,
                                avail as int,
                                j - 1,
                            ) == f,
                        },
                    decreases n - j,
                {
                    let ch = run.text[j];
                    if ch == ' ' {
                        if first_b.is_none() {
                            first_b = Some(j);
                        }
                        if cur_w <= avail {
                            last_fit = Some(j);
                        }
                    }
                    proof {
                        assert(runv.advance * (j + 1) == runv.advance * j + runv.advance)
                            by (nonlinear_arith);
                        assert(runv.advance * (j + 1) <= runv.advance * runv.text.len())
                            by (nonlinear_arith)
                            requires 0 <= runv.advance && j + 1 <= runv.text.len();
                        assert(0 <= runv.advance * j) by (nonlinear_arith)
                            requires 0 <= runv.advance && 0 <= j;
                    }
                    cur_w = cur_w + run.advance;
                    j = j + 1;
                }
                proof {
                    lemma_first_break_range(runv.text, 0);
                    lemma_last_fit_break_range(runv.text, runv.advance, avail as int, n - 1);
                }
                match first_b {
                    Option::None => SplitOutcome::CannotSplit(copy_box(self)),
                    Option::Some(first) => {
                        let i = match last_fit {
                            Option::Some(f) => f,
                            Option::None => first,
                        };
                        proof {
                            assert(runv.advance * i <= runv.advance * n) by (nonlinear_arith)
                                requires 0 <= runv.advance && 0 <= i <= n;
                            assert(runv.advance * ((n - i - 1) as int) <= runv.advance * n)
                                by (nonlinear_arith)
                                requires 0 <= runv.advance && 0 <= n - i - 1 <= n;
                            assert(0 <= runv.advance * i) by (nonlinear_arith)
                                requires 0 <= runv.advance && 0 <= i;
                            assert(0 <= runv.advance * ((n - i - 1) as int)) by (nonlinear_arith)
                                requires 0 <= runv.advance && 0 <= n - i - 1;
                        }
                        let left_text = subvec_chars(&run.text, 0, i);
                        let right_text = subvec_chars(&run.text, i + 1, n);
                        let left_w = run.advance * (i as i32);
                        let right_w = run.advance * ((n - i - 1) as i32);
                        let left = RenderBox {
                            kind: BoxKind::Text(TextRun { advance: run.advance, text: left_text }),
                            x,
                            y,
                            width: left_w,
                            height,
                            id,
                        };
                        let right = RenderBox {
                            kind: BoxKind::Text(TextRun { advance: run.advance, text: right_text }),
                            x,
                            y,
                            width: right_w,
                            height,
                            id,
                        };
                        if last_fit.is_some() {
                            SplitOutcome::SplitDidFit(left, right)
                        } else {
                            SplitOutcome::SplitDidNotFit(left, right)
                        }
                    },
                }
            },
            _ => SplitOutcome::CannotSplit(copy_box(self)),
        }
    }
}

// ---------------------------------------------------------------------------
// Shaping and intrinsic widths
// ---------------------------------------------------------------------------

/// The shaped text box that replaces a clump: the given run text at the
/// font's advance, keeping the prototype box's origin and identity, with the
/// font's line height.
pub open spec fn spec_text_box(proto: BoxV, advance: int, line_h: int, text: Seq<char>) -> BoxV {
    BoxV {
        kind: KindV::Text { run: TextRunV { advance, text } },
        x: proto.x,
        y: proto.y,
        width: advance * text.len(),
        height: line_h,
        id: proto.id,
    }
}

/// Builds the shaped text box for a run, as [`spec_text_box`] describes.
pub fn adapt_text_box(proto: &RenderBox, advance: i32, line_h: i32, text: Vec<char>) -> (b:
    RenderBox)
    requires
        0 <= advance,
        0 <= line_h,
        text@.len() <= i32::MAX,
        advance * text@.len() <= i32::MAX,
    ensures
        b@ == spec_text_box(proto@, advance as int, line_h as int, text@),
        wf_box(b@),
{
    let n = text.len();
    proof {
        assert(0 <= advance * n) by (nonlinear_arith)
            requires 0 <= advance && 0 <= n;
    }
    let width = advance * (n as i32);
    RenderBox {
        kind: BoxKind::Text(TextRun { advance, text }),
        x: proto.x,
        y: proto.y,
        width,
        height: line_h,
        id: proto.id,
    }
}

/// The intrinsic (minimum and preferred) width of a box: an image's
/// intrinsic width, a shaped text box's run width, a fixed placeholder for
/// generic boxes, and nothing for text not yet shaped.
pub open spec fn spec_intrinsic_width(b: BoxV) -> int {
    match b.kind {
        KindV::UnscannedText { .. } => 0,
        KindV::Text { .. } => b.width,
        KindV::Image { width_px, .. } => width_px * AU_PER_PX,
        KindV::Generic => 45 * AU_PER_PX,
    }
}

impl RenderBox {
    /// Minimum intrinsic width.
    pub fn get_min_width(&self) -> (w: i32)
        requires
            wf_box(self@),
        ensures
            w == spec_intrinsic_width(self@),
    {
        match &self.kind {
            BoxKind::UnscannedText(_) => 0,
            BoxKind::Text(_) => self.width,
            BoxKind::Image(w, _) => from_px(*w),
            BoxKind::Generic => from_px(45),
        }
    }

    /// Preferred intrinsic width; the same metric as the minimum for now.
    pub fn get_pref_width(&self) -> (w: i32)
        requires
            wf_box(self@),
        ensures
            w == spec_intrinsic_width(self@),
    {
        self.get_min_width()
    }
}

} // verus!
