use inline_layout::boxes::{BoxKind, RenderBox, SplitOutcome, TextRun};
use inline_layout::driver::{
    assign_height_inline, assign_widths_inline, bubble_widths_inline, build_display_list_inline,
    DisplayItem,
};
use inline_layout::flow::{Font, FontCache, InlineFlow, LayoutContext};
use inline_layout::line_scan::LineboxScanner;
use inline_layout::ranges::{BoxRange, NodeRange};
use inline_layout::text_scan::TextRunScanner;

fn chars(s: &str) -> Vec<char> {
    s.chars().collect()
}

fn ctx(advance: i32, line_height: i32) -> LayoutContext {
    LayoutContext { font_cache: FontCache { test_font: Font { advance, line_height } } }
}

fn unscanned(s: &str, id: u32) -> RenderBox {
    RenderBox { kind: BoxKind::UnscannedText(chars(s)), x: 0, y: 0, width: 0, height: 0, id }
}

fn text_box(s: &str, advance: i32, id: u32) -> RenderBox {
    let t = chars(s);
    let w = advance * t.len() as i32;
    RenderBox { kind: BoxKind::Text(TextRun { advance, text: t }), x: 0, y: 0, width: w, height: 0, id }
}

fn generic(width: i32, id: u32) -> RenderBox {
    RenderBox { kind: BoxKind::Generic, x: 0, y: 0, width, height: 0, id }
}

fn image(wpx: i32, hpx: i32, id: u32) -> RenderBox {
    RenderBox { kind: BoxKind::Image(wpx, hpx), x: 0, y: 0, width: 0, height: 0, id }
}

fn flow_with(width: i32, boxes: Vec<RenderBox>) -> InlineFlow {
    let mut f = InlineFlow::new(width);
    f.boxes = boxes;
    f
}

fn run_text(b: &RenderBox) -> String {
    match &b.kind {
        BoxKind::Text(run) => run.text.iter().collect(),
        _ => panic!("expected a shaped text box"),
    }
}

fn span(start: u16, len: u16) -> BoxRange {
    BoxRange { start, len }
}

// --- text-run scanning ---

#[test]
fn single_text_box_scans_to_one_run() {
    let c = ctx(10, 1200);
    let mut f = flow_with(2000, vec![unscanned("hello world", 7)]);
    let mut s = TextRunScanner::new();
    s.scan_for_runs(&c, &mut f);
    assert_eq!(f.boxes.len(), 1);
    assert_eq!(run_text(&f.boxes[0]), "hello world");
    assert_eq!(f.boxes[0].width, 110);
    assert_eq!(f.boxes[0].id, 7);
}

#[test]
fn empty_unscanned_text_yields_empty_run() {
    let c = ctx(10, 1200);
    let mut f = flow_with(100, vec![unscanned("", 1)]);
    let mut s = TextRunScanner::new();
    s.scan_for_runs(&c, &mut f);
    assert_eq!(f.boxes.len(), 1);
    assert_eq!(run_text(&f.boxes[0]), "");
    assert_eq!(f.boxes[0].width, 0);
}

#[test]
fn whitespace_is_compressed_per_box() {
    let c = ctx(10, 1200);
    let mut f = flow_with(10_000, vec![unscanned("a  b\n\tc", 1)]);
    let mut s = TextRunScanner::new();
    s.scan_for_runs(&c, &mut f);
    assert_eq!(run_text(&f.boxes[0]), "a b c");
}

#[test]
fn coalesced_pair_with_coinciding_span() {
    let c = ctx(10, 1200);
    let mut f = flow_with(10_000, vec![unscanned("foo", 1), unscanned("bar", 2)]);
    f.elems = vec![NodeRange { node: 9, span: span(0, 2) }];
    let mut s = TextRunScanner::new();
    s.scan_for_runs(&c, &mut f);
    assert_eq!(f.boxes.len(), 1);
    assert_eq!(run_text(&f.boxes[0]), "foobar");
    assert_eq!(f.elems[0].span, span(0, 1));
    assert_eq!(f.elems[0].node, 9);
}

#[test]
fn element_after_clump_shifts_left() {
    let c = ctx(10, 1200);
    let mut f = flow_with(10_000, vec![unscanned("x", 1), unscanned("y", 2), generic(5, 3)]);
    f.elems = vec![NodeRange { node: 4, span: span(2, 1) }];
    let mut s = TextRunScanner::new();
    s.scan_for_runs(&c, &mut f);
    assert_eq!(f.boxes.len(), 2);
    assert_eq!(run_text(&f.boxes[0]), "xy");
    assert!(matches!(f.boxes[1].kind, BoxKind::Generic));
    assert_eq!(f.elems[0].span, span(1, 1));
}

#[test]
fn element_strictly_containing_clump_loses_replacement() {
    // The covering span shrinks by the full clump size (one more than the
    // boxes actually elided): the synthesized box leaves its span.
    let c = ctx(10, 1200);
    let mut f = flow_with(10_000, vec![unscanned("x", 1), unscanned("y", 2), generic(5, 3)]);
    f.elems = vec![NodeRange { node: 4, span: span(0, 3) }];
    let mut s = TextRunScanner::new();
    s.scan_for_runs(&c, &mut f);
    assert_eq!(f.boxes.len(), 2);
    assert_eq!(f.elems[0].span, span(0, 1));
}

#[test]
fn adjacent_boxes_not_coalescible_after_scan() {
    let c = ctx(10, 1200);
    let mut f = flow_with(
        10_000,
        vec![unscanned("a", 1), generic(5, 2), unscanned("b", 3), unscanned("c", 4)],
    );
    let mut s = TextRunScanner::new();
    s.scan_for_runs(&c, &mut f);
    assert_eq!(f.boxes.len(), 3);
    for w in f.boxes.windows(2) {
        let both_unscanned = matches!(w[0].kind, BoxKind::UnscannedText(_))
            && matches!(w[1].kind, BoxKind::UnscannedText(_));
        assert!(!both_unscanned);
    }
}

#[test]
fn rescanning_a_scanned_flow_is_a_no_op() {
    let c = ctx(10, 1200);
    let mut f = flow_with(10_000, vec![unscanned("ab", 1), unscanned("cd", 2), generic(5, 3)]);
    f.elems = vec![NodeRange { node: 1, span: span(0, 2) }];
    let mut s = TextRunScanner::new();
    s.scan_for_runs(&c, &mut f);
    let texts: Vec<String> = f
        .boxes
        .iter()
        .map(|b| match &b.kind {
            BoxKind::Text(run) => run.text.iter().collect(),
            _ => String::new(),
        })
        .collect();
    let widths: Vec<i32> = f.boxes.iter().map(|b| b.width).collect();
    let ids: Vec<u32> = f.boxes.iter().map(|b| b.id).collect();
    let elems = f.elems.clone();
    let mut s2 = TextRunScanner::new();
    s2.scan_for_runs(&c, &mut f);
    let texts2: Vec<String> = f
        .boxes
        .iter()
        .map(|b| match &b.kind {
            BoxKind::Text(run) => run.text.iter().collect(),
            _ => String::new(),
        })
        .collect();
    let widths2: Vec<i32> = f.boxes.iter().map(|b| b.width).collect();
    let ids2: Vec<u32> = f.boxes.iter().map(|b| b.id).collect();
    assert_eq!(texts, texts2);
    assert_eq!(widths, widths2);
    assert_eq!(ids, ids2);
    assert_eq!(elems, f.elems);
    let _ = s;
}

// --- splitting ---

#[test]
fn split_unnecessary_when_it_fits() {
    let b = text_box("ab cd", 10, 1);
    match b.split_to_width(100, true) {
        SplitOutcome::SplitUnnecessary(p) => assert_eq!(run_text(&p), "ab cd"),
        _ => panic!("expected SplitUnnecessary"),
    }
}

#[test]
fn split_picks_last_fitting_break() {
    let b = text_box("ab cd ef", 10, 1);
    match b.split_to_width(75, true) {
        SplitOutcome::SplitDidFit(l, r) => {
            assert_eq!(run_text(&l), "ab cd");
            assert_eq!(l.width, 50);
            assert_eq!(run_text(&r), "ef");
            assert_eq!(r.width, 20);
        },
        _ => panic!("expected SplitDidFit"),
    }
}

#[test]
fn split_did_not_fit_uses_first_break() {
    let b = text_box("ab cd ef", 10, 1);
    match b.split_to_width(10, false) {
        SplitOutcome::SplitDidNotFit(l, r) => {
            assert_eq!(run_text(&l), "ab");
            assert_eq!(run_text(&r), "cd ef");
        },
        _ => panic!("expected SplitDidNotFit"),
    }
}

#[test]
fn split_cannot_split_without_breaks() {
    let b = text_box("abcd", 10, 1);
    match b.split_to_width(10, true) {
        SplitOutcome::CannotSplit(p) => assert_eq!(run_text(&p), "abcd"),
        _ => panic!("expected CannotSplit"),
    }
}

// --- line scanning ---

#[test]
fn line_breaking_without_split() {
    let mut f = flow_with(100, vec![generic(60, 1), generic(50, 2), generic(20, 3)]);
    let mut s = LineboxScanner::new();
    s.scan_for_lines(&mut f);
    assert_eq!(f.lines, vec![span(0, 1), span(1, 2)]);
    let xs: Vec<i32> = f.boxes.iter().map(|b| b.x).collect();
    assert_eq!(xs, vec![0, 0, 50]);
}

#[test]
fn line_breaking_with_successful_split() {
    // An eighteen-character run of width 180 splits at its only break: the
    // left piece (width 90) fits the 100-wide line, the rest starts line two.
    let mut f = flow_with(100, vec![text_box("abcdefghi jklmnopq", 10, 1)]);
    let mut s = LineboxScanner::new();
    s.scan_for_lines(&mut f);
    assert_eq!(f.lines, vec![span(0, 1), span(1, 1)]);
    assert_eq!(f.boxes.len(), 2);
    assert_eq!(run_text(&f.boxes[0]), "abcdefghi");
    assert_eq!(f.boxes[0].width, 90);
    assert_eq!(run_text(&f.boxes[1]), "jklmnopq");
    assert_eq!(f.boxes[1].width, 80);
    assert_eq!(f.boxes[0].x, 0);
    assert_eq!(f.boxes[1].x, 0);
}

#[test]
fn unsplittable_overflow_on_empty_line() {
    let mut f = flow_with(100, vec![generic(200, 1)]);
    let mut s = LineboxScanner::new();
    s.scan_for_lines(&mut f);
    assert_eq!(f.lines, vec![span(0, 1)]);
    assert_eq!(f.boxes[0].x, 0);
    assert_eq!(f.boxes[0].width, 200);
}

#[test]
fn unbreakable_text_overflows_like_unsplittable() {
    // A splittable box whose run has no break opportunity cannot make
    // progress by splitting; on an empty line it is emitted and overflows.
    let mut f = flow_with(100, vec![text_box("abcdefghijkl", 20, 1)]);
    let mut s = LineboxScanner::new();
    s.scan_for_lines(&mut f);
    assert_eq!(f.lines, vec![span(0, 1)]);
    assert_eq!(f.boxes[0].x, 0);
    assert_eq!(run_text(&f.boxes[0]), "abcdefghijkl");
}

#[test]
fn unbreakable_text_after_full_line_moves_to_next() {
    let mut f = flow_with(100, vec![generic(80, 1), text_box("abcdefghijkl", 20, 2)]);
    let mut s = LineboxScanner::new();
    s.scan_for_lines(&mut f);
    assert_eq!(f.lines, vec![span(0, 1), span(1, 1)]);
    assert_eq!(f.boxes[1].x, 0);
    assert_eq!(run_text(&f.boxes[1]), "abcdefghijkl");
}

#[test]
fn rescanning_lines_gives_identical_results() {
    let boxes = || vec![generic(60, 1), text_box("ab cd ef", 10, 2), generic(20, 3)];
    let mut f1 = flow_with(100, boxes());
    let mut s = LineboxScanner::new();
    s.scan_for_lines(&mut f1);
    let mut f2 = flow_with(100, boxes());
    s.reset();
    s.scan_for_lines(&mut f2);
    assert_eq!(f1.lines, f2.lines);
    let xs1: Vec<i32> = f1.boxes.iter().map(|b| b.x).collect();
    let xs2: Vec<i32> = f2.boxes.iter().map(|b| b.x).collect();
    assert_eq!(xs1, xs2);
}

#[test]
fn lines_tile_the_box_sequence() {
    let mut f = flow_with(
        100,
        vec![generic(70, 1), generic(40, 2), text_box("ab cd ef", 10, 3), generic(100, 4)],
    );
    let mut s = LineboxScanner::new();
    s.scan_for_lines(&mut f);
    assert!(!f.lines.is_empty());
    assert_eq!(f.lines[0].start, 0);
    for w in f.lines.windows(2) {
        assert_eq!(w[1].start as u32, w[0].start as u32 + w[0].len as u32);
        assert!(w[0].len >= 1);
    }
    let last = f.lines[f.lines.len() - 1];
    assert!(last.len >= 1);
    assert_eq!(last.start as usize + last.len as usize, f.boxes.len());
}

#[test]
fn offsets_monotone_within_each_line() {
    let mut f = flow_with(100, vec![generic(30, 1), generic(30, 2), generic(30, 3), generic(30, 4)]);
    let mut s = LineboxScanner::new();
    s.scan_for_lines(&mut f);
    for line in &f.lines {
        for j in line.start..(line.start + line.len - 1) {
            assert!(f.boxes[j as usize].x <= f.boxes[j as usize + 1].x);
        }
    }
}

// --- driver ---

#[test]
fn full_inline_layout_of_single_text_box() {
    let c = ctx(10, 1200);
    let mut f = flow_with(2000, vec![unscanned("hello world", 1)]);
    bubble_widths_inline(&mut f, &c);
    assign_widths_inline(&mut f, &c);
    let mut s = LineboxScanner::new();
    s.scan_for_lines(&mut f);
    assert_eq!(f.boxes.len(), 1);
    assert!(matches!(f.boxes[0].kind, BoxKind::Text(_)));
    assert_eq!(f.lines, vec![span(0, 1)]);
    assert_eq!(f.boxes[0].x, 0);
}

#[test]
fn bubble_widths_takes_the_maximum() {
    let c = ctx(10, 1200);
    let mut f = flow_with(10_000, vec![unscanned("abc", 1), image(2, 5, 2)]);
    bubble_widths_inline(&mut f, &c);
    // the shaped "abc" is 30 wide; the image's intrinsic width is 2 px = 120.
    assert_eq!(f.min_width, 120);
    assert_eq!(f.pref_width, 120);
}

#[test]
fn assign_widths_by_kind() {
    let c = ctx(10, 1200);
    let mut f = flow_with(10_000, vec![image(2, 5, 1), text_box("ab", 10, 2), generic(7, 3)]);
    assign_widths_inline(&mut f, &c);
    assert_eq!(f.boxes[0].width, 120);
    assert_eq!(f.boxes[1].width, 20);
    assert_eq!(f.boxes[2].width, 2700);
}

#[test]
fn assign_height_stacks_boxes() {
    let c = ctx(10, 1200);
    let mut f = flow_with(10_000, vec![image(1, 40, 1), generic(7, 2)]);
    assign_height_inline(&mut f, &c);
    // the image is 40 px = 2400 tall, over the 1200 fallback; the generic
    // placeholder is 30 px = 1800.
    assert_eq!(f.boxes[0].y, 0);
    assert_eq!(f.boxes[0].height, 2400);
    assert_eq!(f.boxes[1].y, 2400);
    assert_eq!(f.boxes[1].height, 1800);
    assert_eq!(f.height, 4200);
}

#[test]
fn display_list_translates_each_box() {
    let mut f = flow_with(10_000, Vec::new());
    f.boxes = vec![RenderBox {
        kind: BoxKind::Generic,
        x: 5,
        y: 7,
        width: 10,
        height: 20,
        id: 3,
    }];
    let mut list: Vec<DisplayItem> = Vec::new();
    build_display_list_inline(&f, 100, 200, &mut list);
    assert_eq!(list.len(), 1);
    assert_eq!(list[0], DisplayItem { x: 105, y: 207, width: 10, height: 20, id: 3 });
}
