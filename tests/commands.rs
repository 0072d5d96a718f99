use dance::buffer::Buffer;
use dance::geometry::{Point, RowRange, Selection, SelectionGoal};
use dance::join::{join_lines, AnchoredRange, Edit};
use dance::line_select::select_lines;
use dance::mode::{cursor_shape_for, CursorShape, EditorEvent, ModeController};
use dance::motion::{all_selections_are_empty, move_to_beginning_of_line, move_to_end_of_line, LineMotion};
use dance::paste::{clipboard_ends_in_newline, paste_above, paste_below, ClipboardEntry, PasteStep};
use dance::row_ranges::normalize_row_ranges;

fn chars(s: &str) -> Vec<char> {
    s.chars().collect()
}

fn buffer(s: &str) -> Buffer {
    Buffer::from_text(&chars(s))
}

fn text(b: &Buffer) -> String {
    b.text().into_iter().collect()
}

fn sel(r1: usize, c1: usize, r2: usize, c2: usize, reversed: bool) -> Selection {
    Selection { start: Point::new(r1, c1), end: Point::new(r2, c2), reversed, goal: SelectionGoal::Unset }
}

fn caret(r: usize, c: usize) -> Selection {
    sel(r, c, r, c, false)
}

fn rr(start: usize, end: usize) -> RowRange {
    RowRange { start, end }
}

#[test]
fn buffer_splits_and_joins_text() {
    let b = buffer("abc\ndef\n");
    assert_eq!(b.line_count(), 3);
    assert_eq!(b.line_len(0), 3);
    assert_eq!(b.line_len(2), 0);
    assert_eq!(text(&b), "abc\ndef\n");
    assert_eq!(b.max_point(), Point::new(2, 0));
    let empty = buffer("");
    assert_eq!(empty.line_count(), 1);
    assert_eq!(text(&empty), "");
}

#[test]
fn indent_counts_leading_spaces_and_tabs() {
    let b = buffer("  \tx y\n    \nz");
    assert_eq!(b.indent_len(0), 3);
    assert_eq!(b.indent_len(1), 4);
    assert_eq!(b.indent_len(2), 0);
}

#[test]
fn buffer_replace_and_split_line() {
    let mut b = buffer("hello\nworld");
    b.replace(Point::new(0, 2), Point::new(1, 3), &chars("XY"));
    assert_eq!(text(&b), "heXYld");
    b.split_line(Point::new(0, 3));
    assert_eq!(text(&b), "heX\nYld");
}

#[test]
fn normalize_merges_overlapping_and_touching_spans() {
    let out = normalize_row_ranges(&vec![rr(0, 2), rr(1, 3), rr(5, 6), rr(6, 8)]);
    assert_eq!(out, vec![rr(0, 3), rr(5, 8)]);
}

#[test]
fn normalize_keeps_the_larger_end() {
    let out = normalize_row_ranges(&vec![rr(0, 10), rr(2, 4), rr(12, 13)]);
    assert_eq!(out, vec![rr(0, 10), rr(12, 13)]);
}

#[test]
fn normalize_keeps_separate_spans_and_empty_input() {
    assert_eq!(normalize_row_ranges(&vec![rr(0, 1), rr(2, 3)]), vec![rr(0, 1), rr(2, 3)]);
    assert_eq!(normalize_row_ranges(&vec![]), Vec::<RowRange>::new());
}

#[test]
fn select_line_of_a_caret() {
    let b = buffer("a\nbcd\ne");
    let out = select_lines(&b, &vec![caret(1, 2)]);
    assert_eq!(out, vec![sel(1, 0, 2, 0, true)]);
}

#[test]
fn select_line_on_last_row_stops_at_end_of_buffer() {
    let b = buffer("a\nbcd\nef");
    let out = select_lines(&b, &vec![caret(2, 1)]);
    assert_eq!(out, vec![sel(2, 0, 2, 2, true)]);
}

#[test]
fn select_line_twice_is_select_line_once() {
    let b = buffer("one\ntwo\nthree\nfour\n");
    let start = vec![sel(0, 1, 1, 2, false), caret(3, 0)];
    let once = select_lines(&b, &start);
    assert_eq!(once, vec![sel(0, 0, 2, 0, true), sel(3, 0, 4, 0, true)]);
    let twice = select_lines(&b, &once);
    assert_eq!(twice, once);
}

#[test]
fn select_line_grows_a_whole_line_selection_with_caret_at_end() {
    let b = buffer("one\ntwo\nthree");
    let out = select_lines(&b, &vec![sel(0, 0, 1, 0, false)]);
    assert_eq!(out, vec![sel(0, 0, 2, 0, true)]);
    let kept = select_lines(&b, &vec![sel(0, 0, 1, 0, true)]);
    assert_eq!(kept, vec![sel(0, 0, 1, 0, true)]);
}

#[test]
fn join_with_indented_line_inserts_one_space() {
    let snapshot = buffer("a\n  b\nc");
    let plan = join_lines(&snapshot, &vec![caret(0, 0)], false);
    assert_eq!(plan.edits, vec![Edit { start: Point::new(0, 1), end: Point::new(1, 2), text: vec![' '] }]);
    assert_eq!(plan.selections, vec![AnchoredRange { start: Point::new(0, 1), end: Point::new(1, 2) }]);
    let mut live = buffer("a\n  b\nc");
    for e in &plan.edits {
        live.replace(e.start, e.end, &e.text);
    }
    assert_eq!(text(&live), "a b\nc");
}

#[test]
fn join_with_blank_line_inserts_nothing() {
    let snapshot = buffer("a \n   \nc");
    let plan = join_lines(&snapshot, &vec![caret(0, 1)], false);
    assert_eq!(plan.edits, vec![Edit { start: Point::new(0, 2), end: Point::new(1, 3), text: vec![] }]);
    let mut live = buffer("a \n   \nc");
    for e in &plan.edits {
        live.replace(e.start, e.end, &e.text);
    }
    assert_eq!(text(&live), "a \nc");
}

#[test]
fn join_visits_rows_bottom_up_and_selects_joints_top_down() {
    let src = "r0\nr1\n  r2\nr3\nr4\n\t\tr5\nr6";
    let snapshot = buffer(src);
    let sels = vec![sel(0, 0, 2, 1, false), caret(1, 1), caret(4, 0)];
    let plan = join_lines(&snapshot, &sels, false);
    let rows: Vec<usize> = plan.edits.iter().map(|e| e.start.row).collect();
    assert_eq!(rows, vec![4, 1, 0]);
    let joints: Vec<usize> = plan.selections.iter().map(|s| s.start.row).collect();
    assert_eq!(joints, vec![0, 1, 4]);
    let mut live = buffer(src);
    for e in &plan.edits {
        live.replace(e.start, e.end, &e.text);
    }
    assert_eq!(text(&live), "r0 r1 r2\nr3\nr4 r5\nr6");
}

#[test]
fn join_multi_row_selection_joins_up_to_its_last_row() {
    let snapshot = buffer("a\nb\nc\nd");
    let plan = join_lines(&snapshot, &vec![sel(0, 0, 2, 0, false)], false);
    let rows: Vec<usize> = plan.edits.iter().map(|e| e.start.row).collect();
    assert_eq!(rows, vec![1, 0]);
    let mut live = buffer("a\nb\nc\nd");
    for e in &plan.edits {
        live.replace(e.start, e.end, &e.text);
    }
    assert_eq!(text(&live), "a b c\nd");
}

#[test]
fn join_on_read_only_buffer_does_nothing() {
    let snapshot = buffer("a\nb");
    let plan = join_lines(&snapshot, &vec![caret(0, 0)], true);
    assert!(plan.edits.is_empty());
    assert!(plan.selections.is_empty());
}

#[test]
fn join_on_last_row_keeps_a_caret_at_its_end() {
    let snapshot = buffer("a\nbc");
    let plan = join_lines(&snapshot, &vec![caret(1, 0)], false);
    assert_eq!(plan.edits, vec![Edit { start: Point::new(1, 2), end: Point::new(1, 2), text: vec![] }]);
    assert_eq!(plan.selections, vec![AnchoredRange { start: Point::new(1, 2), end: Point::new(1, 2) }]);
    let mut live = buffer("a\nbc");
    for e in &plan.edits {
        live.replace(e.start, e.end, &e.text);
    }
    assert_eq!(text(&live), "a\nbc");
}

#[test]
fn join_with_carets_on_first_and_last_rows() {
    let src = "x\n  y\nz";
    let snapshot = buffer(src);
    let plan = join_lines(&snapshot, &vec![caret(0, 0), caret(2, 0)], false);
    assert_eq!(
        plan.edits,
        vec![
            Edit { start: Point::new(2, 1), end: Point::new(2, 1), text: vec![] },
            Edit { start: Point::new(0, 1), end: Point::new(1, 2), text: vec![' '] },
        ]
    );
    assert_eq!(
        plan.selections,
        vec![
            AnchoredRange { start: Point::new(0, 1), end: Point::new(1, 2) },
            AnchoredRange { start: Point::new(2, 1), end: Point::new(2, 1) },
        ]
    );
    let mut live = buffer(src);
    for e in &plan.edits {
        live.replace(e.start, e.end, &e.text);
    }
    assert_eq!(text(&live), "x y\nz");
}

#[test]
fn join_selection_ends_after_next_rows_indentation() {
    let snapshot = buffer("a\n b");
    let plan = join_lines(&snapshot, &vec![caret(0, 0)], false);
    assert_eq!(plan.selections, vec![AnchoredRange { start: Point::new(0, 1), end: Point::new(1, 1) }]);
}

#[test]
fn clipboard_predicate() {
    let line = ClipboardEntry::Text("xyz\n".to_string());
    assert!(!clipboard_ends_in_newline(&vec![]));
    assert!(clipboard_ends_in_newline(&vec![line.clone()]));
    assert!(clipboard_ends_in_newline(&vec![line.clone(), ClipboardEntry::Text("\n".to_string())]));
    assert!(!clipboard_ends_in_newline(&vec![ClipboardEntry::Text("xyz".to_string())]));
    assert!(!clipboard_ends_in_newline(&vec![ClipboardEntry::Text(String::new())]));
    assert!(!clipboard_ends_in_newline(&vec![line.clone(), ClipboardEntry::Image]));
    assert!(!clipboard_ends_in_newline(&vec![ClipboardEntry::ExternalPaths]));
    assert!(clipboard_ends_in_newline(&vec![ClipboardEntry::Text("é\n".to_string())]));
}

#[test]
fn paste_above_whole_line_goes_on_a_new_line() {
    let clipboard = vec![ClipboardEntry::Text("xyz\n".to_string())];
    let steps = paste_above(&clipboard);
    assert_eq!(steps, vec![PasteStep::NewlineAbove, PasteStep::Paste, PasteStep::Backspace]);
    // The host's steps on "abc\ndef\n" with the caret on row 0.
    let mut b = buffer("abc\ndef\n");
    let mut at = Point::new(0, 1);
    for step in steps {
        match step {
            PasteStep::NewlineAbove => {
                b.split_line(Point::new(at.row, 0));
                at = Point::new(at.row, 0);
            }
            PasteStep::Paste => {
                b.replace(at, at, &chars("xyz"));
                b.split_line(Point::new(at.row, at.column + 3));
                at = Point::new(at.row + 1, 0);
            }
            PasteStep::Backspace => {
                let prev = Point::new(at.row - 1, b.line_len(at.row - 1));
                b.replace(prev, at, &vec![]);
                at = prev;
            }
            PasteStep::NewlineBelow => unreachable!(),
        }
    }
    assert_eq!(text(&b), "xyz\nabc\ndef\n");
}

#[test]
fn paste_below_whole_line_goes_on_a_new_line() {
    let clipboard = vec![ClipboardEntry::Text("xyz\n".to_string())];
    assert_eq!(paste_below(&clipboard), vec![PasteStep::NewlineBelow, PasteStep::Paste, PasteStep::Backspace]);
}

#[test]
fn paste_below_partial_line_pastes_in_place() {
    let clipboard = vec![ClipboardEntry::Text("xyz".to_string())];
    assert_eq!(paste_below(&clipboard), vec![PasteStep::Paste]);
    assert_eq!(paste_above(&clipboard), vec![PasteStep::Paste]);
    let mixed = vec![ClipboardEntry::Text("xyz\n".to_string()), ClipboardEntry::Image];
    assert_eq!(paste_below(&mixed), vec![PasteStep::Paste]);
    assert_eq!(paste_above(&vec![]), vec![PasteStep::Paste]);
}

#[test]
fn cursor_shape_of_modes() {
    assert_eq!(cursor_shape_for(&"default".to_string()), CursorShape::Bar);
    assert_eq!(cursor_shape_for(&String::new()), CursorShape::WideBar);
    assert_eq!(cursor_shape_for(&"action".to_string()), CursorShape::WideBar);
    assert_eq!(cursor_shape_for(&"Default".to_string()), CursorShape::WideBar);
    assert_eq!(cursor_shape_for(&"default ".to_string()), CursorShape::WideBar);
    assert_eq!(cursor_shape_for(&"never seen".to_string()), CursorShape::WideBar);
}

#[test]
fn mode_controller_starts_by_surface_kind() {
    let full = ModeController::new(true);
    assert_eq!(full.mode(), "action");
    assert_eq!(full.cursor_shape(), CursorShape::WideBar);
    let minimal = ModeController::new(false);
    assert_eq!(minimal.mode(), "default");
    assert_eq!(minimal.cursor_shape(), CursorShape::Bar);
}

#[test]
fn mode_controller_switches_and_resyncs_on_focus() {
    let mut c = ModeController::new(true);
    assert_eq!(c.switch_mode("default".to_string()), CursorShape::Bar);
    assert_eq!(c.mode(), "default");
    assert_eq!(c.on_event(EditorEvent::Focused), Some(CursorShape::Bar));
    assert_eq!(c.switch_mode("insert".to_string()), CursorShape::WideBar);
    assert_eq!(c.on_event(EditorEvent::FocusedIn), Some(CursorShape::WideBar));
    assert_eq!(c.on_event(EditorEvent::Other), None);
}

#[test]
fn move_to_end_collapses_nonempty_selection_to_its_end() {
    let s = Selection { start: Point::new(2, 3), end: Point::new(2, 9), reversed: false, goal: SelectionGoal::Column(7) };
    let m = move_to_end_of_line(&vec![s]);
    assert_eq!(m, LineMotion::Collapse(vec![caret(2, 9)]));
}

#[test]
fn move_to_beginning_collapses_every_selection_to_its_start() {
    let s = sel(2, 3, 2, 9, true);
    let m = move_to_beginning_of_line(&vec![caret(0, 4), s]);
    assert_eq!(m, LineMotion::Collapse(vec![caret(0, 4), caret(2, 3)]));
}

#[test]
fn line_motions_on_bare_carets_are_native() {
    let carets = vec![caret(0, 1), caret(3, 2)];
    assert!(all_selections_are_empty(&carets));
    assert!(!all_selections_are_empty(&vec![sel(0, 0, 0, 1, false)]));
    assert_eq!(move_to_end_of_line(&carets), LineMotion::Native);
    assert_eq!(move_to_beginning_of_line(&carets), LineMotion::Native);
    assert_eq!(move_to_end_of_line(&vec![]), LineMotion::Native);
}
