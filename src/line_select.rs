use vstd::prelude::*;
use crate::buffer::{Buffer, lines_wf, max_point_of, valid_point};
use crate::geometry::{Point, Selection, point_le};

verus! {

/// Both ends lie in the buffer and `start` does not come after `end`.
pub open spec fn valid_selection(ls: Seq<Seq<char>>, s: Selection) -> bool {
    valid_point(ls, s.start) && valid_point(ls, s.end) && point_le(s.start, s.end)
}

/// The last row the expansion keeps. A multi-row selection that ends at column
/// 0 with its caret at the start already covers its rows up to the one before
/// its end, so that row is the last one kept.
pub open spec fn last_row_kept(s: Selection) -> int {
    if s.start.row != s.end.row && s.end.column == 0 && s.reversed {
        s.end.row - 1
    } else {
        s.end.row as int
    }
}

/// `s` grown to whole lines: from the start of its first row to the start of
/// the row after the last one kept, but never past the end of the buffer, with
/// the caret at the start. Lines are the buffer's rows: the buffer is taken to
/// have no folds and no soft wraps, so each line boundary is a row boundary.
pub open spec fn line_selection(ls: Seq<Seq<char>>, s: Selection) -> Selection {
    let next = Point { row: (last_row_kept(s) + 1) as usize, column: 0 };
    let max = max_point_of(ls);
    Selection {
        start: Point { row: s.start.row, column: 0 },
        end: if point_le(max, next) { max } else { next },
        reversed: true,
        goal: s.goal,
    }
}

/// Selecting whole lines yields a valid selection, and selecting whole lines
/// a second time changes nothing.
pub proof fn lemma_line_selection_idempotent(ls: Seq<Seq<char>>, s: Selection)
    requires
        lines_wf(ls),
        valid_selection(ls, s),
    ensures
        valid_selection(ls, line_selection(ls, s)),
        line_selection(ls, line_selection(ls, s)) == line_selection(ls, s),
{
    let once = line_selection(ls, s);
    let e = last_row_kept(s);
    assert(s.start.row <= e <= s.end.row);
    if e + 1 < ls.len() {
        assert(once.end == Point { row: (e + 1) as usize, column: 0 });
        assert(last_row_kept(once) == e);
    }
}

/// Every selection grown to whole lines, in the same order.
pub open spec fn line_selections(ls: Seq<Seq<char>>, sels: Seq<Selection>) -> Seq<Selection> {
    sels.map_values(|s: Selection| line_selection(ls, s))
}

/// Selecting whole lines twice in succession gives the same selections as
/// selecting them once.
pub proof fn lemma_select_lines_idempotent(ls: Seq<Seq<char>>, sels: Seq<Selection>)
    requires
        lines_wf(ls),
        forall|i: int| 0 <= i < sels.len() ==> valid_selection(ls, #[trigger] sels[i]),
    ensures
        line_selections(ls, line_selections(ls, sels)) == line_selections(ls, sels),
{
    assert forall|i: int| 0 <= i < sels.len() implies #[trigger] line_selections(ls, line_selections(ls, sels))[i]
        == line_selections(ls, sels)[i] by {
        lemma_line_selection_idempotent(ls, sels[i]);
    }
    assert(line_selections(ls, line_selections(ls, sels)) =~= line_selections(ls, sels));
}

/// Expands every selection to whole lines, keeping their order.
pub fn select_lines(buffer: &Buffer, selections: &Vec<Selection>) -> (out: Vec<Selection>)
    requires
        buffer.wf(),
        forall|i: int| 0 <= i < selections@.len() ==> valid_selection(buffer@, #[trigger] selections@[i]),
    ensures
        out@ == line_selections(buffer@, selections@),
        forall|i: int| 0 <= i < out@.len() ==> valid_selection(buffer@, #[trigger] out@[i]),
{
    let max = buffer.max_point();
    let rows = buffer.line_count();
    let mut out: Vec<Selection> = Vec::new();
    let mut i: usize = 0;
    while i < selections.len()
        invariant
            i <= selections@.len(),
            out@.len() == i,
            max == max_point_of(buffer@),
            rows == buffer@.len(),
            buffer.wf(),
            forall|j: int| 0 <= j < selections@.len() ==> valid_selection(buffer@, #[trigger] selections@[j]),
            forall|j: int| 0 <= j < i ==> #[trigger] out@[j] == line_selection(buffer@, selections@[j]),
            forall|j: int| 0 <= j < i ==> valid_selection(buffer@, #[trigger] out@[j]),
        decreases selections.len() - i,
    {
        let s = selections[i];
        proof {
            lemma_line_selection_idempotent(buffer@, s);
        }
        let last = if s.start.row != s.end.row && s.end.column == 0 && s.reversed {
            s.end.row - 1
        } else {
            s.end.row
        };
        let next = Point::new(last + 1, 0);
        let expanded = Selection {
            start: Point::new(s.start.row, 0),
            end: Point::min(max, next),
            reversed: true,
            goal: s.goal,
        };
        out.push(expanded);
        i = i + 1;
    }
    assert(out@ =~= line_selections(buffer@, selections@));
    out
}

} // verus!
