use vstd::prelude::*;
use crate::geometry::{Point, Selection, SelectionGoal};

verus! {

/// What a line motion asks of the host.
#[derive(Clone, Debug, PartialEq, Eq)]
pub enum LineMotion {
    /// Every selection is a bare caret: run the host's own motion, which knows
    /// about soft wraps and indentation.
    Native,
    /// Replace the selections by these carets.
    Collapse(Vec<Selection>),
}

/// A caret at `p` with no remembered column.
pub open spec fn caret_at(p: Point) -> Selection {
    Selection { start: p, end: p, reversed: false, goal: SelectionGoal::Unset }
}

pub open spec fn spec_all_selections_are_empty(sels: Seq<Selection>) -> bool {
    forall|i: int| 0 <= i < sels.len() ==> (#[trigger] sels[i]).is_empty()
}

/// Every selection is a bare caret.
pub fn all_selections_are_empty(sels: &Vec<Selection>) -> (r: bool)
    ensures
        r == spec_all_selections_are_empty(sels@),
{
    let mut i: usize = 0;
    while i < sels.len()
        invariant
            i <= sels@.len(),
            forall|j: int| 0 <= j < i ==> (#[trigger] sels@[j]).is_empty(),
        decreases sels.len() - i,
    {
        if !sels[i].is_empty() {
            return false;
        }
        i = i + 1;
    }
    true
}

/// The motion for selections `sels`: where every one is a bare caret the
/// host's own motion runs, else each selection collapses to a caret at its
/// start (`to_start`) or at its end, forgetting any remembered column.
pub open spec fn line_motion(sels: Seq<Selection>, to_start: bool, m: LineMotion) -> bool {
    if spec_all_selections_are_empty(sels) {
        m == LineMotion::Native
    } else {
        match m {
            LineMotion::Native => false,
            LineMotion::Collapse(v) => v@.len() == sels.len() && forall|i: int|
                0 <= i < sels.len() ==> #[trigger] v@[i] == caret_at(
                    if to_start { sels[i].start } else { sels[i].end },
                ),
        }
    }
}

fn collapse_all(sels: &Vec<Selection>, to_start: bool) -> (out: Vec<Selection>)
    ensures
        out@.len() == sels@.len(),
        forall|i: int| 0 <= i < sels@.len() ==> #[trigger] out@[i] == caret_at(
            if to_start { sels@[i].start } else { sels@[i].end },
        ),
{
    let mut out: Vec<Selection> = Vec::new();
    let mut i: usize = 0;
    while i < sels.len()
        invariant
            i <= sels@.len(),
            out@.len() == i,
            forall|j: int| 0 <= j < i ==> #[trigger] out@[j] == caret_at(
                if to_start { sels@[j].start } else { sels@[j].end },
            ),
        decreases sels.len() - i,
    {
        let p = if to_start { sels[i].start } else { sels[i].end };
        out.push(Selection { start: p, end: p, reversed: false, goal: SelectionGoal::Unset });
        i = i + 1;
    }
    out
}

/// Move to the beginning of the line, or collapse each selection to its start.
pub fn move_to_beginning_of_line(sels: &Vec<Selection>) -> (m: LineMotion)
    ensures
        line_motion(sels@, true, m),
{
    if all_selections_are_empty(sels) {
        LineMotion::Native
    } else {
        LineMotion::Collapse(collapse_all(sels, true))
    }
}

/// Move to the end of the line, or collapse each selection to its end.
pub fn move_to_end_of_line(sels: &Vec<Selection>) -> (m: LineMotion)
    ensures
        line_motion(sels@, false, m),
{
    if all_selections_are_empty(sels) {
        LineMotion::Native
    } else {
        LineMotion::Collapse(collapse_all(sels, false))
    }
}

} // verus!
