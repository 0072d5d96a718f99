use vstd::prelude::*;
use crate::buffer::{Buffer, indent_of, is_blank, is_indent_char, lemma_indent_of, lines_wf, replaced};
use crate::geometry::{Point, RowRange, Selection, point_le};
use crate::line_select::valid_selection;
use crate::row_ranges::{ascending_spans, covers, normalize_row_ranges, normalized, separated};

verus! {

/// Replace the text from `start` to `end` with `text`.
#[derive(Clone, Debug, PartialEq, Eq)]
pub struct Edit {
    pub start: Point,
    pub end: Point,
    pub text: Vec<char>,
}

/// A range given by two positions of the frozen snapshot. The host turns each
/// end into an anchor, so the range follows the edits made in the same
/// transaction: a joint's range then holds what its edit inserted.
#[derive(Clone, Copy, Debug, PartialEq, Eq, Structural)]
pub struct AnchoredRange {
    pub start: Point,
    pub end: Point,
}

/// What joining lines asks of the host: apply `edits` in order, in one
/// transaction, each one read against the snapshot taken before the first,
/// then replace the selections by `selections`, which are in ascending order.
/// A plan with no edits leaves the buffer and the selections as they are.
#[derive(Clone, Debug, PartialEq, Eq)]
pub struct JoinPlan {
    pub edits: Vec<Edit>,
    pub selections: Vec<AnchoredRange>,
}

/// Selections are in ascending order of their starts.
pub open spec fn sorted_by_start(sels: Seq<Selection>) -> bool {
    forall|i: int, j: int| 0 <= i < j < sels.len() ==> point_le(#[trigger] sels[i].start, #[trigger] sels[j].start)
}

/// The rows whose line a selection joins with the next one: its own row for a
/// selection on one row, else every row from its first up to the one it ends
/// on.
pub open spec fn selection_rows(s: Selection) -> RowRange {
    RowRange {
        start: s.start.row,
        end: if s.start.row == s.end.row { (s.start.row + 1) as usize } else { s.end.row },
    }
}

pub open spec fn join_ranges(sels: Seq<Selection>) -> Seq<RowRange> {
    Seq::new(sels.len(), |i: int| selection_rows(sels[i]))
}

/// The rows of `r` from the highest down.
pub open spec fn range_rows_desc(r: RowRange) -> Seq<int> {
    Seq::new((r.end - r.start) as nat, |k: int| r.end - 1 - k)
}

/// The rows of `rs[j..]`, from the last range down to range `j`, each range
/// from its highest row down.
pub open spec fn rows_from(rs: Seq<RowRange>, j: int) -> Seq<int>
    decreases rs.len() - j,
{
    if j < 0 || j >= rs.len() {
        Seq::empty()
    } else {
        rows_from(rs, j + 1) + range_rows_desc(rs[j])
    }
}

/// The rows that joining visits, in the order it visits them.
pub open spec fn join_rows(sels: Seq<Selection>) -> Seq<int> {
    rows_from(normalized(join_ranges(sels)), 0)
}

/// Where the joint starts: the end of row `r`.
pub open spec fn join_start(ls: Seq<Seq<char>>, r: int) -> Point {
    Point { row: r as usize, column: ls[r].len() as usize }
}

/// Where the joint ends: the first column after the next row's indentation.
/// The last row has no next row: its joint is empty and ends where it starts.
pub open spec fn join_end(ls: Seq<Seq<char>>, r: int) -> Point {
    if r + 1 < ls.len() {
        Point { row: (r + 1) as usize, column: indent_of(ls[r + 1]) as usize }
    } else {
        join_start(ls, r)
    }
}

/// One space, unless there is no next row or it holds nothing but indentation.
pub open spec fn join_text(ls: Seq<Seq<char>>, r: int) -> Seq<char> {
    if r + 1 < ls.len() && ls[r + 1].len() > indent_of(ls[r + 1]) { seq![' '] } else { Seq::empty() }
}

/// The selection left at the joint of row `r`: the joint itself, from the end
/// of the row to the first column after the next row's indentation, which
/// after the edit holds what was inserted. On the last row it is a caret at
/// the end of the row.
pub open spec fn join_cursor(ls: Seq<Seq<char>>, r: int) -> AnchoredRange {
    AnchoredRange { start: join_start(ls, r), end: join_end(ls, r) }
}

pub open spec fn is_join_edit(ls: Seq<Seq<char>>, r: int, e: Edit) -> bool {
    e.start == join_start(ls, r) && e.end == join_end(ls, r) && e.text@ == join_text(ls, r)
}

/// The lines after the joins at `rows`, made one after the other, each one
/// read against the snapshot `ls`.
pub open spec fn apply_joins(ls: Seq<Seq<char>>, rows: Seq<int>) -> Seq<Seq<char>>
    decreases rows.len(),
{
    if rows.len() == 0 {
        ls
    } else {
        let r = rows.last();
        replaced(apply_joins(ls, rows.drop_last()), join_start(ls, r), join_end(ls, r), join_text(ls, r))
    }
}

/// In `live`, the rows above `r` are those of `snap`, and row `r` still starts
/// with what it held in `snap`.
pub open spec fn keeps_rows(snap: Seq<Seq<char>>, live: Seq<Seq<char>>, r: int) -> bool {
    &&& 0 <= r < live.len()
    &&& r < snap.len()
    &&& forall|x: int| 0 <= x < r ==> #[trigger] live[x] == snap[x]
    &&& snap[r].len() <= live[r].len()
    &&& live[r].take(snap[r].len() as int) == snap[r]
}

/// The rows visited from range `j` on come in strictly descending order, and
/// each lies in a range at or after `j`.
proof fn lemma_rows_from(rs: Seq<RowRange>, j: int)
    requires
        separated(rs),
        0 <= j <= rs.len(),
    ensures
        forall|a: int, b: int| 0 <= a < b < rows_from(rs, j).len()
            ==> #[trigger] rows_from(rs, j)[a] > #[trigger] rows_from(rs, j)[b],
        forall|a: int| 0 <= a < rows_from(rs, j).len() ==> covers(rs, #[trigger] rows_from(rs, j)[a]),
        forall|a: int| 0 <= a < rows_from(rs, j).len() ==> rs[j].start <= #[trigger] rows_from(rs, j)[a],
        forall|i: int, x: int| j <= i < rs.len() && #[trigger] rs[i].contains(x) ==> rows_from(rs, j).contains(x),
    decreases rs.len() - j,
{
    if j < rs.len() {
        lemma_rows_from(rs, j + 1);
        let done = rows_from(rs, j + 1);
        let own = range_rows_desc(rs[j]);
        let all = rows_from(rs, j);
        assert(all == done + own);
        assert forall|i: int, x: int| j <= i < rs.len() && #[trigger] rs[i].contains(x) implies all.contains(x) by {
            if i == j {
                assert(all[done.len() + rs[j].end - 1 - x] == x);
            } else {
                let a = choose|a: int| 0 <= a < done.len() && done[a] == x;
                assert(all[a] == x);
            }
        }
        assert forall|a: int| 0 <= a < all.len() implies covers(rs, #[trigger] all[a]) by {
            if a >= done.len() {
                assert(rs[j].contains(all[a]));
            }
        }
        assert forall|a: int| 0 <= a < done.len() implies rs[j].end < #[trigger] done[a] by {
            assert(rs[j].end < rs[j + 1].start);
        }
    }
}

/// The rows a join at `r` reads: `r` and the next row, or `r` alone on the
/// last row.
pub open spec fn last_row_read(ls: Seq<Seq<char>>, r: int) -> int {
    if r + 1 < ls.len() { r + 1 } else { r }
}

/// Made from the bottom up, every join finds the rows it reads as the snapshot
/// had them: the rows above its own and its own row are unchanged, and the row
/// below still starts with its old text.
proof fn lemma_joins_keep_rows(ls: Seq<Seq<char>>, rows: Seq<int>, k: int)
    requires
        lines_wf(ls),
        forall|a: int, b: int| 0 <= a < b < rows.len() ==> #[trigger] rows[a] > #[trigger] rows[b],
        forall|a: int| 0 <= a < rows.len() ==> 0 <= #[trigger] rows[a] < ls.len(),
        0 <= k < rows.len(),
    ensures
        keeps_rows(ls, apply_joins(ls, rows.take(k)), last_row_read(ls, rows[k])),
    decreases k,
{
    let r = rows[k];
    let m = last_row_read(ls, r);
    if k == 0 {
        assert(rows.take(0).len() == 0);
        assert(ls[m].take(ls[m].len() as int) =~= ls[m]);
    } else {
        let p = rows[k - 1];
        assert(rows[0] >= p);
        let before = apply_joins(ls, rows.take(k - 1));
        assert(rows.take(k).drop_last() =~= rows.take(k - 1));
        assert(rows.take(k).last() == p);
        let live = apply_joins(ls, rows.take(k));
        assert(live == replaced(before, join_start(ls, p), join_end(ls, p), join_text(ls, p)));
        assert(r + 1 <= p);
        if p + 1 < ls.len() {
            lemma_joins_keep_rows(ls, rows, k - 1);
            lemma_indent_of(ls[p + 1]);
            assert(before[p].take(ls[p].len() as int) =~= ls[p]);
            assert(live[p] =~= before[p].take(ls[p].len() as int) + join_text(ls, p) + before[p + 1].skip(
                indent_of(ls[p + 1]) as int,
            ));
            assert forall|x: int| 0 <= x < p implies #[trigger] live[x] == ls[x] by {
                assert(live[x] == before[x]);
            }
            assert(live[p].take(ls[p].len() as int) =~= ls[p]);
            if r + 1 < p {
                assert(live[r + 1] == ls[r + 1]);
                assert(ls[r + 1].take(ls[r + 1].len() as int) =~= ls[r + 1]);
            }
        } else {
            if k - 1 > 0 {
                assert(rows[0] > rows[k - 1]);
            }
            assert(rows.take(k - 1).len() == 0);
            assert(before == ls);
            assert(ls[p].take(ls[p].len() as int) =~= ls[p]);
            assert(ls[p].skip(ls[p].len() as int) =~= Seq::<char>::empty());
            assert(live =~= ls);
            assert(ls[r + 1].take(ls[r + 1].len() as int) =~= ls[r + 1]);
        }
    }
}

/// Joining visits the rows of the selections' spans, each once and in strictly
/// descending order, and each join finds the rows it reads unchanged by the
/// joins made before it.
pub proof fn lemma_join_order(ls: Seq<Seq<char>>, sels: Seq<Selection>)
    requires
        lines_wf(ls),
        forall|i: int| 0 <= i < sels.len() ==> valid_selection(ls, #[trigger] sels[i]),
        sorted_by_start(sels),
    ensures
        forall|a: int, b: int| 0 <= a < b < join_rows(sels).len()
            ==> #[trigger] join_rows(sels)[a] > #[trigger] join_rows(sels)[b],
        forall|x: int| #[trigger] join_rows(sels).contains(x) <==> covers(join_ranges(sels), x),
        forall|a: int| 0 <= a < join_rows(sels).len() ==> 0 <= #[trigger] join_rows(sels)[a] < ls.len(),
        forall|k: int| 0 <= k < join_rows(sels).len() ==> keeps_rows(
            ls,
            apply_joins(ls, join_rows(sels).take(k)),
            last_row_read(ls, #[trigger] join_rows(sels)[k]),
        ),
{
    let spans = join_ranges(sels);
    assert(ascending_spans(spans)) by {
        assert forall|a: int, b: int| 0 <= a < b < spans.len() implies
            #[trigger] spans[a].start <= #[trigger] spans[b].start by {
            assert(point_le(sels[a].start, sels[b].start));
        }
    }
    crate::row_ranges::lemma_normalized_properties(spans);
    let rs = normalized(spans);
    let rows = join_rows(sels);
    lemma_rows_from(rs, 0);
    assert forall|x: int| #[trigger] rows.contains(x) <==> covers(spans, x) by {
        if rows.contains(x) {
            let a = choose|a: int| 0 <= a < rows.len() && rows[a] == x;
            assert(covers(rs, rows[a]));
        }
        if covers(spans, x) {
            assert(covers(rs, x));
            let i = choose|i: int| 0 <= i < rs.len() && #[trigger] rs[i].contains(x);
            assert(rs[i].contains(x));
        }
    }
    assert forall|a: int| 0 <= a < rows.len() implies 0 <= #[trigger] rows[a] < ls.len() by {
        assert(covers(rs, rows[a]));
        assert(covers(spans, rows[a]));
        let i = choose|i: int| 0 <= i < spans.len() && #[trigger] spans[i].contains(rows[a]);
        assert(spans[i] == selection_rows(sels[i]));
    }
    assert forall|k: int| 0 <= k < rows.len() implies keeps_rows(
        ls,
        apply_joins(ls, rows.take(k)),
        last_row_read(ls, #[trigger] rows[k]),
    ) by {
        lemma_joins_keep_rows(ls, rows, k);
    }
}

/// Joining row `r` with the next row puts one space between them, or nothing
/// where the next row is blank, removes the next row's indentation, and leaves
/// every other row as it was. On the last row the join changes nothing.
pub proof fn lemma_join_whitespace(ls: Seq<Seq<char>>, r: int)
    requires
        lines_wf(ls),
        0 <= r < ls.len(),
    ensures
        r == ls.len() - 1 ==> replaced(ls, join_start(ls, r), join_end(ls, r), join_text(ls, r)) == ls,
        r < ls.len() - 1 ==> ({
            let after = replaced(ls, join_start(ls, r), join_end(ls, r), join_text(ls, r));
            let rest = ls[r + 1].skip(indent_of(ls[r + 1]) as int);
            &&& after.len() == ls.len() - 1
            &&& forall|x: int| 0 <= x < r ==> #[trigger] after[x] == ls[x]
            &&& forall|x: int| r < x < after.len() ==> #[trigger] after[x] == ls[x + 1]
            &&& is_blank(ls[r + 1]) ==> after[r] == ls[r]
            &&& !is_blank(ls[r + 1]) ==> after[r] == ls[r] + seq![' '] + rest
            &&& !is_blank(ls[r + 1]) ==> rest.len() > 0 && !is_indent_char(rest[0])
        }),
{
    let after = replaced(ls, join_start(ls, r), join_end(ls, r), join_text(ls, r));
    assert(ls[r].take(ls[r].len() as int) =~= ls[r]);
    if r == ls.len() - 1 {
        assert(ls[r].skip(ls[r].len() as int) =~= Seq::<char>::empty());
        assert(after =~= ls);
        return;
    }
    lemma_indent_of(ls[r + 1]);
    let rest = ls[r + 1].skip(indent_of(ls[r + 1]) as int);
    if is_blank(ls[r + 1]) {
        assert(rest.len() == 0);
        assert(after[r] =~= ls[r]);
    } else {
        assert(after[r] =~= ls[r] + seq![' '] + rest);
    }
}

/// The row range that one selection joins.
fn rows_of_selection(buffer: &Buffer, s: &Selection) -> (r: RowRange)
    requires
        buffer.wf(),
        valid_selection(buffer@, *s),
    ensures
        r == selection_rows(*s),
        r.start <= r.end <= buffer@.len(),
{
    let end = if s.start.row == s.end.row { s.start.row + 1 } else { s.end.row };
    RowRange { start: s.start.row, end }
}

/// Plans the joining of the selected lines. Nothing is planned for a read-only
/// buffer. Otherwise the row spans of the selections are merged, and each row
/// of the merged ranges, from the bottom of the buffer up, is joined with the
/// next one: the line break and the next row's indentation give way to one
/// space, or to nothing where the next row is blank. The last row has no next
/// row: its edit is empty and its selection is a caret at the end of the row.
/// Every row of the selections' spans gets one edit and one selection, and the
/// selections come in ascending order.
pub fn join_lines(buffer: &Buffer, selections: &Vec<Selection>, read_only: bool) -> (plan: JoinPlan)
    requires
        buffer.wf(),
        forall|i: int| 0 <= i < selections@.len() ==> valid_selection(buffer@, #[trigger] selections@[i]),
        sorted_by_start(selections@),
    ensures
        read_only ==> plan.edits@.len() == 0 && plan.selections@.len() == 0,
        !read_only ==> {
            let rows = join_rows(selections@);
            &&& plan.edits@.len() == rows.len()
            &&& forall|k: int| 0 <= k < rows.len() ==> is_join_edit(buffer@, rows[k], #[trigger] plan.edits@[k])
            &&& plan.selections@.len() == rows.len()
            &&& forall|k: int| 0 <= k < rows.len()
                ==> #[trigger] plan.selections@[k] == join_cursor(buffer@, rows[rows.len() - 1 - k])
            &&& forall|x: int| #[trigger] rows.contains(x) <==> covers(join_ranges(selections@), x)
            &&& forall|a: int, b: int| 0 <= a < b < plan.selections@.len()
                ==> #[trigger] plan.selections@[a].start.row < #[trigger] plan.selections@[b].start.row
        },
{
    let mut edits: Vec<Edit> = Vec::new();
    let mut cursors: Vec<AnchoredRange> = Vec::new();
    if read_only {
        return JoinPlan { edits, selections: cursors };
    }
    let ghost ls = buffer@;
    let mut spans: Vec<RowRange> = Vec::new();
    let mut i: usize = 0;
    while i < selections.len()
        invariant
            i <= selections@.len(),
            ls == buffer@,
            buffer.wf(),
            forall|j: int| 0 <= j < selections@.len() ==> valid_selection(ls, #[trigger] selections@[j]),
            spans@ =~= join_ranges(selections@.take(i as int)),
        decreases selections.len() - i,
    {
        let r = rows_of_selection(buffer, &selections[i]);
        spans.push(r);
        i = i + 1;
    }
    assert(selections@.take(i as int) =~= selections@);
    assert(ascending_spans(spans@)) by {
        assert forall|a: int, b: int| 0 <= a < b < spans@.len() implies
            #[trigger] spans@[a].start <= #[trigger] spans@[b].start by {
            assert(point_le(selections@[a].start, selections@[b].start));
        }
    }
    let ranges = normalize_row_ranges(&spans);
    let ghost rows = rows_from(ranges@, 0);
    let mut j: usize = ranges.len();
    while j > 0
        invariant
            j <= ranges@.len(),
            ls == buffer@,
            buffer.wf(),
            forall|x: int| covers(spans@, x) ==> x < ls.len(),
            forall|x: int| covers(spans@, x) <==> #[trigger] covers(ranges@, x),
            separated(ranges@),
            edits@.len() == rows_from(ranges@, j as int).len(),
            cursors@.len() == edits@.len(),
            forall|k: int| 0 <= k < edits@.len() ==> is_join_edit(ls, rows_from(ranges@, j as int)[k], #[trigger] edits@[k]),
            forall|k: int| 0 <= k < cursors@.len() ==> #[trigger] cursors@[k] == join_cursor(ls, rows_from(ranges@, j as int)[k]),
        decreases j,
    {
        j = j - 1;
        let range = ranges[j];
        let ghost done = rows_from(ranges@, j + 1);
        assert(rows_from(ranges@, j as int) == done + range_rows_desc(range));
        let mut row: usize = range.end;
        while row > range.start
            invariant
                range.start <= row <= range.end,
                range == ranges@[j as int],
                j < ranges@.len(),
                ls == buffer@,
                buffer.wf(),
                forall|x: int| covers(spans@, x) ==> x < ls.len(),
                forall|x: int| covers(spans@, x) <==> #[trigger] covers(ranges@, x),
                edits@.len() == done.len() + (range.end - row),
                cursors@.len() == edits@.len(),
                forall|k: int| 0 <= k < edits@.len() ==> is_join_edit(ls, (done + range_rows_desc(range))[k], #[trigger] edits@[k]),
                forall|k: int| 0 <= k < cursors@.len() ==> #[trigger] cursors@[k] == join_cursor(ls, (done + range_rows_desc(range))[k]),
            decreases row,
        {
            row = row - 1;
            assert(ranges@[j as int].contains(row as int));
            assert(covers(ranges@, row as int));
            let len = buffer.line_len(row);
            let joint = Point::new(row, len);
            if row + 1 < buffer.line_count() {
                let next = row + 1;
                let indent = buffer.indent_len(next);
                let text: Vec<char> = if buffer.line_len(next) > indent { vec![' '] } else { Vec::new() };
                proof {
                    if buffer@[next as int].len() > indent_of(buffer@[next as int]) {
                        assert(text@ =~= seq![' ']);
                    } else {
                        assert(text@ =~= Seq::<char>::empty());
                    }
                }
                edits.push(Edit { start: joint, end: Point::new(next, indent), text });
                cursors.push(AnchoredRange { start: joint, end: Point::new(next, indent) });
            } else {
                let text: Vec<char> = Vec::new();
                assert(text@ =~= Seq::<char>::empty());
                edits.push(Edit { start: joint, end: joint, text });
                cursors.push(AnchoredRange { start: joint, end: joint });
            }
        }
    }
    let ghost visited = cursors@;
    let mut ascending: Vec<AnchoredRange> = Vec::new();
    let mut k: usize = cursors.len();
    while k > 0
        invariant
            k <= visited.len(),
            cursors@ == visited,
            ascending@.len() == visited.len() - k,
            forall|m: int| 0 <= m < ascending@.len() ==> #[trigger] ascending@[m] == visited[visited.len() - 1 - m],
        decreases k,
    {
        k = k - 1;
        ascending.push(cursors[k]);
    }
    proof {
        lemma_join_order(buffer@, selections@);
        let rows = join_rows(selections@);
        assert forall|a: int, b: int| 0 <= a < b < ascending@.len()
            implies #[trigger] ascending@[a].start.row < #[trigger] ascending@[b].start.row by {
            let ra = rows[rows.len() - 1 - a];
            let rb = rows[rows.len() - 1 - b];
            assert(rb > ra);
            assert(ascending@[a] == join_cursor(ls, ra));
            assert(ascending@[b] == join_cursor(ls, rb));
        }
    }
    JoinPlan { edits, selections: ascending }
}

} // verus!
