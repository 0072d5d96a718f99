use vstd::prelude::*;
use crate::geometry::{Point, point_le};

verus! {

/// Characters that make up a line's indentation.
pub open spec fn is_indent_char(c: char) -> bool {
    c == ' ' || c == '\t'
}

/// Length of the run of spaces and tabs that opens `line`.
pub open spec fn indent_of(line: Seq<char>) -> nat
    decreases line.len(),
{
    if line.len() > 0 && is_indent_char(line[0]) {
        1 + indent_of(line.drop_first())
    } else {
        0
    }
}

/// The indentation is made of indent characters only, and whatever follows it
/// is not one.
pub proof fn lemma_indent_of(line: Seq<char>)
    ensures
        indent_of(line) <= line.len(),
        forall|k: int| 0 <= k < indent_of(line) ==> is_indent_char(#[trigger] line[k]),
        indent_of(line) < line.len() ==> !is_indent_char(line[indent_of(line) as int]),
    decreases line.len(),
{
    if line.len() > 0 && is_indent_char(line[0]) {
        let rest = line.drop_first();
        lemma_indent_of(rest);
        assert forall|k: int| 0 <= k < indent_of(line) implies is_indent_char(#[trigger] line[k]) by {
            if k > 0 {
                assert(line[k] == rest[k - 1]);
            }
        }
    }
}

/// A line is blank when nothing but indentation is on it.
pub open spec fn is_blank(line: Seq<char>) -> bool {
    indent_of(line) == line.len()
}

/// No line holds a line break, and there is at least one line.
pub open spec fn lines_wf(ls: Seq<Seq<char>>) -> bool {
    &&& 1 <= ls.len() <= usize::MAX
    &&& forall|i: int| 0 <= i < ls.len() ==> #[trigger] ls[i].len() <= usize::MAX
    &&& forall|i: int, k: int| 0 <= i < ls.len() && 0 <= k < ls[i].len() ==> #[trigger] ls[i][k] != '\n'
}

/// The buffer's text: its lines joined by line breaks.
pub open spec fn text_of(ls: Seq<Seq<char>>) -> Seq<char>
    decreases ls.len(),
{
    if ls.len() == 0 {
        Seq::empty()
    } else if ls.len() == 1 {
        ls[0]
    } else {
        text_of(ls.drop_last()) + seq!['\n'] + ls.last()
    }
}

/// `p` names a row of the buffer and a column within or at the end of that row.
pub open spec fn valid_point(ls: Seq<Seq<char>>, p: Point) -> bool {
    p.row < ls.len() && p.column <= ls[p.row as int].len()
}

/// The last position of the buffer.
pub open spec fn max_point_of(ls: Seq<Seq<char>>) -> Point {
    Point { row: (ls.len() - 1) as usize, column: ls.last().len() as usize }
}

/// The lines after replacing the text from `start` to `end` with `text`, which
/// holds no line break.
pub open spec fn replaced(ls: Seq<Seq<char>>, start: Point, end: Point, text: Seq<char>) -> Seq<Seq<char>> {
    ls.take(start.row as int).push(
        ls[start.row as int].take(start.column as int) + text + ls[end.row as int].skip(end.column as int),
    ) + ls.skip(end.row + 1)
}

/// The lines after breaking row `at.row` in two at column `at.column`.
pub open spec fn split_at(ls: Seq<Seq<char>>, at: Point) -> Seq<Seq<char>> {
    let line = ls[at.row as int];
    ls.take(at.row as int).push(line.take(at.column as int)).push(line.skip(at.column as int)) + ls.skip(
        at.row + 1,
    )
}

/// A frozen snapshot of a text buffer, held as its lines without their breaks.
#[derive(Debug)]
pub struct Buffer {
    lines: Vec<Vec<char>>,
}

spec fn rows_view(v: Seq<Vec<char>>) -> Seq<Seq<char>> {
    v.map_values(|l: Vec<char>| l@)
}

proof fn lemma_rows_bounded(v: &Vec<Vec<char>>)
    ensures
        rows_view(v@).len() <= usize::MAX,
        forall|i: int| 0 <= i < rows_view(v@).len() ==> #[trigger] rows_view(v@)[i].len() <= usize::MAX,
{
    assert(v.len() == v@.len());
    assert forall|i: int| 0 <= i < rows_view(v@).len() implies #[trigger] rows_view(v@)[i].len() <= usize::MAX by {
        assert(v@[i].len() == v@[i]@.len());
    }
}

impl View for Buffer {
    type V = Seq<Seq<char>>;

    closed spec fn view(&self) -> Seq<Seq<char>> {
        rows_view(self.lines@)
    }
}

/// Appends `src[from..to]` to `dst`.
fn extend_with(dst: &mut Vec<char>, src: &Vec<char>, from: usize, to: usize)
    requires
        from <= to <= src@.len(),
    ensures
        final(dst)@ == old(dst)@ + src@.subrange(from as int, to as int),
{
    let mut i: usize = from;
    while i < to
        invariant
            from <= i <= to <= src@.len(),
            dst@ == old(dst)@ + src@.subrange(from as int, i as int),
        decreases to - i,
    {
        dst.push(src[i]);
        assert(src@.subrange(from as int, i + 1) =~= src@.subrange(from as int, i as int).push(src@[i as int]));
        i = i + 1;
    }
}

impl Buffer {
    pub open spec fn wf(&self) -> bool {
        lines_wf(self@)
    }

    /// Splits `text` at its line breaks.
    pub fn from_text(text: &Vec<char>) -> (b: Buffer)
        ensures
            b.wf(),
            text_of(b@) == text@,
    {
        let mut lines: Vec<Vec<char>> = Vec::new();
        let mut cur: Vec<char> = Vec::new();
        let mut i: usize = 0;
        while i < text.len()
            invariant
                i <= text@.len(),
                text_of(rows_view(lines@).push(cur@)) == text@.take(i as int),
                forall|k: int| 0 <= k < cur@.len() ==> #[trigger] cur@[k] != '\n',
                forall|j: int, k: int|
                    0 <= j < lines@.len() && 0 <= k < lines@[j]@.len() ==> #[trigger] lines@[j]@[k] != '\n',
            decreases text.len() - i,
        {
            let c = text[i];
            let ghost rows = rows_view(lines@);
            let ghost old_lines = lines@;
            let ghost old_cur = cur@;
            let ghost before = rows.push(old_cur);
            if c == '\n' {
                let done = cur;
                lines.push(done);
                cur = Vec::new();
                proof {
                    assert(rows_view(lines@) =~= before);
                    let after = before.push(cur@);
                    assert(after.drop_last() =~= before);
                    assert(text_of(after) =~= text@.take(i + 1));
                    assert forall|j: int, k: int|
                        0 <= j < lines@.len() && 0 <= k < lines@[j]@.len() implies #[trigger] lines@[j]@[k] != '\n' by {
                        if j < old_lines.len() {
                            assert(lines@[j] == old_lines[j]);
                        }
                    }
                }
            } else {
                cur.push(c);
                proof {
                    let after = rows.push(cur@);
                    assert(rows_view(lines@) == rows);
                    assert(after.drop_last() =~= rows);
                    assert(before.drop_last() =~= rows);
                    if rows.len() == 0 {
                        assert(text_of(after) == cur@);
                        assert(text_of(before) == old_cur);
                    } else {
                        assert(text_of(after) == text_of(rows) + seq!['\n'] + cur@);
                        assert(text_of(before) == text_of(rows) + seq!['\n'] + old_cur);
                    }
                    assert(text_of(after) =~= text_of(before).push(c));
                    assert(text@.take(i + 1) =~= text@.take(i as int).push(c));
                }
            }
            i = i + 1;
        }
        let ghost rows = rows_view(lines@);
        let ghost old_lines = lines@;
        lines.push(cur);
        proof {
            assert(rows_view(lines@) =~= rows.push(cur@));
            lemma_rows_bounded(&lines);
            assert(text@.take(text@.len() as int) =~= text@);
            assert forall|j: int, k: int|
                0 <= j < rows_view(lines@).len() && 0 <= k < rows_view(lines@)[j].len()
                    implies #[trigger] rows_view(lines@)[j][k] != '\n' by {
                if j < old_lines.len() {
                    assert(lines@[j] == old_lines[j]);
                }
            }
        }
        Buffer { lines }
    }

    /// Joins the lines with line breaks.
    pub fn text(&self) -> (t: Vec<char>)
        requires
            self.wf(),
        ensures
            t@ == text_of(self@),
    {
        let mut t: Vec<char> = Vec::new();
        let first = &self.lines[0];
        extend_with(&mut t, first, 0, first.len());
        assert(self@.take(1).drop_last() =~= Seq::<Seq<char>>::empty());
        assert(first@.subrange(0, first@.len() as int) =~= first@);
        let mut i: usize = 1;
        while i < self.lines.len()
            invariant
                1 <= i <= self@.len(),
                self@ == rows_view(self.lines@),
                t@ == text_of(self@.take(i as int)),
            decreases self.lines.len() - i,
        {
            t.push('\n');
            let line = &self.lines[i];
            extend_with(&mut t, line, 0, line.len());
            assert(self@.take(i + 1).drop_last() =~= self@.take(i as int));
            assert(line@.subrange(0, line@.len() as int) =~= line@);
            i = i + 1;
        }
        assert(self@.take(i as int) =~= self@);
        t
    }

    pub fn line_count(&self) -> (n: usize)
        ensures
            n == self@.len(),
    {
        self.lines.len()
    }

    /// Length of row `row`.
    pub fn line_len(&self, row: usize) -> (n: usize)
        requires
            row < self@.len(),
        ensures
            n == self@[row as int].len(),
    {
        self.lines[row].len()
    }

    /// Length of the indentation of row `row`.
    pub fn indent_len(&self, row: usize) -> (n: usize)
        requires
            row < self@.len(),
        ensures
            n == indent_of(self@[row as int]),
    {
        let line = &self.lines[row];
        assert(line@.skip(0) =~= line@);
        let mut n: usize = 0;
        while n < line.len() && (line[n] == ' ' || line[n] == '\t')
            invariant
                n <= line@.len(),
                line@ == self@[row as int],
                indent_of(line@) == n + indent_of(line@.skip(n as int)),
            decreases line.len() - n,
        {
            let ghost rest = line@.skip(n as int);
            assert(rest.drop_first() =~= line@.skip(n + 1));
            n = n + 1;
        }
        n
    }

    /// The last position of the buffer.
    pub fn max_point(&self) -> (p: Point)
        requires
            self.wf(),
        ensures
            p == max_point_of(self@),
    {
        let last = self.lines.len() - 1;
        Point { row: last, column: self.lines[last].len() }
    }

    /// Replaces the text from `start` to `end` with `text`, which holds no line break.
    pub fn replace(&mut self, start: Point, end: Point, text: &Vec<char>)
        requires
            old(self).wf(),
            valid_point(old(self)@, start),
            valid_point(old(self)@, end),
            point_le(start, end),
            forall|k: int| 0 <= k < text@.len() ==> #[trigger] text@[k] != '\n',
        ensures
            final(self).wf(),
            final(self)@ == replaced(old(self)@, start, end, text@),
    {
        let ghost ls = self@;
        assert(self.lines@[start.row as int]@ == ls[start.row as int]);
        assert(self.lines@[end.row as int]@ == ls[end.row as int]);
        let mut mid: Vec<char> = Vec::new();
        extend_with(&mut mid, &self.lines[start.row], 0, start.column);
        extend_with(&mut mid, text, 0, text.len());
        let tail = &self.lines[end.row];
        extend_with(&mut mid, tail, end.column, tail.len());
        assert(text@.subrange(0, text@.len() as int) =~= text@);
        assert(ls[start.row as int].subrange(0, start.column as int) =~= ls[start.row as int].take(start.column as int));
        assert(ls[end.row as int].subrange(end.column as int, ls[end.row as int].len() as int)
            =~= ls[end.row as int].skip(end.column as int));
        let mut k: usize = start.row;
        assert(ls.take(start.row + 1) + ls.skip(start.row + 1) =~= ls);
        while k < end.row
            invariant
                start.row <= k <= end.row,
                end.row < ls.len(),
                self.lines@.len() == start.row + 1 + ls.len() - (k + 1),
                rows_view(self.lines@) == ls.take(start.row + 1) + ls.skip(k + 1),
            decreases end.row - k,
        {
            let ghost prev = self.lines@;
            self.lines.remove(start.row + 1);
            assert(rows_view(self.lines@) =~= ls.take(start.row + 1) + ls.skip(k + 2)) by {
                assert forall|j: int| 0 <= j < self.lines@.len() implies
                    #[trigger] rows_view(self.lines@)[j] == (ls.take(start.row + 1) + ls.skip(k + 2))[j] by {
                    if j <= start.row {
                        assert(self.lines@[j] == prev[j]);
                        assert(rows_view(prev)[j] == prev[j]@);
                    } else {
                        assert(self.lines@[j] == prev[j + 1]);
                        assert(rows_view(prev)[j + 1] == prev[j + 1]@);
                    }
                }
            }
            k = k + 1;
        }
        let ghost prev = self.lines@;
        self.lines.set(start.row, mid);
        proof {
            lemma_rows_bounded(&self.lines);
        }
        assert(self@ =~= replaced(ls, start, end, text@)) by {
            assert forall|j: int| 0 <= j < self.lines@.len() implies
                #[trigger] rows_view(self.lines@)[j] == replaced(ls, start, end, text@)[j] by {
                if j != start.row {
                    assert(self.lines@[j] == prev[j]);
                    assert(rows_view(prev)[j] == prev[j]@);
                }
            }
        }
        assert forall|i: int, c: int| 0 <= i < self@.len() && 0 <= c < self@[i].len()
            implies #[trigger] self@[i][c] != '\n' by {
            if i == start.row {
                let p = ls[start.row as int].take(start.column as int);
                if c < p.len() {
                    assert(self@[i][c] == ls[start.row as int][c]);
                } else if c < p.len() + text@.len() {
                    assert(self@[i][c] == text@[c - p.len()]);
                } else {
                    assert(self@[i][c] == ls[end.row as int][c - p.len() - text@.len() + end.column]);
                }
            } else if i > start.row {
                assert(self@[i] == ls[i + end.row - start.row]);
            }
        }
    }

    /// Inserts a line break at `at`.
    pub fn split_line(&mut self, at: Point)
        requires
            old(self).wf(),
            valid_point(old(self)@, at),
        ensures
            final(self).wf(),
            final(self)@ == split_at(old(self)@, at),
    {
        let ghost ls = self@;
        let line = &self.lines[at.row];
        assert(line@ == ls[at.row as int]);
        let mut head: Vec<char> = Vec::new();
        extend_with(&mut head, line, 0, at.column);
        let mut tail: Vec<char> = Vec::new();
        extend_with(&mut tail, line, at.column, line.len());
        assert(head@ =~= ls[at.row as int].take(at.column as int));
        assert(tail@ =~= ls[at.row as int].skip(at.column as int));
        let ghost prev = self.lines@;
        self.lines.set(at.row, head);
        self.lines.insert(at.row + 1, tail);
        proof {
            lemma_rows_bounded(&self.lines);
            assert forall|j: int| 0 <= j < self.lines@.len() implies
                #[trigger] rows_view(self.lines@)[j] == split_at(ls, at)[j] by {
                if j < at.row {
                    assert(self.lines@[j] == prev[j]);
                    assert(rows_view(prev)[j] == prev[j]@);
                } else if j > at.row + 1 {
                    assert(self.lines@[j] == prev[j - 1]);
                    assert(rows_view(prev)[j - 1] == prev[j - 1]@);
                }
            }
            assert(self@ =~= split_at(ls, at));
            assert forall|i: int, c: int| 0 <= i < self@.len() && 0 <= c < self@[i].len()
                implies #[trigger] self@[i][c] != '\n' by {
                if i < at.row {
                    assert(self@[i] == ls[i]);
                } else if i == at.row {
                    assert(self@[i][c] == ls[i][c]);
                } else if i == at.row + 1 {
                    assert(self@[i][c] == ls[at.row as int][c + at.column]);
                } else {
                    assert(self@[i] == ls[i - 1]);
                }
            }
        }
    }
}

} // verus!
