use vstd::prelude::*;
use crate::geometry::RowRange;

verus! {

/// Each range is well formed and the starts never decrease.
pub open spec fn ascending_spans(rs: Seq<RowRange>) -> bool {
    &&& forall|i: int| 0 <= i < rs.len() ==> #[trigger] rs[i].start <= rs[i].end
    &&& forall|i: int, j: int| 0 <= i < j < rs.len() ==> #[trigger] rs[i].start <= #[trigger] rs[j].start
}

/// Each range is well formed and every range ends strictly before the next one
/// starts: the ranges are ascending, pairwise disjoint and never adjacent.
pub open spec fn separated(rs: Seq<RowRange>) -> bool {
    &&& forall|i: int| 0 <= i < rs.len() ==> #[trigger] rs[i].start <= rs[i].end
    &&& forall|i: int, j: int| 0 <= i < j < rs.len() ==> #[trigger] rs[i].end < #[trigger] rs[j].start
}

/// Some range of `rs` holds `row`.
pub open spec fn covers(rs: Seq<RowRange>, row: int) -> bool {
    exists|i: int| 0 <= i < rs.len() && #[trigger] rs[i].contains(row)
}

/// One left-to-right merging pass: a range that starts at or before the end of
/// the last accumulated range extends it, any other range is appended.
pub open spec fn normalized(rs: Seq<RowRange>) -> Seq<RowRange>
    decreases rs.len(),
{
    if rs.len() == 0 {
        Seq::empty()
    } else {
        let prev = normalized(rs.drop_last());
        let r = rs.last();
        if prev.len() > 0 && r.start <= prev.last().end {
            let last = prev.last();
            let end = if last.end >= r.end { last.end } else { r.end };
            prev.update(prev.len() - 1, RowRange { start: last.start, end })
        } else {
            prev.push(r)
        }
    }
}

/// For ascending spans, the merged ranges are well formed, ascending, pairwise
/// disjoint and non-adjacent, and they hold exactly the rows of the input.
pub proof fn lemma_normalized_properties(rs: Seq<RowRange>)
    requires
        ascending_spans(rs),
    ensures
        separated(normalized(rs)),
        forall|row: int| covers(rs, row) <==> #[trigger] covers(normalized(rs), row),
        normalized(rs).len() <= rs.len(),
        rs.len() > 0 ==> normalized(rs).len() > 0 && normalized(rs).last().start <= rs.last().start,
    decreases rs.len(),
{
    if rs.len() > 0 {
        let init = rs.drop_last();
        assert(ascending_spans(init));
        lemma_normalized_properties(init);
        let prev = normalized(init);
        let r = rs.last();
        let out = normalized(rs);
        if init.len() > 0 {
            assert(init.last() == rs[rs.len() - 2]);
            assert(rs[rs.len() - 2].start <= r.start);
        }
        if prev.len() > 0 && r.start <= prev.last().end {
            assert forall|row: int| covers(rs, row) <==> #[trigger] covers(out, row) by {
                if covers(rs, row) {
                    let i = choose|i: int| 0 <= i < rs.len() && #[trigger] rs[i].contains(row);
                    if i < rs.len() - 1 {
                        assert(init[i].contains(row));
                        assert(covers(prev, row));
                        let j = choose|j: int| 0 <= j < prev.len() && #[trigger] prev[j].contains(row);
                        assert(out[j].contains(row));
                    } else {
                        if row < prev.last().end {
                            assert(out[prev.len() - 1].contains(row));
                        } else {
                            assert(out[prev.len() - 1].contains(row));
                        }
                    }
                }
                if covers(out, row) {
                    let j = choose|j: int| 0 <= j < out.len() && #[trigger] out[j].contains(row);
                    if j < out.len() - 1 {
                        assert(prev[j].contains(row));
                        assert(covers(prev, row));
                    } else if row < prev.last().end {
                        assert(prev[j].contains(row));
                        assert(covers(prev, row));
                    } else {
                        assert(rs[rs.len() - 1].contains(row));
                    }
                    if covers(prev, row) {
                        let i = choose|i: int| 0 <= i < init.len() && #[trigger] init[i].contains(row);
                        assert(rs[i].contains(row));
                    }
                }
            }
        } else {
            assert forall|row: int| covers(rs, row) <==> #[trigger] covers(out, row) by {
                if covers(rs, row) {
                    let i = choose|i: int| 0 <= i < rs.len() && #[trigger] rs[i].contains(row);
                    if i < rs.len() - 1 {
                        assert(init[i].contains(row));
                        assert(covers(prev, row));
                        let j = choose|j: int| 0 <= j < prev.len() && #[trigger] prev[j].contains(row);
                        assert(out[j].contains(row));
                    } else {
                        assert(out[out.len() - 1].contains(row));
                    }
                }
                if covers(out, row) {
                    let j = choose|j: int| 0 <= j < out.len() && #[trigger] out[j].contains(row);
                    if j < out.len() - 1 {
                        assert(prev[j].contains(row));
                        assert(covers(prev, row));
                        assert(covers(init, row));
                        let i = choose|i: int| 0 <= i < init.len() && #[trigger] init[i].contains(row);
                        assert(rs[i].contains(row));
                    } else {
                        assert(rs[rs.len() - 1].contains(row));
                    }
                }
            }
        }
    }
}

/// Merges per-selection row spans, given in ascending order of their starts,
/// into ascending, disjoint, non-adjacent ranges that cover the same rows.
/// The input order is relied on, not restored: no sorting takes place.
pub fn normalize_row_ranges(ranges: &Vec<RowRange>) -> (out: Vec<RowRange>)
    requires
        ascending_spans(ranges@),
    ensures
        out@ == normalized(ranges@),
        separated(out@),
        forall|row: int| covers(ranges@, row) <==> #[trigger] covers(out@, row),
        out@.len() <= ranges@.len(),
{
    let mut out: Vec<RowRange> = Vec::new();
    let mut i: usize = 0;
    while i < ranges.len()
        invariant
            i <= ranges.len(),
            out@ == normalized(ranges@.take(i as int)),
        decreases ranges.len() - i,
    {
        let r = ranges[i];
        assert(ranges@.take(i + 1).drop_last() =~= ranges@.take(i as int));
        let n = out.len();
        if n > 0 && r.start <= out[n - 1].end {
            let last = out[n - 1];
            let end = if last.end >= r.end { last.end } else { r.end };
            out.set(n - 1, RowRange { start: last.start, end });
        } else {
            out.push(r);
        }
        i = i + 1;
    }
    assert(ranges@.take(ranges.len() as int) =~= ranges@);
    proof {
        lemma_normalized_properties(ranges@);
    }
    out
}

} // verus!
