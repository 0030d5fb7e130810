//! Rows filled in parts.
//!
//! The instructions of a chip read, beside their own row, only the public and
//! global vectors and, at the following row, columns that no instruction
//! writes. So a run of rows can be filled on a copy of the trace without
//! anything that the other rows make, and the parts put together are the
//! trace that is filled row after row.

use crate::chip::{
    clear_of, generate, lemma_run_global, run_class, run_rows, scheduled, valid_registers, Chip,
    Shape,
};
use crate::error::WitnessError;
use crate::instruction::Instruction;
use crate::register::{MemorySlice, RegionKind};
use crate::trace::{lemma_write_shape, TraceHandle, TraceView};
use vstd::prelude::*;

verus! {

/// Whether a slice of the trace has column `c`.
pub open spec fn covers(s: MemorySlice, c: int) -> bool {
    s.kind.in_trace() && s.offset <= c < s.end()
}

/// Whether an instruction that is not global writes column `c`.
pub open spec fn written(instrs: Seq<Instruction>, c: int) -> bool {
    exists|k: int, i: int|
        0 <= k < instrs.len() && !instrs[k].global() && 0 <= i < instrs[k].writes().len()
            && #[trigger] covers(instrs[k].writes()[i], c)
}

/// Whether two traces of one shape are the same in all that writing row `r`
/// depends on: the public and global vectors, row `r` itself, and every
/// column that no instruction writes.
pub open spec fn agree(instrs: Seq<Instruction>, a: TraceView, b: TraceView, r: int) -> bool {
    &&& a.wf()
    &&& b.wf()
    &&& a.same_shape(b)
    &&& a.public == b.public
    &&& a.global == b.global
    &&& a.rows[r] == b.rows[r]
    &&& forall|r2: int, c: int|
        0 <= r2 < a.num_rows() && 0 <= c < a.width() && !written(instrs, c) ==> a.rows[r2][c]
            == b.rows[r2][c]
}

/// Whether a trace differs from another in row `r` at most, and there only
/// in columns that an instruction writes.
pub open spec fn touched_row_only(instrs: Seq<Instruction>, a: TraceView, b: TraceView,
    r: int) -> bool {
    &&& a.wf()
    &&& b.wf()
    &&& a.same_shape(b)
    &&& a.public == b.public
    &&& a.global == b.global
    &&& forall|r2: int| 0 <= r2 < a.num_rows() && r2 != r ==> a.rows[r2] == b.rows[r2]
    &&& forall|c: int|
        0 <= c < a.width() && !written(instrs, c) ==> a.rows[r][c] == b.rows[r][c]
}

/// A write to a slice of the current row changes that row alone, in the
/// columns of the slice alone, and makes of equal rows equal rows.
pub proof fn lemma_write_local(t: TraceView, t2: TraceView, s: MemorySlice, row: usize,
    vals: Seq<int>)
    requires
        t.wf(),
        t2.wf(),
        t.same_shape(t2),
        t.admits(s, Some(row)),
        s.kind is Local,
        vals.len() == s.len,
    ensures
        t.write(s, Some(row), vals).wf(),
        t.write(s, Some(row), vals).same_shape(t),
        t.write(s, Some(row), vals).public == t.public,
        t.write(s, Some(row), vals).global == t.global,
        forall|r2: int|
            0 <= r2 < t.num_rows() && r2 != row ==> t.write(s, Some(row), vals).rows[r2]
                == t.rows[r2],
        forall|c: int|
            0 <= c < t.width() && !covers(s, c) ==> t.write(s, Some(row), vals).rows[row as int][c]
                == t.rows[row as int][c],
        t.rows[row as int] == t2.rows[row as int] ==> t.write(s, Some(row), vals).rows[row as int]
            == t2.write(s, Some(row), vals).rows[row as int],
{
    lemma_write_shape(t, s, Some(row), vals);
    let u = t.write(s, Some(row), vals);
    assert(t.rows[row as int].len() == t.rows[0].len());
    if t.rows[row as int] == t2.rows[row as int] {
        assert(u.rows[row as int] =~= t2.write(s, Some(row), vals).rows[row as int]);
    }
}

/// Writes to slices of the current row change that row alone, in the columns
/// of the slices alone, and make of equal rows equal rows.
pub proof fn lemma_write_all_local(
    t: TraceView,
    t2: TraceView,
    slices: Seq<MemorySlice>,
    row: usize,
    vals: Seq<Seq<int>>,
)
    requires
        t.wf(),
        t2.wf(),
        t.same_shape(t2),
        t.admits_all(slices, Some(row), vals),
        forall|i: int| 0 <= i < slices.len() ==> (#[trigger] slices[i]).kind is Local,
    ensures
        t.write_all(slices, Some(row), vals).wf(),
        t.write_all(slices, Some(row), vals).same_shape(t),
        t2.admits_all(slices, Some(row), vals),
        t.write_all(slices, Some(row), vals).public == t.public,
        t.write_all(slices, Some(row), vals).global == t.global,
        forall|r2: int|
            0 <= r2 < t.num_rows() && r2 != row ==> t.write_all(slices, Some(row), vals).rows[r2]
                == t.rows[r2],
        forall|c: int|
            0 <= c < t.width() && (forall|i: int|
                0 <= i < slices.len() ==> !covers(#[trigger] slices[i], c)) ==> t.write_all(
                slices,
                Some(row),
                vals,
            ).rows[row as int][c] == t.rows[row as int][c],
        t.rows[row as int] == t2.rows[row as int] ==> t.write_all(
            slices,
            Some(row),
            vals,
        ).rows[row as int] == t2.write_all(slices, Some(row), vals).rows[row as int],
    decreases slices.len(),
{
    assert(t2.admits_all(slices, Some(row), vals)) by {
        assert forall|i: int| 0 <= i < slices.len() implies t2.admits(
            #[trigger] slices[i],
            Some(row),
        ) && vals[i].len() == slices[i].len by {
            assert(t.admits(slices[i], Some(row)));
        }
    }
    if slices.len() > 0 {
        let s1 = slices.drop_last();
        let v1 = vals.drop_last();
        let last = slices[slices.len() - 1];
        assert(t.admits_all(s1, Some(row), v1)) by {
            assert forall|i: int| 0 <= i < s1.len() implies t.admits(#[trigger] s1[i], Some(row))
                && v1[i].len() == s1[i].len by {
                assert(s1[i] == slices[i]);
            }
        }
        assert forall|i: int| 0 <= i < s1.len() implies (#[trigger] s1[i]).kind is Local by {
            assert(s1[i] == slices[i]);
        }
        lemma_write_all_local(t, t2, s1, row, v1);
        let mid = t.write_all(s1, Some(row), v1);
        let mid2 = t2.write_all(s1, Some(row), v1);
        crate::trace::lemma_write_all_shape(t2, s1, Some(row), v1);
        assert(t.admits(last, Some(row)));
        assert(mid.admits(last, Some(row)));
        lemma_write_local(mid, mid2, last, row, vals.last());
        let u = t.write_all(slices, Some(row), vals);
        assert forall|c: int|
            0 <= c < t.width() && (forall|i: int|
                0 <= i < slices.len()
                    ==> !covers(#[trigger] slices[i], c)) implies u.rows[row as int][c]
            == t.rows[row as int][c] by {
            assert(!covers(slices[slices.len() - 1], c));
            assert forall|i: int| 0 <= i < s1.len() implies !covers(#[trigger] s1[i], c) by {
                assert(s1[i] == slices[i]);
                assert(!covers(slices[i], c));
            }
        }
    }
}

/// Writing an instruction that is not global at a row changes that row alone,
/// in written columns alone.
pub proof fn lemma_step_touches_row(
    instrs: Seq<Instruction>,
    shape: Shape,
    t: TraceView,
    k: int,
    row: usize,
)
    requires
        scheduled(instrs, shape),
        shape.fits(t),
        0 <= k < instrs.len(),
        !instrs[k].global(),
        instrs[k].step(t, Some(row)) is Ok,
    ensures
        shape.fits(instrs[k].step(t, Some(row)).unwrap()),
        touched_row_only(instrs, instrs[k].step(t, Some(row)).unwrap(), t, row as int),
{
    let x = instrs[k];
    assert(valid_registers(x, shape));
    x.lemma_step_writes(t, Some(row));
    assert(!x.skips(Some(row)));
    let wr = x.writes();
    let vals = x.computed(t, Some(row));
    lemma_write_all_local(t, t, wr, row, vals);
    let u = t.write_all(wr, Some(row), vals);
    assert forall|c: int| 0 <= c < t.width() && !written(instrs, c) implies u.rows[row as int][c]
        == t.rows[row as int][c] by {
        assert forall|i: int| 0 <= i < wr.len() implies !covers(#[trigger] wr[i], c) by {
            if covers(wr[i], c) {
                assert(covers(instrs[k].writes()[i], c));
            }
        }
    }
}

/// What an instruction reads at a row is the same in two traces that agree on
/// the row.
pub proof fn lemma_agree_reads(
    instrs: Seq<Instruction>,
    shape: Shape,
    a: TraceView,
    b: TraceView,
    k: int,
    row: usize,
    j: int,
)
    requires
        scheduled(instrs, shape),
        shape.fits(a),
        agree(instrs, a, b, row as int),
        row < a.num_rows(),
        0 <= k < instrs.len(),
        0 <= j < instrs[k].reads().len(),
        a.admits(instrs[k].reads()[j], Some(row)),
    ensures
        a.view_at(Some(row)).values(instrs[k].reads()[j]) == b.view_at(Some(row)).values(
            instrs[k].reads()[j],
        ),
{
    let x = instrs[k];
    let s = x.reads()[j];
    let wa = a.view_at(Some(row));
    let wb = b.view_at(Some(row));
    assert(valid_registers(x, shape));
    x.lemma_well_placed();
    assert(x.footprint()[j] == s);
    match s.kind {
        RegionKind::Next => {
            let n = a.next_row(row as int);
            assert(b.next_row(row as int) == n);
            assert forall|i: int| 0 <= i < s.len implies wa.cell(s, i) == wb.cell(s, i) by {
                let c = s.offset + i;
                if written(instrs, c) {
                    let (k2, i2) = choose|k2: int, i2: int|
                        0 <= k2 < instrs.len() && !instrs[k2].global() && 0 <= i2
                            < instrs[k2].writes().len() && #[trigger] covers(
                            instrs[k2].writes()[i2],
                            c,
                        );
                    let y = instrs[k2];
                    let ws = y.writes()[i2];
                    assert(ws.overlaps(&s) && s.overlaps(&ws));
                    assert(y.footprint()[y.reads().len() + i2] == ws);
                    if k2 < k {
                        assert(clear_of(instrs[k], instrs[k2]));
                        assert(!x.reads()[j].overlaps(&y.writes()[i2]));
                    } else if k2 == k {
                        assert(!x.writes()[i2].overlaps(&x.reads()[j]));
                    } else {
                        assert(clear_of(instrs[k2], instrs[k]));
                        assert(!y.writes()[i2].overlaps(&x.footprint()[j]));
                    }
                }
                assert(a.rows[n][c] == b.rows[n][c]);
            }
            assert(wa.values(s) =~= wb.values(s));
        },
        _ => {
            assert(wa.values(s) =~= wb.values(s));
        },
    }
}

/// Writing an instruction at a row of two traces that agree on the row gives
/// traces that agree on the row.
pub proof fn lemma_step_agrees(
    instrs: Seq<Instruction>,
    shape: Shape,
    a: TraceView,
    b: TraceView,
    k: int,
    row: usize,
)
    requires
        scheduled(instrs, shape),
        shape.fits(a),
        shape.fits(b),
        agree(instrs, a, b, row as int),
        row < a.num_rows(),
        0 <= k < instrs.len(),
        !instrs[k].global(),
        instrs[k].step(a, Some(row)) is Ok,
    ensures
        instrs[k].step(b, Some(row)) is Ok,
        shape.fits(instrs[k].step(a, Some(row)).unwrap()),
        shape.fits(instrs[k].step(b, Some(row)).unwrap()),
        agree(
            instrs,
            instrs[k].step(a, Some(row)).unwrap(),
            instrs[k].step(b, Some(row)).unwrap(),
            row as int,
        ),
{
    let x = instrs[k];
    assert(valid_registers(x, shape));
    assert forall|j: int|
        0 <= j < x.reads().len() && a.admits(#[trigger] x.reads()[j], Some(row)) implies a.view_at(
        Some(row),
    ).values(x.reads()[j]) == b.view_at(Some(row)).values(x.reads()[j]) by {
        lemma_agree_reads(instrs, shape, a, b, k, row, j);
    }
    x.lemma_step_congruent(a, b, Some(row));
    x.lemma_step_writes(a, Some(row));
    x.lemma_step_writes(b, Some(row));
    let wr = x.writes();
    let vals = x.computed(a, Some(row));
    lemma_write_all_local(a, b, wr, row, vals);
    lemma_step_touches_row(instrs, shape, a, k, row);
    lemma_step_touches_row(instrs, shape, b, k, row);
}

/// Writing a row of two traces that agree on the row gives traces that agree
/// on the row, each changed in that row alone.
pub proof fn lemma_row_agrees(
    instrs: Seq<Instruction>,
    shape: Shape,
    a: TraceView,
    b: TraceView,
    row: usize,
    n: nat,
)
    requires
        scheduled(instrs, shape),
        shape.fits(a),
        shape.fits(b),
        agree(instrs, a, b, row as int),
        row < a.num_rows(),
        n <= instrs.len(),
        run_class(instrs, a, row, false, n) is Ok,
    ensures
        run_class(instrs, b, row, false, n) is Ok,
        shape.fits(run_class(instrs, a, row, false, n).unwrap()),
        shape.fits(run_class(instrs, b, row, false, n).unwrap()),
        agree(
            instrs,
            run_class(instrs, a, row, false, n).unwrap(),
            run_class(instrs, b, row, false, n).unwrap(),
            row as int,
        ),
        touched_row_only(instrs, run_class(instrs, a, row, false, n).unwrap(), a, row as int),
        touched_row_only(instrs, run_class(instrs, b, row, false, n).unwrap(), b, row as int),
    decreases n,
{
    if n > 0 {
        lemma_row_agrees(instrs, shape, a, b, row, (n - 1) as nat);
        let a1 = run_class(instrs, a, row, false, (n - 1) as nat).unwrap();
        let b1 = run_class(instrs, b, row, false, (n - 1) as nat).unwrap();
        if !instrs[n - 1].global() {
            lemma_step_agrees(instrs, shape, a1, b1, n - 1, row);
            lemma_step_touches_row(instrs, shape, a1, n - 1, row);
            lemma_step_touches_row(instrs, shape, b1, n - 1, row);
        }
    }
}

/// Whether a trace is a base trace with some of the rows from `start` up to,
/// but not including, `end` filled: it has the vectors of the base, its rows
/// outside the run are those of the base, and so are the columns that no
/// instruction writes.
pub open spec fn filled_within(
    instrs: Seq<Instruction>,
    t: TraceView,
    base: TraceView,
    start: int,
    end: int,
) -> bool {
    &&& t.wf()
    &&& t.same_shape(base)
    &&& t.public == base.public
    &&& t.global == base.global
    &&& forall|r: int| 0 <= r < t.num_rows() && !(start <= r < end) ==> t.rows[r] == base.rows[r]
    &&& forall|r: int, c: int|
        0 <= r < t.num_rows() && 0 <= c < t.width() && !written(instrs, c) ==> t.rows[r][c]
            == base.rows[r][c]
}

/// Independence of rows: a run of rows filled on the base trace alone holds,
/// in each of its rows, what the trace filled row after row from the first
/// row holds there.
pub proof fn lemma_rows_independent(
    instrs: Seq<Instruction>,
    shape: Shape,
    base: TraceView,
    start: int,
    end: int,
)
    requires
        scheduled(instrs, shape),
        shape.fits(base),
        base.num_rows() <= usize::MAX,
        0 <= start <= end <= base.num_rows(),
        run_rows(instrs, base, 0, end) is Ok,
    ensures
        run_rows(instrs, base, start, end) is Ok,
        shape.fits(run_rows(instrs, base, 0, end).unwrap()),
        shape.fits(run_rows(instrs, base, start, end).unwrap()),
        filled_within(instrs, run_rows(instrs, base, 0, end).unwrap(), base, 0, end),
        filled_within(instrs, run_rows(instrs, base, start, end).unwrap(), base, start, end),
        forall|r: int|
            start <= r < end ==> run_rows(instrs, base, start, end).unwrap().rows[r] == run_rows(
                instrs,
                base,
                0,
                end,
            ).unwrap().rows[r],
    decreases end,
{
    if end == 0 {
    } else if end == start {
        lemma_rows_independent(instrs, shape, base, 0, end - 1);
        let s1 = run_rows(instrs, base, 0, end - 1).unwrap();
        lemma_row_agrees(instrs, shape, s1, s1, (end - 1) as usize, instrs.len());
    } else {
        lemma_rows_independent(instrs, shape, base, start, end - 1);
        let s1 = run_rows(instrs, base, 0, end - 1).unwrap();
        let p1 = run_rows(instrs, base, start, end - 1).unwrap();
        let row = (end - 1) as usize;
        assert(s1.rows[row as int] == base.rows[row as int]);
        assert(p1.rows[row as int] == base.rows[row as int]);
        lemma_row_agrees(instrs, shape, s1, p1, row, instrs.len());
    }
}

/// A run of rows filled on the base trace alone joins the rows filled before
/// it: if the rows before the run can be filled, and the run can be filled on
/// the base trace, then the rows up to the end of the run can be filled row
/// after row, and hold in the rows of the run what the run holds there.
pub proof fn lemma_part_joins(
    instrs: Seq<Instruction>,
    shape: Shape,
    base: TraceView,
    start: int,
    end: int,
)
    requires
        scheduled(instrs, shape),
        shape.fits(base),
        base.num_rows() <= usize::MAX,
        0 <= start <= end <= base.num_rows(),
        run_rows(instrs, base, 0, start) is Ok,
        run_rows(instrs, base, start, end) is Ok,
    ensures
        run_rows(instrs, base, 0, end) is Ok,
        shape.fits(run_rows(instrs, base, 0, end).unwrap()),
        shape.fits(run_rows(instrs, base, start, end).unwrap()),
        filled_within(instrs, run_rows(instrs, base, 0, end).unwrap(), base, 0, end),
        filled_within(instrs, run_rows(instrs, base, start, end).unwrap(), base, start, end),
        forall|r: int|
            start <= r < end ==> run_rows(instrs, base, start, end).unwrap().rows[r] == run_rows(
                instrs,
                base,
                0,
                end,
            ).unwrap().rows[r],
    decreases end - start,
{
    if end == start {
        lemma_rows_independent(instrs, shape, base, start, start);
    } else {
        lemma_part_joins(instrs, shape, base, start, end - 1);
        let s1 = run_rows(instrs, base, 0, end - 1).unwrap();
        let p1 = run_rows(instrs, base, start, end - 1).unwrap();
        let row = (end - 1) as usize;
        assert(s1.rows[row as int] == base.rows[row as int]);
        assert(p1.rows[row as int] == base.rows[row as int]);
        lemma_row_agrees(instrs, shape, p1, s1, row, instrs.len());
    }
}

/// Rows that were filled stay as they are while later rows are filled.
pub proof fn lemma_rows_settle(
    instrs: Seq<Instruction>,
    shape: Shape,
    base: TraceView,
    m: int,
    end: int,
)
    requires
        scheduled(instrs, shape),
        shape.fits(base),
        base.num_rows() <= usize::MAX,
        0 <= m <= end <= base.num_rows(),
        run_rows(instrs, base, 0, end) is Ok,
    ensures
        run_rows(instrs, base, 0, m) is Ok,
        forall|r: int|
            0 <= r < m ==> run_rows(instrs, base, 0, end).unwrap().rows[r] == run_rows(
                instrs,
                base,
                0,
                m,
            ).unwrap().rows[r],
    decreases end - m,
{
    if m < end {
        lemma_rows_settle(instrs, shape, base, m, end - 1);
        lemma_rows_independent(instrs, shape, base, 0, end - 1);
        let s1 = run_rows(instrs, base, 0, end - 1).unwrap();
        lemma_row_agrees(instrs, shape, s1, s1, (end - 1) as usize, instrs.len());
    }
}

/// A run of rows filled on a copy of a base trace.
#[derive(Debug)]
pub struct RowsPart {
    /// The first row of the run.
    pub start: usize,
    /// One past the last row of the run.
    pub end: usize,
    /// The copy of the base trace with the rows of the run filled.
    pub trace: TraceHandle,
}

/// Whether the parts, in order, are runs of rows that follow each other from
/// the first row of the base trace to its last, each on a trace of the shape
/// of the base.
pub open spec fn covering(base: TraceView, parts: Seq<RowsPart>) -> bool {
    &&& forall|i: int|
        0 <= i < parts.len() ==> {
            &&& (#[trigger] parts[i]).start <= parts[i].end
            &&& parts[i].trace@.same_shape(base)
            &&& parts[i].trace@.wf()
            &&& parts[i].start == (if i == 0 {
                0
            } else {
                parts[i - 1].end as int
            })
        }
    &&& (if parts.len() == 0 {
        0
    } else {
        parts[parts.len() - 1].end as int
    }) == base.num_rows()
}

/// Whether each part holds the rows of its run as they are filled on the base
/// trace.
pub open spec fn parts_filled(instrs: Seq<Instruction>, base: TraceView,
    parts: Seq<RowsPart>) -> bool {
    forall|i: int|
        0 <= i < parts.len() ==> run_rows(
            instrs,
            base,
            (#[trigger] parts[i]).start as int,
            parts[i].end as int,
        ) == Ok::<TraceView, WitnessError>(parts[i].trace@)
}

/// Whether a trace is the base trace with the rows of the first `n` parts
/// taken from the parts.
pub open spec fn assembled(base: TraceView, parts: Seq<RowsPart>, n: int, t: TraceView) -> bool {
    &&& t.wf()
    &&& t.same_shape(base)
    &&& t.public == base.public
    &&& t.global == base.global
    &&& forall|i: int, r: int|
        0 <= i < n && (#[trigger] parts[i]).start <= r < parts[i].end ==> #[trigger] t.rows[r]
            == parts[i].trace@.rows[r]
    &&& forall|r: int|
        (if n == 0 {
            0
        } else {
            parts[n - 1].end as int
        }) <= r < base.num_rows() ==> #[trigger] t.rows[r] == base.rows[r]
}

/// A row of the parts put together holds what the trace filled row after row
/// holds there.
pub proof fn lemma_assembled_row(
    instrs: Seq<Instruction>,
    shape: Shape,
    base: TraceView,
    parts: Seq<RowsPart>,
    t: TraceView,
    r: int,
)
    requires
        scheduled(instrs, shape),
        shape.fits(base),
        base.num_rows() <= usize::MAX,
        covering(base, parts),
        parts_filled(instrs, base, parts),
        assembled(base, parts, parts.len() as int, t),
        0 <= r < base.num_rows(),
    ensures
        run_rows(instrs, base, 0, base.num_rows()) is Ok,
        run_rows(instrs, base, 0, base.num_rows()).unwrap().rows[r] == t.rows[r],
{
    let rows = base.num_rows();
    let i = lemma_part_of_row(base, parts, r);
    let p = parts[i];
    let start = p.start as int;
    let end = p.end as int;
    lemma_parts_join(instrs, shape, base, parts, parts.len() as int);
    lemma_parts_join(instrs, shape, base, parts, i);
    lemma_parts_bounded(base, parts, i);
    assert(run_rows(instrs, base, 0, start) is Ok);
    assert(run_rows(instrs, base, start, end) == Ok::<TraceView, WitnessError>(p.trace@));
    lemma_part_joins(instrs, shape, base, start, end);
    assert(run_rows(instrs, base, 0, end).unwrap().rows[r] == p.trace@.rows[r]);
    lemma_rows_settle(instrs, shape, base, end, rows);
    assert(t.rows[r] == parts[i].trace@.rows[r]);
}

/// Parallel fill equivalence: the parts of a covering, each filled on the
/// base trace alone, put together are the trace filled row after row.
pub proof fn lemma_assembled(
    instrs: Seq<Instruction>,
    shape: Shape,
    base: TraceView,
    parts: Seq<RowsPart>,
    t: TraceView,
)
    requires
        scheduled(instrs, shape),
        shape.fits(base),
        base.num_rows() <= usize::MAX,
        covering(base, parts),
        parts_filled(instrs, base, parts),
        assembled(base, parts, parts.len() as int, t),
    ensures
        run_rows(instrs, base, 0, base.num_rows()) == Ok::<TraceView, WitnessError>(t),
{
    let rows = base.num_rows();
    lemma_parts_join(instrs, shape, base, parts, parts.len() as int);
    let u = run_rows(instrs, base, 0, rows).unwrap();
    lemma_rows_independent(instrs, shape, base, 0, rows);
    assert(u.rows.len() == t.rows.len());
    assert forall|r: int| 0 <= r < rows implies u.rows[r] == t.rows[r] by {
        lemma_assembled_row(instrs, shape, base, parts, t, r);
    }
    assert(u.rows =~= t.rows);
    assert(u.public == t.public);
    assert(u.global == t.global);
}

/// Each row of the base trace lies in the run of one part of a covering.
pub proof fn lemma_part_of_row(base: TraceView, parts: Seq<RowsPart>, r: int) -> (i: int)
    requires
        covering(base, parts),
        0 <= r < base.num_rows(),
    ensures
        0 <= i < parts.len(),
        parts[i].start <= r < parts[i].end,
{
    lemma_part_search(base, parts, r, parts.len() as int)
}

/// A row below the end of the first `n` parts lies in the run of one of them.
pub proof fn lemma_part_search(base: TraceView, parts: Seq<RowsPart>, r: int, n: int) -> (i: int)
    requires
        covering(base, parts),
        1 <= n <= parts.len(),
        0 <= r < parts[n - 1].end,
    ensures
        0 <= i < n,
        parts[i].start <= r < parts[i].end,
    decreases n,
{
    if parts[n - 1].start <= r {
        n - 1
    } else {
        assert(n > 1) by {
            if n == 1 {
                assert(parts[0].start == 0);
            }
        }
        assert(parts[n - 1].start == parts[n - 2].end);
        lemma_part_search(base, parts, r, n - 1)
    }
}

/// The rows up to the end of the first `n` parts of a covering can be filled
/// row after row, if each part can be filled on the base trace.
pub proof fn lemma_parts_join(
    instrs: Seq<Instruction>,
    shape: Shape,
    base: TraceView,
    parts: Seq<RowsPart>,
    n: int,
)
    requires
        scheduled(instrs, shape),
        shape.fits(base),
        base.num_rows() <= usize::MAX,
        covering(base, parts),
        parts_filled(instrs, base, parts),
        0 <= n <= parts.len(),
    ensures
        run_rows(
            instrs,
            base,
            0,
            if n == 0 {
                0
            } else {
                parts[n - 1].end as int
            },
        ) is Ok,
        n > 0 ==> parts[n - 1].end <= base.num_rows(),
    decreases n,
{
    if n > 0 {
        lemma_parts_join(instrs, shape, base, parts, n - 1);
        lemma_parts_bounded(base, parts, n - 1);
        let p = parts[n - 1];
        assert(run_rows(instrs, base, p.start as int, p.end as int) is Ok);
        lemma_part_joins(instrs, shape, base, p.start as int, p.end as int);
    }
}

/// The run of each part of a covering ends within the rows of the base trace.
pub proof fn lemma_parts_bounded(base: TraceView, parts: Seq<RowsPart>, i: int)
    requires
        covering(base, parts),
        0 <= i < parts.len(),
    ensures
        parts[i].end <= base.num_rows(),
    decreases parts.len() - i,
{
    if i + 1 < parts.len() {
        lemma_parts_bounded(base, parts, i + 1);
        assert(parts[i + 1].start == parts[i].end);
    }
}

/// Executable form of `covering`.
pub fn is_covering(base: &TraceHandle, parts: &Vec<RowsPart>) -> (r: bool)
    requires
        base.wf(),
        forall|i: int| 0 <= i < parts@.len() ==> (#[trigger] parts@[i]).trace.wf(),
    ensures
        r == covering(base@, parts@),
{
    let rows: usize = base.num_rows();
    let width: usize = base.width();
    let num_public: usize = base.num_public();
    let num_global: usize = base.num_global();
    let mut next: usize = 0;
    let mut i: usize = 0;
    while i < parts.len()
        invariant
            i <= parts@.len(),
            base.wf(),
            rows == base@.num_rows(),
            width == base@.width(),
            num_public == base@.public.len(),
            num_global == base@.global.len(),
            forall|k: int| 0 <= k < parts@.len() ==> (#[trigger] parts@[k]).trace.wf(),
            next == (if i == 0 {
                0
            } else {
                parts@[i - 1].end as int
            }),
            forall|k: int|
                0 <= k < i ==> {
                    &&& (#[trigger] parts@[k]).start <= parts@[k].end
                    &&& parts@[k].trace@.same_shape(base@)
                    &&& parts@[k].trace@.wf()
                    &&& parts@[k].start == (if k == 0 {
                        0
                    } else {
                        parts@[k - 1].end as int
                    })
                },
        decreases parts.len() - i,
    {
        let p = &parts[i];
        proof {
            p.trace.lemma_wf();
        }
        let fits: bool = p.trace.num_rows() == rows && p.trace.width() == width
            && p.trace.num_public() == num_public && p.trace.num_global() == num_global;
        if p.start != next || p.start > p.end || !fits {
            return false;
        }
        next = p.end;
        i += 1;
    }
    next == rows
}

/// Copies a row of one trace to another trace of the same shape.
fn copy_row(trace: &mut TraceHandle, from: &TraceHandle, row: usize)
    requires
        old(trace).wf(),
        from.wf(),
        old(trace)@.same_shape(from@),
        row < from@.num_rows(),
    ensures
        final(trace).wf(),
        final(trace)@.wf(),
        final(trace)@.same_shape(old(trace)@),
        final(trace)@.public == old(trace)@.public,
        final(trace)@.global == old(trace)@.global,
        final(trace)@.rows[row as int] == from@.rows[row as int],
        forall|r: int|
            0 <= r < old(trace)@.num_rows() && r != row
                ==> final(trace)@.rows[r] == old(trace)@.rows[r],
{
    proof {
        trace.lemma_wf();
        from.lemma_wf();
    }
    let ghost before = trace@;
    let width: usize = trace.width();
    let whole = MemorySlice { kind: RegionKind::Local, offset: 0, len: width };
    assert(from@.rows[row as int].len() == from@.rows[0].len());
    assert(from@.admits(whole, Some(row)));
    let cells = from.read(&whole, Some(row));
    assert(cells is Some);
    let cells = cells.unwrap();
    proof {
        let vals = crate::trace::felts(cells@);
        assert(vals.len() == width);
        assert(vals =~= from@.rows[row as int]);
        assert(before.admits(whole, Some(row)));
    }
    let done = trace.write(&whole, &cells, Some(row));
    assert(done is Ok);
    proof {
        let vals = crate::trace::felts(cells@);
        lemma_write_local(before, before, whole, row, vals);
        assert(before.rows[row as int].len() == before.rows[0].len());
        assert(trace@.rows[row as int] =~= vals);
    }
}

impl Chip {
    /// Fills the rows from `start` up to, but not including, `end` on a copy
    /// of a base trace.
    pub fn fill_part(&self, base: &TraceHandle, start: usize, end: usize) -> (r: Result<
        RowsPart,
        WitnessError,
    >)
        requires
            base.wf(),
        ensures
            match r {
                Ok(p) => {
                    &&& p.start == start
                    &&& p.end == end
                    &&& p.trace.wf()
                    &&& run_rows(self.instrs(), base@, start as int, end as int) == Ok::<
                        TraceView,
                        WitnessError,
                    >(p.trace@)
                },
                Err(e) => run_rows(self.instrs(), base@, start as int, end as int) == Err::<
                    TraceView,
                    WitnessError,
                >(e),
            },
    {
        let mut trace = base.clone_trace();
        match self.fill_rows(&mut trace, start, end) {
            Ok(_) => Ok(RowsPart { start, end, trace }),
            Err(e) => Err(e),
        }
    }

    /// Puts parts together: the trace with the public and global vectors of
    /// the base trace and each row taken from the part whose run it lies in.
    /// Fails unless the parts, in order, are runs of rows that follow each
    /// other from the first row to the last, on traces of the shape of the
    /// base.
    ///
    /// If each part holds its rows as they are filled on the base trace, and
    /// the base trace has the shape of the chip, the trace that comes out is
    /// the base trace filled row after row.
    pub fn assemble(&self, base: TraceHandle, parts: &Vec<RowsPart>) -> (r: Result<
        TraceHandle,
        WitnessError,
    >)
        requires
            base.wf(),
            forall|i: int| 0 <= i < parts@.len() ==> (#[trigger] parts@[i]).trace.wf(),
        ensures
            r is Ok <==> covering(base@, parts@),
            r is Err ==> r == Err::<TraceHandle, WitnessError>(WitnessError::OutOfBounds),
            r matches Ok(t) ==> {
                &&& t.wf()
                &&& assembled(base@, parts@, parts@.len() as int, t@)
                &&& self.shape().fits(base@) && parts_filled(self.instrs(), base@, parts@)
                    ==> run_rows(self.instrs(), base@, 0, base@.num_rows()) == Ok::<
                    TraceView,
                    WitnessError,
                >(t@)
            },
    {
        if !is_covering(&base, parts) {
            return Err(WitnessError::OutOfBounds);
        }
        let ghost start = base@;
        let mut trace = base;
        let rows: usize = trace.num_rows();
        proof {
            trace.lemma_wf();
        }
        let mut i: usize = 0;
        while i < parts.len()
            invariant
                i <= parts@.len(),
                trace.wf(),
                start == base@,
                start.wf(),
                rows == start.num_rows(),
                covering(start, parts@),
                forall|k: int| 0 <= k < parts@.len() ==> (#[trigger] parts@[k]).trace.wf(),
                assembled(start, parts@, i as int, trace@),
            decreases parts.len() - i,
        {
            let p = &parts[i];
            proof {
                lemma_parts_bounded(start, parts@, i as int);
            }
            let mut row: usize = p.start;
            while row < p.end
                invariant
                    i < parts@.len(),
                    p == &parts@[i as int],
                    p.start <= row <= p.end <= rows,
                    trace.wf(),
                    p.trace.wf(),
                    start.wf(),
                    rows == start.num_rows(),
                    covering(start, parts@),
                    trace@.wf(),
                    trace@.same_shape(start),
                    trace@.public == start.public,
                    trace@.global == start.global,
                    forall|k: int, r: int|
                        0 <= k < i && (#[trigger] parts@[k]).start <= r < parts@[k].end
                            ==> #[trigger] trace@.rows[r] == parts@[k].trace@.rows[r],
                    forall|r: int| p.start <= r < row
                        ==> #[trigger] trace@.rows[r] == p.trace@.rows[r],
                    forall|r: int| row <= r < rows ==> #[trigger] trace@.rows[r] == start.rows[r],
                decreases p.end - row,
            {
                let ghost before = trace@;
                proof {
                    p.trace.lemma_wf();
                    assert(p.trace@.same_shape(start));
                }
                copy_row(&mut trace, &p.trace, row);
                proof {
                    assert forall|k: int, r: int|
                        0 <= k < i && (#[trigger] parts@[k]).start <= r < parts@[k].end
                            implies #[trigger] trace@.rows[r] == parts@[k].trace@.rows[r] by {
                        lemma_parts_ordered(start, parts@, k, i as int);
                        assert(before.rows[r] == parts@[k].trace@.rows[r]);
                    }
                    assert forall|r: int| p.start <= r < row + 1 implies #[trigger] trace@.rows[r]
                        == p.trace@.rows[r] by {
                        if r < row {
                            assert(before.rows[r] == p.trace@.rows[r]);
                        }
                    }
                    assert forall|r: int| row + 1 <= r < rows implies #[trigger] trace@.rows[r]
                        == start.rows[r] by {
                        assert(before.rows[r] == start.rows[r]);
                    }
                }
                row += 1;
            }
            proof {
                assert(assembled(start, parts@, i + 1, trace@)) by {
                    assert forall|k: int, r: int|
                        0 <= k < i + 1 && (#[trigger] parts@[k]).start <= r < parts@[k].end
                            implies #[trigger] trace@.rows[r] == parts@[k].trace@.rows[r] by {
                        if k == i {
                            assert(trace@.rows[r] == p.trace@.rows[r]);
                        }
                    }
                }
            }
            i += 1;
        }
        proof {
            use_type_invariant(self);
            if self.shape().fits(start) && parts_filled(self.instrs(), start, parts@) {
                lemma_assembled(self.instrs(), self.shape(), start, parts@, trace@);
            }
        }
        Ok(trace)
    }

    /// Fills, each on a copy of a base trace, the runs of rows between the
    /// bounds: the first run from row zero to the first bound, each other run
    /// from the bound before to its own. Stops at the first run that cannot
    /// be filled.
    pub fn fill_parts(&self, base: &TraceHandle, bounds: &Vec<usize>) -> (r: Result<
        Vec<RowsPart>,
        WitnessError,
    >)
        requires
            base.wf(),
        ensures
            match r {
                Ok(parts) => {
                    &&& parts@.len() == bounds@.len()
                    &&& forall|i: int| 0 <= i < parts@.len() ==> (#[trigger] parts@[i]).trace.wf()
                    &&& forall|i: int|
                        0 <= i < parts@.len() ==> (#[trigger] parts@[i]).end == bounds@[i]
                            && parts@[i].start == run_start(bounds@, i)
                    &&& parts_filled(self.instrs(), base@, parts@)
                },
                Err(e) => exists|k: int|
                    0 <= k < bounds@.len() && #[trigger] run_rows(
                        self.instrs(),
                        base@,
                        run_start(bounds@, k),
                        bounds@[k] as int,
                    ) == Err::<TraceView, WitnessError>(e),
            },
    {
        let mut parts: Vec<RowsPart> = Vec::new();
        let mut start: usize = 0;
        let mut k: usize = 0;
        while k < bounds.len()
            invariant
                k <= bounds@.len(),
                base.wf(),
                parts@.len() == k,
                start == run_start(bounds@, k as int),
                forall|i: int| 0 <= i < parts@.len() ==> (#[trigger] parts@[i]).trace.wf(),
                forall|i: int|
                    0 <= i < k ==> (#[trigger] parts@[i]).end == bounds@[i] && parts@[i].start
                        == run_start(bounds@, i),
                parts_filled(self.instrs(), base@, parts@),
            decreases bounds.len() - k,
        {
            let end: usize = bounds[k];
            let part = match self.fill_part(base, start, end) {
                Ok(p) => p,
                Err(e) => {
                    assert(run_rows(
                        self.instrs(),
                        base@,
                        run_start(bounds@, k as int),
                        bounds@[k as int] as int,
                    ) == Err::<TraceView, WitnessError>(e));
                    return Err(e);
                },
            };
            let ghost before = parts@;
            parts.push(part);
            proof {
                assert forall|i: int| 0 <= i < parts@.len() implies run_rows(
                    self.instrs(),
                    base@,
                    (#[trigger] parts@[i]).start as int,
                    parts@[i].end as int,
                ) == Ok::<TraceView, WitnessError>(parts@[i].trace@) by {
                    if i < k {
                        assert(parts@[i] == before[i]);
                    }
                }
                assert forall|i: int| 0 <= i < k + 1 implies (#[trigger] parts@[i]).end
                    == bounds@[i] && parts@[i].start == run_start(bounds@, i) by {
                    if i < k {
                        assert(parts@[i] == before[i]);
                    }
                }
            }
            start = end;
            k += 1;
        }
        Ok(parts)
    }

    /// Generates the trace as `generate_trace` does, but with each run of rows
    /// between two bounds filled on a copy of the trace that holds the result
    /// of the global instructions, and the parts put together afterwards.
    /// `bounds` holds the ends of the runs in order; the last must be the
    /// number of rows.
    ///
    /// On a trace of the shape of the chip, the call succeeds where
    /// `generate_trace` does, with the same trace.
    pub fn generate_in_parts(&self, handle: TraceHandle, bounds: &Vec<usize>) -> (r: Result<
        TraceHandle,
        WitnessError,
    >)
        requires
            handle.wf(),
        ensures
            r is Ok ==> valid_bounds(bounds@, handle@.num_rows()),
            r matches Ok(t) ==> t.wf(),
            self.shape().fits(handle@) ==> (r matches Ok(t) ==> generate(self.instrs(), handle@)
                == Ok::<TraceView, WitnessError>(t@)),
            self.shape().fits(handle@) && valid_bounds(bounds@, handle@.num_rows()) ==> (r is Ok
                <==> generate(self.instrs(), handle@) is Ok),
    {
        proof {
            use_type_invariant(self);
            handle.lemma_wf();
        }
        let ghost begin = handle@;
        let mut base = handle;
        match self.write_global_instructions(&mut base) {
            Ok(_) => {},
            Err(e) => {
                return Err(e);
            },
        }
        let ghost g = base@;
        proof {
            base.lemma_wf();
            crate::chip::lemma_run_class_wf(self.instrs(), begin, 0, true, self.instrs().len());
            if self.shape().fits(begin) {
                lemma_run_global(self.instrs(), self.shape(), begin, self.instrs().len());
            }
        }
        let parts = match self.fill_parts(&base, bounds) {
            Ok(p) => p,
            Err(e) => {
                proof {
                    if self.shape().fits(begin) && valid_bounds(bounds@, begin.num_rows()) {
                        let k = choose|k: int|
                            0 <= k < bounds@.len() && #[trigger] run_rows(
                                self.instrs(),
                                g,
                                run_start(bounds@, k),
                                bounds@[k] as int,
                            ) == Err::<TraceView, WitnessError>(e);
                        lemma_bounds_ordered(bounds@, g.num_rows(), k);
                        lemma_part_fails(
                            self.instrs(),
                            self.shape(),
                            g,
                            run_start(bounds@, k),
                            bounds@[k] as int,
                        );
                    }
                }
                return Err(e);
            },
        };
        proof {
            lemma_bounds_covering(g, parts@, bounds@);
            assert forall|i: int| 0 <= i < parts@.len() implies (#[trigger] parts@[i]).trace@.wf()
                && parts@[i].trace@.same_shape(g) by {
                parts@[i].trace.lemma_wf();
                lemma_run_rows_shape(
                    self.instrs(),
                    g,
                    parts@[i].start as int,
                    parts@[i].end as int,
                );
            }
        }
        self.assemble(base, &parts)
    }
}

/// The row that the run up to bound `k` starts at: zero for the first run,
/// the bound before for each other.
pub open spec fn run_start(bounds: Seq<usize>, k: int) -> int {
    if k <= 0 {
        0
    } else {
        bounds[k - 1] as int
    }
}

/// If a run of rows cannot be filled on the base trace alone, the rows cannot
/// be filled row after row.
pub proof fn lemma_part_fails(
    instrs: Seq<Instruction>,
    shape: Shape,
    base: TraceView,
    start: int,
    end: int,
)
    requires
        scheduled(instrs, shape),
        shape.fits(base),
        base.num_rows() <= usize::MAX,
        0 <= start <= end <= base.num_rows(),
        run_rows(instrs, base, start, end) is Err,
    ensures
        run_rows(instrs, base, 0, base.num_rows()) is Err,
{
    if run_rows(instrs, base, 0, base.num_rows()) is Ok {
        lemma_rows_settle(instrs, shape, base, end, base.num_rows());
        lemma_rows_independent(instrs, shape, base, start, end);
    }
}

/// Filling rows keeps a trace valid and of its shape.
pub proof fn lemma_run_rows_shape(instrs: Seq<Instruction>, t: TraceView, start: int, end: int)
    requires
        t.wf(),
        0 <= start,
        end <= usize::MAX,
        run_rows(instrs, t, start, end) is Ok,
    ensures
        run_rows(instrs, t, start, end).unwrap().wf(),
        run_rows(instrs, t, start, end).unwrap().same_shape(t),
    decreases end - start,
{
    if start < end {
        lemma_run_rows_shape(instrs, t, start, end - 1);
        let u = run_rows(instrs, t, start, end - 1).unwrap();
        crate::chip::lemma_run_class_wf(instrs, u, (end - 1) as usize, false, instrs.len());
    }
}

/// Whether the bounds are the ends of runs of rows that follow each other
/// from the first row to the last of `rows` rows.
pub open spec fn valid_bounds(bounds: Seq<usize>, rows: int) -> bool {
    &&& bounds.len() > 0
    &&& bounds[bounds.len() - 1] == rows
    &&& forall|i: int| 0 < i < bounds.len() ==> bounds[i - 1] <= #[trigger] bounds[i]
}

/// Valid bounds come in order and end within the rows.
pub proof fn lemma_bounds_ordered(bounds: Seq<usize>, rows: int, k: int)
    requires
        valid_bounds(bounds, rows),
        0 <= k < bounds.len(),
    ensures
        bounds[k] <= rows,
        k > 0 ==> bounds[k - 1] <= bounds[k],
    decreases bounds.len() - k,
{
    if k + 1 < bounds.len() {
        lemma_bounds_ordered(bounds, rows, k + 1);
        assert(bounds[k] <= bounds[k + 1]);
    }
}

/// Parts whose runs lie between the bounds are a covering exactly if the
/// bounds are valid.
pub proof fn lemma_bounds_covering(base: TraceView, parts: Seq<RowsPart>, bounds: Seq<usize>)
    requires
        base.wf(),
        parts.len() == bounds.len(),
        forall|i: int|
            0 <= i < parts.len() ==> (#[trigger] parts[i]).end == bounds[i] && parts[i].start
                == run_start(bounds, i),
    ensures
        covering(base, parts) ==> valid_bounds(bounds, base.num_rows()),
        valid_bounds(bounds, base.num_rows()) && (forall|i: int|
            0 <= i < parts.len()
                ==> (#[trigger] parts[i]).trace@.wf() && parts[i].trace@.same_shape(
                base,
            )) ==> covering(base, parts),
{
    if covering(base, parts) {
        assert forall|i: int| 0 < i < bounds.len() implies bounds[i - 1] <= #[trigger] bounds[i] by {
            assert(parts[i].start <= parts[i].end);
        }
    }
    if valid_bounds(bounds, base.num_rows()) && (forall|i: int|
        0 <= i < parts.len() ==> (#[trigger] parts[i]).trace@.wf() && parts[i].trace@.same_shape(
            base,
        )) {
        assert forall|i: int| 0 <= i < parts.len() implies {
            &&& (#[trigger] parts[i]).start <= parts[i].end
            &&& parts[i].trace@.same_shape(base)
            &&& parts[i].trace@.wf()
            &&& parts[i].start == (if i == 0 {
                0
            } else {
                parts[i - 1].end as int
            })
        } by {
            if i > 0 {
                assert(bounds[i - 1] <= bounds[i]);
                assert(parts[i - 1].end == bounds[i - 1]);
            }
        }
    }
}

/// The runs of the parts of a covering come in order: an earlier part ends
/// where a later part starts, or before.
pub proof fn lemma_parts_ordered(base: TraceView, parts: Seq<RowsPart>, k: int, i: int)
    requires
        covering(base, parts),
        0 <= k < i < parts.len(),
    ensures
        parts[k].end <= parts[i].start,
    decreases i - k,
{
    if k + 1 < i {
        lemma_parts_ordered(base, parts, k, i - 1);
        assert(parts[i].start == parts[i - 1].end);
        assert(parts[i - 1].start <= parts[i - 1].end);
    } else {
        assert(parts[i].start == parts[i - 1].end);
    }
}

} // verus!
