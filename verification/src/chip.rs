//! A chip: the instructions of a finished build, in the order in which they
//! are written, with the shape of the trace that they are written to.
//!
//! The instructions of a chip are scheduled: no instruction writes a cell that
//! an earlier instruction reads or writes, and no cell that is read at the
//! following row is written by any instruction. Global instructions are
//! written once, before the rows; then every row is written, instruction by
//! instruction. On the trace that comes out, every constraint is zero at every
//! row whose operands were in range.

use crate::blake2b::Blake2bJob;
use crate::error::{BuildError, WitnessError};
use crate::parser::{AirParser, RecursiveParser};
use crate::instruction::Instruction;
use crate::register::{MemorySlice, RegionKind};
use crate::trace::{
    check_none_overlap, is_power_of_two, lemma_write_all_other, lemma_write_all_shape,
    none_overlap, RowView, TraceHandle, TraceView,
};
use vstd::prelude::*;

verus! {

/// The shape of a trace: the number of columns, and the lengths of the public
/// and the global vector.
pub struct Shape {
    pub width: int,
    pub num_public: int,
    pub num_global: int,
}

impl Shape {
    /// The number of cells in a region.
    pub open spec fn limit(self, kind: RegionKind) -> int {
        match kind {
            RegionKind::Local | RegionKind::Next => self.width,
            RegionKind::Public => self.num_public,
            RegionKind::Global => self.num_global,
        }
    }

    /// Whether a trace has this shape.
    pub open spec fn fits(self, t: TraceView) -> bool {
        &&& t.wf()
        &&& t.width() == self.width
        &&& t.public.len() == self.num_public
        &&& t.global.len() == self.num_global
    }
}

/// Whether every register of the instruction lies within the shape, in a
/// region that the instruction may use: a global instruction reads and writes
/// outside the trace only, another instruction writes at the current row only.
pub open spec fn valid_registers(instr: Instruction, shape: Shape) -> bool {
    &&& instr.wf()
    &&& forall|j: int|
        0 <= j < instr.footprint().len() ==> (#[trigger] instr.footprint()[j]).end() <= shape.limit(
            instr.footprint()[j].kind,
        )
    &&& instr.global() ==> forall|j: int|
        0 <= j < instr.footprint().len() ==> !(#[trigger] instr.footprint()[j]).kind.in_trace()
    &&& !instr.global() ==> forall|i: int|
        0 <= i < instr.writes().len() ==> (#[trigger] instr.writes()[i]).kind is Local
}

/// Whether `later` may follow `earlier`: it writes no cell that `earlier`
/// reads or writes, and reads at the following row no cell that `earlier`
/// writes.
pub open spec fn clear_of(later: Instruction, earlier: Instruction) -> bool {
    &&& none_overlap(later.writes(), earlier.footprint())
    &&& forall|i: int, j: int|
        #![trigger later.reads()[i], earlier.writes()[j]]
        0 <= i < later.reads().len() && later.reads()[i].kind is Next && 0 <= j
            < earlier.writes().len() ==> !later.reads()[i].overlaps(&earlier.writes()[j])
}

/// Whether the instructions are scheduled for a trace of the given shape.
pub open spec fn scheduled(instrs: Seq<Instruction>, shape: Shape) -> bool {
    &&& forall|k: int|
        0 <= k < instrs.len() ==> valid_registers(#[trigger] instrs[k], shape)
            && instrs[k].well_placed()
    &&& forall|i: int, j: int|
        #![trigger instrs[i], instrs[j]]
        0 <= i < j < instrs.len() ==> clear_of(instrs[j], instrs[i])
}

/// The trace after the first `n` instructions were written at `row`, those
/// that are global if `global` is set and the others if not; or why one of
/// them cannot be written.
pub open spec fn run_class(
    instrs: Seq<Instruction>,
    t: TraceView,
    row: usize,
    global: bool,
    n: nat,
) -> Result<TraceView, WitnessError>
    decreases n,
{
    if n == 0 {
        Ok(t)
    } else {
        match run_class(instrs, t, row, global, (n - 1) as nat) {
            Err(e) => Err(e),
            Ok(u) => if instrs[n - 1].global() == global {
                instrs[n - 1].step(u, Some(row))
            } else {
                Ok(u)
            },
        }
    }
}

/// The trace after every instruction that is not global was written at each
/// row from `start` up to, but not including, `end`.
pub open spec fn run_rows(instrs: Seq<Instruction>, t: TraceView, start: int, end: int) -> Result<
    TraceView,
    WitnessError,
>
    decreases end - start,
{
    if end <= start {
        Ok(t)
    } else {
        match run_rows(instrs, t, start, end - 1) {
            Err(e) => Err(e),
            Ok(u) => run_class(instrs, u, (end - 1) as usize, false, instrs.len()),
        }
    }
}

/// The trace that the instructions generate from `t`: the global
/// instructions are written once, then every row is written.
pub open spec fn generate(instrs: Seq<Instruction>, t: TraceView) -> Result<
    TraceView,
    WitnessError,
> {
    match run_class(instrs, t, 0, true, instrs.len()) {
        Err(e) => Err(e),
        Ok(u) => run_rows(instrs, u, 0, t.num_rows()),
    }
}

/// Whether instruction `k` is satisfied at row `r`, if the cells that it reads
/// there are in range.
pub open spec fn holds(instrs: Seq<Instruction>, t: TraceView, k: int, r: int) -> bool {
    instrs[k].ready(t.window(r)) ==> instrs[k].satisfied(t.window(r))
}

/// Whether, in the order of writing, instruction `k` at row `rk` comes before
/// instruction `j` at row `rj`, or is left behind for good: a global
/// instruction before a later global one and before every other instruction,
/// another instruction before those of a later row and the later ones of its
/// own row.
pub open spec fn settled_before(instrs: Seq<Instruction>, k: int, rk: int, j: int,
    rj: int) -> bool {
    if instrs[k].global() {
        !instrs[j].global() || k < j
    } else {
        !instrs[j].global() && (rk != rj || k < j)
    }
}

/// A register of a scheduled instruction exists at every row of a trace of the
/// shape.
pub proof fn lemma_footprint_admitted(
    instrs: Seq<Instruction>,
    shape: Shape,
    t: TraceView,
    k: int,
    r: usize,
    i: int,
)
    requires
        scheduled(instrs, shape),
        shape.fits(t),
        0 <= k < instrs.len(),
        r < t.num_rows(),
        0 <= i < instrs[k].footprint().len(),
    ensures
        t.admits(instrs[k].footprint()[i], Some(r)),
{
    assert(valid_registers(instrs[k], shape));
}

/// A write leaves alone the registers of every instruction that is settled
/// before it.
pub proof fn lemma_step_apart(
    instrs: Seq<Instruction>,
    shape: Shape,
    t: TraceView,
    j: int,
    rj: usize,
    k: int,
    rk: usize,
)
    requires
        scheduled(instrs, shape),
        shape.fits(t),
        0 <= j < instrs.len(),
        0 <= k < instrs.len(),
        rj < t.num_rows(),
        rk < t.num_rows(),
        instrs[j].global() ==> rj == 0,
        settled_before(instrs, k, rk as int, j, rj as int),
        instrs[j].step(t, Some(rj)) is Ok,
    ensures
        shape.fits(instrs[j].step(t, Some(rj)).unwrap()),
        instrs[j].step(t, Some(rj)).unwrap().num_rows() == t.num_rows(),
        forall|i: int|
            0 <= i < instrs[k].footprint().len() ==> instrs[j].step(t, Some(rj)).unwrap().window(
                rk as int,
            ).values(#[trigger] instrs[k].footprint()[i]) == t.window(rk as int).values(
                instrs[k].footprint()[i],
            ),
        holds(instrs, instrs[j].step(t, Some(rj)).unwrap(), k, rk as int) == holds(
            instrs,
            t,
            k,
            rk as int,
        ),
{
    let x = instrs[j];
    let y = instrs[k];
    let u = x.step(t, Some(rj)).unwrap();
    x.lemma_step_writes(t, Some(rj));
    assert(valid_registers(x, shape));
    assert(valid_registers(y, shape));
    if x.skips(Some(rj)) {
    } else {
        let wr = x.writes();
        let outs = x.computed(t, Some(rj));
        lemma_write_all_shape(t, wr, Some(rj), outs);
        assert forall|i: int| 0 <= i < y.footprint().len() implies u.window(rk as int).values(
            #[trigger] y.footprint()[i],
        ) == t.window(rk as int).values(y.footprint()[i]) by {
            let s = y.footprint()[i];
            lemma_footprint_admitted(instrs, shape, t, k, rk, i);
            assert forall|a: int| 0 <= a < wr.len() implies t.apart(
                #[trigger] wr[a],
                Some(rj),
                s,
                Some(rk),
            ) by {
                lemma_writes_apart(instrs, shape, t, j, rj, k, rk, a, i);
            }
            lemma_write_all_other(t, wr, Some(rj), outs, s, Some(rk));
        }
    }
    y.lemma_frame(u.window(rk as int), t.window(rk as int));
}

/// A register that instruction `j` writes at row `rj` is apart from each
/// register of an instruction settled before it.
pub proof fn lemma_writes_apart(
    instrs: Seq<Instruction>,
    shape: Shape,
    t: TraceView,
    j: int,
    rj: usize,
    k: int,
    rk: usize,
    a: int,
    i: int,
)
    requires
        scheduled(instrs, shape),
        shape.fits(t),
        0 <= j < instrs.len(),
        0 <= k < instrs.len(),
        rj < t.num_rows(),
        rk < t.num_rows(),
        settled_before(instrs, k, rk as int, j, rj as int),
        0 <= a < instrs[j].writes().len(),
        0 <= i < instrs[k].footprint().len(),
    ensures
        t.apart(instrs[j].writes()[a], Some(rj), instrs[k].footprint()[i], Some(rk)),
{
    let x = instrs[j];
    let y = instrs[k];
    let ws = x.writes()[a];
    let s = y.footprint()[i];
    assert(valid_registers(x, shape));
    assert(valid_registers(y, shape));
    assert(x.footprint()[x.reads().len() + a] == ws);
    x.lemma_well_placed();
    y.lemma_well_placed();
    if k < j {
        assert(clear_of(instrs[j], instrs[k]));
        assert(!ws.overlaps(&s));
    } else if y.global() {
        // a global instruction is settled before every other instruction
        assert(!x.global());
        assert(ws.kind is Local);
        assert(!s.kind.in_trace());
    } else {
        // an instruction of another row, the same or a later one in the list
        assert(!x.global());
        assert(rk != rj);
        assert(ws.kind is Local);
        if i < y.reads().len() {
            assert(s == y.reads()[i]);
            if s.kind is Next {
                if k == j {
                    assert(!x.writes()[a].overlaps(&x.reads()[i]));
                } else {
                    assert(clear_of(instrs[k], instrs[j]));
                    assert(!y.reads()[i].overlaps(&x.writes()[a]));
                }
            }
        } else {
            assert(s == y.writes()[i - y.reads().len()]);
            assert(s.kind is Local);
        }
    }
}

/// Whether each of the first `n` instructions that is global is satisfied.
pub open spec fn globals_hold(instrs: Seq<Instruction>, t: TraceView, n: int) -> bool {
    forall|k: int| 0 <= k < n && k < instrs.len() && instrs[k].global() ==> holds(instrs, t, k, 0)
}

/// Whether each instruction that is not global is satisfied at every row
/// before `row`, and each of the first `n` of them at `row` itself.
pub open spec fn rows_hold(instrs: Seq<Instruction>, t: TraceView, row: int, n: int) -> bool {
    forall|k: int, r: int|
        0 <= k < instrs.len() && !instrs[k].global() && (0 <= r < row || (r == row && k < n))
            ==> holds(instrs, t, k, r)
}

/// A write keeps the shape of the trace.
pub proof fn lemma_step_shape(x: Instruction, shape: Shape, t: TraceView, row: usize)
    requires
        shape.fits(t),
        x.step(t, Some(row)) is Ok,
    ensures
        shape.fits(x.step(t, Some(row)).unwrap()),
        x.step(t, Some(row)).unwrap().num_rows() == t.num_rows(),
{
    x.lemma_step_writes(t, Some(row));
    if !x.skips(Some(row)) {
        lemma_write_all_shape(t, x.writes(), Some(row), x.computed(t, Some(row)));
    }
}

/// Once an instruction was written at a row, it is satisfied there.
pub proof fn lemma_step_establishes(
    instrs: Seq<Instruction>,
    shape: Shape,
    t: TraceView,
    j: int,
    rj: usize,
)
    requires
        scheduled(instrs, shape),
        shape.fits(t),
        0 <= j < instrs.len(),
        rj < t.num_rows(),
        instrs[j].step(t, Some(rj)) is Ok,
        !instrs[j].skips(Some(rj)),
    ensures
        holds(instrs, instrs[j].step(t, Some(rj)).unwrap(), j, rj as int),
{
    let x = instrs[j];
    let u = x.step(t, Some(rj)).unwrap();
    assert(valid_registers(x, shape));
    x.lemma_step_writes(t, Some(rj));
    x.lemma_well_placed();
    let wr = x.writes();
    let outs = x.computed(t, Some(rj));
    assert forall|i: int| 0 <= i < x.reads().len() implies u.window(rj as int).values(
        #[trigger] x.reads()[i],
    ) == t.window(rj as int).values(x.reads()[i]) by {
        let s = x.reads()[i];
        assert forall|a: int| 0 <= a < wr.len() implies t.apart(
            #[trigger] wr[a],
            Some(rj),
            s,
            Some(rj),
        ) by {
            assert(!wr[a].overlaps(&x.reads()[i]));
        }
        lemma_write_all_other(t, wr, Some(rj), outs, s, Some(rj));
    }
    x.lemma_ready_frame(u.window(rj as int), t.window(rj as int));
    if x.ready(t.window(rj as int)) {
        x.lemma_step_sound(t, Some(rj));
    }
}

/// After the global instructions were written, each of them is satisfied.
pub proof fn lemma_run_global(instrs: Seq<Instruction>, shape: Shape, t: TraceView, n: nat)
    requires
        scheduled(instrs, shape),
        shape.fits(t),
        n <= instrs.len(),
        run_class(instrs, t, 0, true, n) is Ok,
    ensures
        shape.fits(run_class(instrs, t, 0, true, n).unwrap()),
        run_class(instrs, t, 0, true, n).unwrap().num_rows() == t.num_rows(),
        globals_hold(instrs, run_class(instrs, t, 0, true, n).unwrap(), n as int),
    decreases n,
{
    if n > 0 {
        let v = run_class(instrs, t, 0, true, (n - 1) as nat).unwrap();
        lemma_run_global(instrs, shape, t, (n - 1) as nat);
        let j = n - 1;
        let u = run_class(instrs, t, 0, true, n).unwrap();
        if instrs[j].global() {
            assert(!instrs[j].skips(Some(0usize)));
            assert forall|k: int| 0 <= k < n && k < instrs.len()
                && instrs[k].global() implies holds(
                instrs,
                u,
                k,
                0,
            ) by {
                if k < j {
                    lemma_step_apart(instrs, shape, v, j, 0, k, 0);
                } else {
                    lemma_step_establishes(instrs, shape, v, j, 0);
                }
            }
            lemma_step_shape(instrs[j], shape, v, 0);
        }
    }
}

/// Writing a row keeps what was satisfied and satisfies the instructions
/// written.
pub proof fn lemma_run_row(
    instrs: Seq<Instruction>,
    shape: Shape,
    t: TraceView,
    row: usize,
    n: nat,
)
    requires
        scheduled(instrs, shape),
        shape.fits(t),
        row < t.num_rows(),
        n <= instrs.len(),
        globals_hold(instrs, t, instrs.len() as int),
        rows_hold(instrs, t, row as int, 0),
        run_class(instrs, t, row, false, n) is Ok,
    ensures
        shape.fits(run_class(instrs, t, row, false, n).unwrap()),
        run_class(instrs, t, row, false, n).unwrap().num_rows() == t.num_rows(),
        globals_hold(instrs, run_class(instrs, t, row, false, n).unwrap(), instrs.len() as int),
        rows_hold(instrs, run_class(instrs, t, row, false, n).unwrap(), row as int, n as int),
    decreases n,
{
    if n > 0 {
        let v = run_class(instrs, t, row, false, (n - 1) as nat).unwrap();
        lemma_run_row(instrs, shape, t, row, (n - 1) as nat);
        let j = n - 1;
        let u = run_class(instrs, t, row, false, n).unwrap();
        if !instrs[j].global() {
            assert(!instrs[j].skips(Some(row)));
            assert forall|k: int|
                0 <= k < instrs.len() && k < instrs.len() && instrs[k].global() implies holds(
                instrs,
                u,
                k,
                0,
            ) by {
                lemma_step_apart(instrs, shape, v, j, row, k, 0);
            }
            assert forall|k: int, r: int|
                0 <= k < instrs.len() && !instrs[k].global() && (0 <= r < row || (r == row && k
                    < n)) implies holds(instrs, u, k, r) by {
                if r == row && k == j {
                    lemma_step_establishes(instrs, shape, v, j, row);
                } else {
                    lemma_step_apart(instrs, shape, v, j, row, k, r as usize);
                }
            }
            lemma_step_shape(instrs[j], shape, v, row);
        } else {
            assert forall|k: int, r: int|
                0 <= k < instrs.len() && !instrs[k].global() && (0 <= r < row || (r == row && k
                    < n)) implies holds(instrs, u, k, r) by {
                assert(k != j);
            }
        }
    }
}

/// After rows were written, every instruction is satisfied at each of them.
pub proof fn lemma_run_rows(instrs: Seq<Instruction>, shape: Shape, t: TraceView, m: int)
    requires
        scheduled(instrs, shape),
        shape.fits(t),
        0 <= m <= t.num_rows(),
        t.num_rows() <= usize::MAX,
        globals_hold(instrs, t, instrs.len() as int),
        run_rows(instrs, t, 0, m) is Ok,
    ensures
        shape.fits(run_rows(instrs, t, 0, m).unwrap()),
        run_rows(instrs, t, 0, m).unwrap().num_rows() == t.num_rows(),
        globals_hold(instrs, run_rows(instrs, t, 0, m).unwrap(), instrs.len() as int),
        rows_hold(instrs, run_rows(instrs, t, 0, m).unwrap(), m, 0),
    decreases m,
{
    if m > 0 {
        lemma_run_rows(instrs, shape, t, m - 1);
        let v = run_rows(instrs, t, 0, m - 1).unwrap();
        lemma_run_row(instrs, shape, v, (m - 1) as usize, instrs.len());
    }
}

/// Trace vanishing: on the trace that scheduled instructions generate, each
/// instruction is satisfied at every row where the cells that it reads are in
/// range.
pub proof fn lemma_generate_sound(
    instrs: Seq<Instruction>,
    shape: Shape,
    t: TraceView,
    k: int,
    r: int,
)
    requires
        scheduled(instrs, shape),
        shape.fits(t),
        t.num_rows() <= usize::MAX,
        generate(instrs, t) is Ok,
        0 <= k < instrs.len(),
        0 <= r < t.num_rows(),
    ensures
        generate(instrs, t).unwrap().num_rows() == t.num_rows(),
        shape.fits(generate(instrs, t).unwrap()),
        holds(instrs, generate(instrs, t).unwrap(), k, r),
{
    lemma_run_global(instrs, shape, t, instrs.len());
    let g = run_class(instrs, t, 0, true, instrs.len()).unwrap();
    lemma_run_rows(instrs, shape, g, t.num_rows());
    let u = generate(instrs, t).unwrap();
    if instrs[k].global() {
        assert(holds(instrs, u, k, 0));
        let x = instrs[k];
        assert(valid_registers(x, shape));
        assert forall|i: int| 0 <= i < x.footprint().len() implies u.window(r).values(
            #[trigger] x.footprint()[i],
        ) == u.window(0).values(x.footprint()[i]) by {
            assert(!x.footprint()[i].kind.in_trace());
            assert(u.window(r).values(x.footprint()[i]) =~= u.window(0).values(x.footprint()[i]));
        }
        x.lemma_frame(u.window(r), u.window(0));
    }
}

/// Trace vanishing, for all instructions and rows at once.
pub proof fn lemma_generated(instrs: Seq<Instruction>, shape: Shape, t: TraceView, u: TraceView)
    requires
        scheduled(instrs, shape),
        t.num_rows() <= usize::MAX,
        generate(instrs, t) == Ok::<TraceView, WitnessError>(u),
    ensures
        shape.fits(t) ==> u.num_rows() == t.num_rows(),
        shape.fits(t) ==> forall|k: int, row: int|
            0 <= k < instrs.len() && 0 <= row < u.num_rows()
                ==> #[trigger] holds(instrs, u, k, row),
{
    if shape.fits(t) {
        lemma_run_global(instrs, shape, t, instrs.len());
        let g = run_class(instrs, t, 0, true, instrs.len()).unwrap();
        lemma_run_rows(instrs, shape, g, t.num_rows());
        assert forall|k: int, row: int|
            0 <= k < instrs.len() && 0 <= row < u.num_rows() implies #[trigger] holds(
            instrs,
            u,
            k,
            row,
        ) by {
            lemma_generate_sound(instrs, shape, t, k, row);
        }
    }
}

/// Determinism: what is generated depends on the instructions and the trace
/// alone.
pub proof fn lemma_generate_deterministic(
    instrs: Seq<Instruction>,
    t: TraceView,
    first: Result<TraceView, WitnessError>,
    second: Result<TraceView, WitnessError>,
)
    requires
        first == generate(instrs, t),
        second == generate(instrs, t),
    ensures
        first == second,
{
}

/// Rows written in two runs, one after the other, are the rows written in one.
pub proof fn lemma_run_rows_split(
    instrs: Seq<Instruction>,
    t: TraceView,
    start: int,
    mid: int,
    end: int,
)
    requires
        start <= mid <= end,
    ensures
        run_rows(instrs, t, start, end) == match run_rows(instrs, t, start, mid) {
            Err(e) => Err::<TraceView, WitnessError>(e),
            Ok(u) => run_rows(instrs, u, mid, end),
        },
    decreases end - mid,
{
    if end > mid {
        lemma_run_rows_split(instrs, t, start, mid, end - 1);
    }
}

/// An error stays: once an instruction cannot be written, the run has failed.
pub proof fn lemma_run_class_failed(
    instrs: Seq<Instruction>,
    t: TraceView,
    row: usize,
    global: bool,
    n: nat,
    m: nat,
)
    requires
        n <= m,
        run_class(instrs, t, row, global, n) is Err,
    ensures
        run_class(instrs, t, row, global, m) == run_class(instrs, t, row, global, n),
    decreases m,
{
    if n < m {
        lemma_run_class_failed(instrs, t, row, global, n, (m - 1) as nat);
    }
}

/// An error stays: once a row cannot be written, the run has failed.
pub proof fn lemma_run_rows_failed(
    instrs: Seq<Instruction>,
    t: TraceView,
    start: int,
    mid: int,
    end: int,
)
    requires
        start <= mid <= end,
        run_rows(instrs, t, start, mid) is Err,
    ensures
        run_rows(instrs, t, start, end) == run_rows(instrs, t, start, mid),
    decreases end - mid,
{
    if mid < end {
        lemma_run_rows_failed(instrs, t, start, mid, end - 1);
    }
}

/// Whether `u` is the trace as a run of the instructions at `row` leaves it
/// when it stops: the trace after the instructions before the first that
/// cannot be written.
pub open spec fn stopped_at(
    instrs: Seq<Instruction>,
    t: TraceView,
    row: usize,
    global: bool,
    u: TraceView,
) -> bool {
    exists|k: nat|
        k < instrs.len() && #[trigger] run_class(instrs, t, row, global, k) == Ok::<
            TraceView,
            WitnessError,
        >(u) && run_class(instrs, t, row, global, k + 1) is Err
}

/// The instructions of a finished build, with the shape of their trace.
#[derive(Debug)]
pub struct Chip {
    instructions: Vec<Instruction>,
    width: usize,
    num_public: usize,
    num_global: usize,
    jobs: Vec<Blake2bJob>,
}

impl Chip {
    /// The instructions, in the order in which they are written.
    pub closed spec fn instrs(&self) -> Seq<Instruction> {
        self.instructions@
    }

    /// The shape of the trace.
    pub closed spec fn shape(&self) -> Shape {
        Shape {
            width: self.width as int,
            num_public: self.num_public as int,
            num_global: self.num_global as int,
        }
    }

    /// Validity of a chip: its instructions are scheduled for its shape.
    pub open spec fn wf(&self) -> bool {
        scheduled(self.instrs(), self.shape())
    }

    /// Every chip in hand is valid.
    #[verifier::type_invariant]
    pub(crate) open spec fn inv(&self) -> bool {
        self.wf()
    }

    /// The hashing jobs of the chip.
    pub closed spec fn jobs(&self) -> Seq<Blake2bJob> {
        self.jobs@
    }

    /// The chip of scheduled instructions, with its hashing jobs.
    pub(crate) fn new(
        instructions: Vec<Instruction>,
        width: usize,
        num_public: usize,
        num_global: usize,
        jobs: Vec<Blake2bJob>,
    ) -> (r: Chip)
        requires
            scheduled(
                instructions@,
                Shape {
                    width: width as int,
                    num_public: num_public as int,
                    num_global: num_global as int,
                },
            ),
        ensures
            r.wf(),
            r.instrs() == instructions@,
            r.jobs() == jobs@,
            r.shape() == (Shape {
                width: width as int,
                num_public: num_public as int,
                num_global: num_global as int,
            }),
    {
        Chip { instructions, width, num_public, num_global, jobs }
    }

    /// The number of hashing jobs.
    pub fn num_jobs(&self) -> (r: usize)
        ensures
            r == self.jobs().len(),
    {
        self.jobs.len()
    }

    /// Whether the cells of every hashing job, taken at `row`, are
    /// consistent. There is no answer if the trace has not the registers of a
    /// job.
    pub fn check_hashes(&self, handle: &TraceHandle, row: Option<usize>) -> (r: Option<bool>)
        requires
            handle.wf(),
        ensures
            r is Some <==> forall|j: int|
                0 <= j < self.jobs().len() ==> (#[trigger] self.jobs()[j]).shaped()
                    && self.jobs()[j].admitted(handle@, row),
            r matches Some(b) ==> b == (forall|j: int|
                0 <= j < self.jobs().len() ==> (#[trigger] self.jobs()[j]).consistent(
                    handle@.view_at(row),
                )),
    {
        let n: usize = self.jobs.len();
        let mut all: bool = true;
        let mut j: usize = 0;
        while j < n
            invariant
                j <= n,
                n == self.jobs().len(),
                handle.wf(),
                forall|k: int|
                    0 <= k < j ==> (#[trigger] self.jobs()[k]).shaped() && self.jobs()[k].admitted(
                        handle@,
                        row,
                    ),
                all == (forall|k: int|
                    0 <= k < j ==> (#[trigger] self.jobs()[k]).consistent(handle@.view_at(row))),
            decreases n - j,
        {
            match self.jobs[j].check(handle, row) {
                Some(b) => {
                    if !b {
                        all = false;
                    }
                },
                None => {
                    return None;
                },
            }
            j += 1;
        }
        Some(all)
    }

    /// The number of instructions.
    pub fn num_instructions(&self) -> (r: usize)
        ensures
            r == self.instrs().len(),
    {
        self.instructions.len()
    }

    /// The number of columns of the trace.
    pub fn width(&self) -> (r: usize)
        ensures
            r == self.shape().width,
    {
        self.width
    }

    /// The length of the public vector.
    pub fn num_public(&self) -> (r: usize)
        ensures
            r == self.shape().num_public,
    {
        self.num_public
    }

    /// The length of the global vector.
    pub fn num_global(&self) -> (r: usize)
        ensures
            r == self.shape().num_global,
    {
        self.num_global
    }

    /// A trace of the shape of the chip with `num_rows` rows, all cells zero.
    /// The number of rows must be a power of two, and the matrix must not
    /// have more cells than can be counted.
    pub fn trace(&self, num_rows: usize) -> (r: Option<TraceHandle>)
        ensures
            r is Some <==> is_power_of_two(num_rows as int) && num_rows * self.shape().width
                <= usize::MAX,
            r matches Some(t) ==> {
                &&& t.wf()
                &&& self.shape().fits(t@)
                &&& t@.num_rows() == num_rows
            },
    {
        let r = TraceHandle::new(num_rows, self.width, self.num_public, self.num_global);
        r
    }

    /// Whether a trace has the shape of the chip.
    pub fn fits(&self, handle: &TraceHandle) -> (r: bool)
        requires
            handle.wf(),
        ensures
            r == self.shape().fits(handle@),
    {
        proof {
            handle.lemma_wf();
        }
        handle.width() == self.width && handle.num_public() == self.num_public
            && handle.num_global() == self.num_global
    }

    /// Writes at `row` the instructions that are global, if `global` is set,
    /// or those that are not, in order. Stops at the first that cannot be
    /// written.
    fn write_class(&self, handle: &mut TraceHandle, row: usize, global: bool) -> (r: Result<
        (),
        WitnessError,
    >)
        requires
            old(handle).wf(),
        ensures
            final(handle).wf(),
            match r {
                Ok(_) => run_class(self.instrs(), old(handle)@, row, global, self.instrs().len())
                    == Ok::<TraceView, WitnessError>(final(handle)@),
                Err(e) => {
                    &&& run_class(self.instrs(), old(handle)@, row, global, self.instrs().len())
                        == Err::<TraceView, WitnessError>(e)
                    &&& stopped_at(self.instrs(), old(handle)@, row, global, final(handle)@)
                },
            },
    {
        let n: usize = self.instructions.len();
        let mut i: usize = 0;
        while i < n
            invariant
                i <= n,
                n == self.instrs().len(),
                handle.wf(),
                run_class(self.instrs(), old(handle)@, row, global, i as nat) == Ok::<
                    TraceView,
                    WitnessError,
                >(handle@),
            decreases n - i,
        {
            if self.instructions[i].is_global() == global {
                match self.instructions[i].write_at(handle, Some(row)) {
                    Ok(_) => {},
                    Err(e) => {
                        proof {
                            lemma_run_class_failed(
                                self.instrs(),
                                old(handle)@,
                                row,
                                global,
                                (i + 1) as nat,
                                n as nat,
                            );
                            assert(run_class(self.instrs(), old(handle)@, row, global, i as nat)
                                == Ok::<TraceView, WitnessError>(handle@));
                        }
                        return Err(e);
                    },
                }
            }
            i += 1;
        }
        Ok(())
    }

    /// Writes every global instruction once, in order. Stops at the first
    /// that cannot be written.
    pub fn write_global_instructions(&self, handle: &mut TraceHandle) -> (r: Result<
        (),
        WitnessError,
    >)
        requires
            old(handle).wf(),
        ensures
            final(handle).wf(),
            match r {
                Ok(_) => run_class(self.instrs(), old(handle)@, 0, true, self.instrs().len())
                    == Ok::<TraceView, WitnessError>(final(handle)@),
                Err(e) => {
                    &&& run_class(self.instrs(), old(handle)@, 0, true, self.instrs().len())
                        == Err::<TraceView, WitnessError>(e)
                    &&& stopped_at(self.instrs(), old(handle)@, 0, true, final(handle)@)
                },
            },
    {
        self.write_class(handle, 0, true)
    }

    /// Writes at `row` every instruction that is not global, in order. Stops
    /// at the first that cannot be written.
    pub fn write_trace_instructions(&self, handle: &mut TraceHandle, row: usize) -> (r: Result<
        (),
        WitnessError,
    >)
        requires
            old(handle).wf(),
        ensures
            final(handle).wf(),
            match r {
                Ok(_) => run_class(self.instrs(), old(handle)@, row, false, self.instrs().len())
                    == Ok::<TraceView, WitnessError>(final(handle)@),
                Err(e) => {
                    &&& run_class(self.instrs(), old(handle)@, row, false, self.instrs().len())
                        == Err::<TraceView, WitnessError>(e)
                    &&& stopped_at(self.instrs(), old(handle)@, row, false, final(handle)@)
                },
            },
    {
        self.write_class(handle, row, false)
    }

    /// Writes the rows from `start` up to, but not including, `end`, in
    /// order. Stops at the first instruction that cannot be written.
    pub fn fill_rows(&self, handle: &mut TraceHandle, start: usize, end: usize) -> (r: Result<
        (),
        WitnessError,
    >)
        requires
            old(handle).wf(),
        ensures
            final(handle).wf(),
            match r {
                Ok(_) => run_rows(self.instrs(), old(handle)@, start as int, end as int) == Ok::<
                    TraceView,
                    WitnessError,
                >(final(handle)@),
                Err(e) => {
                    &&& run_rows(self.instrs(), old(handle)@, start as int, end as int) == Err::<
                        TraceView,
                        WitnessError,
                    >(e)
                    &&& exists|row: int|
                        start <= row < end && (#[trigger] run_rows(
                            self.instrs(),
                            old(handle)@,
                            start as int,
                            row,
                        )) is Ok && stopped_at(
                            self.instrs(),
                            run_rows(self.instrs(), old(handle)@, start as int, row).unwrap(),
                            row as usize,
                            false,
                            final(handle)@,
                        )
                },
            },
    {
        if end <= start {
            return Ok(());
        }
        let mut row: usize = start;
        while row < end
            invariant
                start <= row <= end,
                handle.wf(),
                run_rows(self.instrs(), old(handle)@, start as int, row as int) == Ok::<
                    TraceView,
                    WitnessError,
                >(handle@),
            decreases end - row,
        {
            let ghost before = handle@;
            let r = self.write_trace_instructions(handle, row);
            proof {
                assert(run_rows(self.instrs(), old(handle)@, start as int, row + 1) == run_class(
                    self.instrs(),
                    before,
                    row,
                    false,
                    self.instrs().len(),
                ));
            }
            match r {
                Ok(_) => {},
                Err(e) => {
                    proof {
                        lemma_run_rows_failed(
                            self.instrs(),
                            old(handle)@,
                            start as int,
                            row + 1,
                            end as int,
                        );
                        assert(run_rows(self.instrs(), old(handle)@, start as int, row as int)
                            == Ok::<TraceView, WitnessError>(before));
                    }
                    return Err(e);
                },
            }
            row += 1;
        }
        Ok(())
    }

    /// Generates the trace: writes every global instruction once, then every
    /// row. Fails, and hands no trace back, if an instruction cannot be
    /// written.
    ///
    /// On the trace that comes out of a trace of the shape of the chip, each
    /// instruction is satisfied at every row where the cells that it reads
    /// are in range.
    pub fn generate_trace(&self, handle: TraceHandle) -> (r: Result<TraceHandle, WitnessError>)
        requires
            handle.wf(),
        ensures
            match r {
                Ok(t) => {
                    &&& t.wf()
                    &&& generate(self.instrs(), handle@) == Ok::<TraceView, WitnessError>(t@)
                    &&& self.shape().fits(handle@) ==> t@.num_rows() == handle@.num_rows()
                    &&& self.shape().fits(handle@) ==> forall|k: int, row: int|
                        0 <= k < self.instrs().len() && 0 <= row < t@.num_rows()
                            ==> #[trigger] holds(
                            self.instrs(),
                            t@,
                            k,
                            row,
                        )
                },
                Err(e) => generate(self.instrs(), handle@) == Err::<TraceView, WitnessError>(e),
            },
    {
        self.generate_in_chunks(handle, 1)
    }

    /// Generates the trace as `generate_trace` does, the rows taken in
    /// `num_chunks` runs of consecutive rows, one run after the other. The
    /// trace that comes out does not depend on the number of runs.
    pub fn generate_in_chunks(&self, handle: TraceHandle, num_chunks: usize) -> (r: Result<
        TraceHandle,
        WitnessError,
    >)
        requires
            handle.wf(),
        ensures
            match r {
                Ok(t) => {
                    &&& t.wf()
                    &&& generate(self.instrs(), handle@) == Ok::<TraceView, WitnessError>(t@)
                    &&& self.shape().fits(handle@) ==> t@.num_rows() == handle@.num_rows()
                    &&& self.shape().fits(handle@) ==> forall|k: int, row: int|
                        0 <= k < self.instrs().len() && 0 <= row < t@.num_rows()
                            ==> #[trigger] holds(
                            self.instrs(),
                            t@,
                            k,
                            row,
                        )
                },
                Err(e) => generate(self.instrs(), handle@) == Err::<TraceView, WitnessError>(e),
            },
    {
        proof {
            use_type_invariant(self);
        }
        let ghost start = handle@;
        let mut trace = handle;
        let num_rows: usize = trace.num_rows();
        match self.write_global_instructions(&mut trace) {
            Ok(_) => {},
            Err(e) => {
                return Err(e);
            },
        }
        let ghost after_global = trace@;
        let chunks: usize = if num_chunks == 0 {
            1
        } else {
            num_chunks
        };
        let quotient: usize = num_rows / chunks;
        let size: usize = if quotient == 0 {
            1
        } else if num_rows % chunks == 0 || quotient == usize::MAX {
            quotient
        } else {
            quotient + 1
        };
        let mut done: usize = 0;
        while done < num_rows
            invariant
                done <= num_rows,
                size >= 1,
                trace.wf(),
                start == handle@,
                num_rows == start.num_rows(),
                run_class(self.instrs(), start, 0, true, self.instrs().len()) == Ok::<
                    TraceView,
                    WitnessError,
                >(after_global),
                run_rows(self.instrs(), after_global, 0, done as int) == Ok::<
                    TraceView,
                    WitnessError,
                >(trace@),
            decreases num_rows - done,
        {
            let end: usize = if num_rows - done < size {
                num_rows
            } else {
                done + size
            };
            proof {
                lemma_run_rows_split(self.instrs(), after_global, 0, done as int, end as int);
            }
            match self.fill_rows(&mut trace, done, end) {
                Ok(_) => {},
                Err(e) => {
                    proof {
                        assert(run_rows(self.instrs(), after_global, 0, end as int) == Err::<
                            TraceView,
                            WitnessError,
                        >(e));
                        lemma_run_rows_failed(
                            self.instrs(),
                            after_global,
                            0,
                            end as int,
                            num_rows as int,
                        );
                        assert(run_rows(self.instrs(), after_global, 0, num_rows as int) == Err::<
                            TraceView,
                            WitnessError,
                        >(e));
                        assert(generate(self.instrs(), start) == Err::<TraceView, WitnessError>(e));
                    }
                    return Err(e);
                },
            }
            done = end;
        }
        proof {
            lemma_generated(self.instrs(), self.shape(), start, trace@);
        }
        Ok(trace)
    }
}

/// Whether every slice lies within the shape.
pub open spec fn all_within(xs: Seq<MemorySlice>, shape: Shape) -> bool {
    forall|j: int| 0 <= j < xs.len() ==> (#[trigger] xs[j]).end() <= shape.limit(xs[j].kind)
}

/// Executable form of `all_within`.
pub fn check_all_within(xs: &Vec<MemorySlice>, width: usize, num_public: usize,
    num_global: usize) -> (r:
    bool)
    ensures
        r == all_within(
            xs@,
            Shape {
                width: width as int,
                num_public: num_public as int,
                num_global: num_global as int,
            },
        ),
{
    let mut j: usize = 0;
    while j < xs.len()
        invariant
            j <= xs@.len(),
            forall|a: int|
                0 <= a < j ==> (#[trigger] xs@[a]).end() <= (Shape {
                    width: width as int,
                    num_public: num_public as int,
                    num_global: num_global as int,
                }).limit(xs@[a].kind),
        decreases xs.len() - j,
    {
        let limit: usize = match xs[j].kind {
            RegionKind::Local | RegionKind::Next => width,
            RegionKind::Public => num_public,
            RegionKind::Global => num_global,
        };
        if !xs[j].fits(limit) {
            return false;
        }
        j += 1;
    }
    true
}

/// Executable form of `valid_registers`.
pub fn check_valid_registers(
    instr: &Instruction,
    width: usize,
    num_public: usize,
    num_global: usize,
) -> (r: bool)
    ensures
        r == valid_registers(
            *instr,
            Shape {
                width: width as int,
                num_public: num_public as int,
                num_global: num_global as int,
            },
        ),
{
    let fp = instr.memory_footprint();
    let wr = instr.output_slices();
    if !check_all_within(&fp, width, num_public, num_global) {
        return false;
    }
    if instr.is_global() {
        let mut j: usize = 0;
        while j < fp.len()
            invariant
                j <= fp@.len(),
                fp@ == instr.footprint(),
                instr.global(),
                forall|a: int| 0 <= a < j ==> !(#[trigger] fp@[a]).kind.in_trace(),
            decreases fp.len() - j,
        {
            if fp[j].kind.is_trace() {
                assert(instr.footprint()[j as int].kind.in_trace());
                return false;
            }
            j += 1;
        }
    } else {
        let mut i: usize = 0;
        while i < wr.len()
            invariant
                i <= wr@.len(),
                wr@ == instr.writes(),
                !instr.global(),
                forall|a: int| 0 <= a < i ==> (#[trigger] wr@[a]).kind is Local,
            decreases wr.len() - i,
        {
            match wr[i].kind {
                RegionKind::Local => {},
                _ => {
                    assert(!(instr.writes()[i as int].kind is Local));
                    return false;
                },
            }
            i += 1;
        }
    }
    true
}

/// Executable form of `clear_of`.
pub fn check_clear_of(later: &Instruction, earlier: &Instruction) -> (r: bool)
    ensures
        r == clear_of(*later, *earlier),
{
    let wr = later.output_slices();
    let rd = later.input_slices();
    let fp = earlier.memory_footprint();
    let ewr = earlier.output_slices();
    if !check_none_overlap(&wr, &fp) {
        return false;
    }
    let mut i: usize = 0;
    while i < rd.len()
        invariant
            i <= rd@.len(),
            rd@ == later.reads(),
            ewr@ == earlier.writes(),
            forall|a: int, b: int|
                #![trigger rd@[a], ewr@[b]]
                0 <= a < i && rd@[a].kind is Next && 0 <= b < ewr@.len() ==> !rd@[a].overlaps(
                    &ewr@[b],
                ),
        decreases rd.len() - i,
    {
        match rd[i].kind {
            RegionKind::Next => {
                let mut j: usize = 0;
                while j < ewr.len()
                    invariant
                        i < rd@.len(),
                        j <= ewr@.len(),
                        rd@ == later.reads(),
                        ewr@ == earlier.writes(),
                        rd@[i as int].kind is Next,
                        forall|b: int| 0 <= b < j ==> !rd@[i as int].overlaps(&#[trigger] ewr@[b]),
                    decreases ewr.len() - j,
                {
                    if rd[i].intersects(&ewr[j]) {
                        assert(later.reads()[i as int].overlaps(&earlier.writes()[j as int]));
                        return false;
                    }
                    j += 1;
                }
            },
            _ => {},
        }
        i += 1;
    }
    true
}

/// Instructions that are scheduled for a shape are scheduled for every shape
/// that is no smaller.
pub proof fn lemma_scheduled_grows(instrs: Seq<Instruction>, shape: Shape, larger: Shape)
    requires
        scheduled(instrs, shape),
        shape.width <= larger.width,
        shape.num_public <= larger.num_public,
        shape.num_global <= larger.num_global,
    ensures
        scheduled(instrs, larger),
{
    assert forall|k: int| 0 <= k < instrs.len() implies valid_registers(
        #[trigger] instrs[k],
        larger,
    ) && instrs[k].well_placed() by {
        assert(valid_registers(instrs[k], shape));
    }
}

/// The values of the constraints of the first `n` instructions at a row, one
/// instruction after the other.
pub open spec fn all_residues(instrs: Seq<Instruction>, w: RowView, n: nat) -> Seq<int>
    decreases n,
{
    if n == 0 {
        Seq::empty()
    } else {
        all_residues(instrs, w, (n - 1) as nat) + instrs[n - 1].residues(w)
    }
}

/// Whether every value of a run is zero.
pub open spec fn all_zero(s: Seq<int>) -> bool {
    forall|i: int| 0 <= i < s.len() ==> s[i] == 0
}

/// The constraints of the first `n` instructions are all zero at a row exactly
/// when each of those instructions is satisfied there.
pub proof fn lemma_all_residues_zero(instrs: Seq<Instruction>, w: RowView, n: nat)
    requires
        n <= instrs.len(),
    ensures
        all_zero(all_residues(instrs, w, n)) <==> forall|k: int|
            0 <= k < n ==> (#[trigger] instrs[k]).satisfied(w),
    decreases n,
{
    if n > 0 {
        lemma_all_residues_zero(instrs, w, (n - 1) as nat);
        let head = all_residues(instrs, w, (n - 1) as nat);
        let last = instrs[n - 1].residues(w);
        let all = all_residues(instrs, w, n);
        if all_zero(all) {
            assert forall|i: int| 0 <= i < head.len() implies head[i] == 0 by {
                assert(all[i] == head[i]);
            }
            assert forall|i: int| 0 <= i < last.len() implies #[trigger] last[i] == 0 by {
                assert(all[head.len() + i] == last[i]);
            }
            assert forall|k: int| 0 <= k < n implies (#[trigger] instrs[k]).satisfied(w) by {}
        }
        if forall|k: int| 0 <= k < n ==> (#[trigger] instrs[k]).satisfied(w) {
            assert(instrs[n - 1].satisfied(w));
            assert forall|i: int| 0 <= i < all.len() implies all[i] == 0 by {
                if i >= head.len() {
                    assert(all[i] == last[i - head.len()]);
                }
            }
        }
    }
}

impl Chip {
    /// Whether the parser offers every register of every instruction.
    pub open spec fn readable<AP: AirParser>(&self, parser: &AP) -> bool {
        forall|k: int| 0 <= k < self.instrs().len()
            ==> (#[trigger] self.instrs()[k]).readable(parser)
    }

    /// States the constraints of every instruction against a parser, in
    /// order. Stops at the first instruction whose registers the parser does
    /// not offer; the parser then holds the constraints of the instructions
    /// before it.
    pub fn eval<AP: AirParser>(&self, parser: &mut AP) -> (r: Result<(), BuildError>)
        ensures
            r is Ok <==> self.readable(old(parser)),
            r is Err ==> r == Err::<(), BuildError>(BuildError::InvalidRegister),
            r is Err ==> exists|k: nat|
                k < self.instrs().len() && !(#[trigger] self.instrs()[k as int]).readable(
                    old(parser),
                ) && (forall|j: int| 0 <= j < k ==> (#[trigger] self.instrs()[j]).readable(
                    old(parser),
                )) && (forall|w: RowView|
                    #[trigger] old(parser).binds(w) ==> final(parser).residues(w) == old(parser).residues(w) + all_residues(self.instrs(), w, k)),
            forall|w: RowView| final(parser).binds(w) == old(parser).binds(w),
            forall|kind: RegionKind| final(parser).region_len(kind) == old(parser).region_len(kind),
            r is Ok ==> forall|w: RowView|
                #[trigger] old(parser).binds(w)
                    ==> final(parser).residues(w)
                        == old(parser).residues(w)
                            + all_residues(self.instrs(), w, self.instrs().len()),
    {
        let n: usize = self.instructions.len();
        let mut k: usize = 0;
        assert forall|w: RowView| #[trigger] old(parser).binds(w) implies parser.residues(w)
            == old(parser).residues(w) + all_residues(self.instrs(), w, 0) by {
            assert(old(parser).residues(w) + Seq::<int>::empty() =~= old(parser).residues(w));
        }
        while k < n
            invariant
                k <= n,
                n == self.instrs().len(),
                forall|w: RowView| parser.binds(w) == old(parser).binds(w),
                forall|kind: RegionKind| parser.region_len(kind) == old(parser).region_len(kind),
                forall|j: int| 0 <= j < k ==> (#[trigger] self.instrs()[j]).readable(old(parser)),
                forall|w: RowView|
                    #[trigger] old(parser).binds(w)
                        ==> parser.residues(w)
                            == old(parser).residues(w) + all_residues(self.instrs(), w, k as nat),
            decreases n - k,
        {
            let ghost before = *parser;
            let r = self.instructions[k].eval(parser);
            proof {
                lemma_readable_same(self.instrs()[k as int], &before, old(parser));
            }
            match r {
                Ok(_) => {},
                Err(e) => {
                    assert(!self.instrs()[k as int].readable(old(parser)));
                    assert(*parser == before);
                    return Err(e);
                },
            }
            assert forall|w: RowView| #[trigger] old(parser).binds(w) implies parser.residues(w)
                == old(parser).residues(w) + all_residues(self.instrs(), w, (k + 1) as nat) by {
                assert(before.binds(w));
                let head = all_residues(self.instrs(), w, k as nat);
                let last = self.instrs()[k as int].residues(w);
                assert((old(parser).residues(w) + head) + last =~= old(parser).residues(w) + (head
                    + last));
            }
            k += 1;
        }
        Ok(())
    }

    /// The lengths of the regions of a trace.
    pub open spec fn lengths(t: TraceView) -> spec_fn(RegionKind) -> nat {
        |kind: RegionKind|
            match kind {
                RegionKind::Local | RegionKind::Next => t.width() as nat,
                RegionKind::Public => t.public.len(),
                RegionKind::Global => t.global.len(),
            }
    }

    /// Whether a trace holds every register of every instruction.
    pub open spec fn held_by(&self, t: TraceView) -> bool {
        forall|k: int|
            0 <= k < self.instrs().len() ==> (#[trigger] self.instrs()[k]).within(Self::lengths(t))
    }

    /// A trace of the shape of the chip holds every register of every
    /// instruction.
    pub proof fn lemma_held_by(&self, t: TraceView)
        requires
            self.wf(),
        ensures
            self.shape().fits(t) ==> self.held_by(t),
    {
        if self.shape().fits(t) {
            lemma_shape_holds(self.instrs(), self.shape(), Self::lengths(t));
        }
    }

    /// Whether every constraint of every instruction is zero at a row of a
    /// trace. There is no answer if the trace has not the row or does not hold
    /// every register of every instruction.
    pub fn check_row(&self, handle: &TraceHandle, row: usize) -> (r: Option<bool>)
        requires
            handle.wf(),
        ensures
            r is Some <==> row < handle@.num_rows() && self.held_by(handle@),
            r matches Some(b) ==> b == (forall|k: int|
                0 <= k < self.instrs().len() ==> (#[trigger] self.instrs()[k]).satisfied(
                    handle@.window(row as int),
                )),
            self.shape().fits(handle@) ==> self.held_by(handle@),
    {
        proof {
            use_type_invariant(self);
            self.lemma_held_by(handle@);
        }
        let mut parser = match handle.packed_parser(row) {
            Some(p) => p,
            None => {
                return None;
            },
        };
        let ghost w = handle@.window(row as int);
        assert(parser.binds(w));
        proof {
            handle.lemma_wf();
            assert(handle@.rows[handle@.next_row(row as int)].len() == handle@.width());
            assert(handle@.rows[row as int].len() == handle@.width());
            self.lemma_held_by(handle@);
            let lens = |kind: RegionKind| parser.region_len(kind);
            assert forall|kind: RegionKind| #[trigger] lens(kind)
                == Self::lengths(handle@)(kind) by {}
            assert(lens =~= Self::lengths(handle@));
        }
        match self.eval(&mut parser) {
            Ok(_) => {},
            Err(_) => {
                return None;
            },
        }
        assert(parser.binds(w));
        let b = parser.all_zero();
        proof {
            lemma_all_residues_zero(self.instrs(), w, self.instrs().len());
            let all = all_residues(self.instrs(), w, self.instrs().len());
            assert(parser.recorded() =~= all);
        }
        Some(b)
    }

    /// Whether every constraint of every instruction is zero at every row of a
    /// trace. There is no answer if the trace does not hold every register of
    /// every instruction.
    pub fn check_trace(&self, handle: &TraceHandle) -> (r: Option<bool>)
        requires
            handle.wf(),
        ensures
            r is Some <==> self.held_by(handle@),
            r matches Some(b) ==> b == (forall|k: int, row: int|
                #![trigger self.instrs()[k].satisfied(handle@.window(row))]
                0 <= k < self.instrs().len() && 0 <= row < handle@.num_rows()
                    ==> self.instrs()[k].satisfied(handle@.window(row))),
            self.shape().fits(handle@) ==> self.held_by(handle@),
    {
        proof {
            use_type_invariant(self);
            self.lemma_held_by(handle@);
        }
        let num_rows: usize = handle.num_rows();
        let mut row: usize = 0;
        while row < num_rows
            invariant
                row <= num_rows,
                num_rows == handle@.num_rows(),
                num_rows > 0,
                handle.wf(),
                row > 0 ==> self.held_by(handle@),
                forall|k: int, r2: int|
                    #![trigger self.instrs()[k].satisfied(handle@.window(r2))]
                    0 <= k < self.instrs().len() && 0 <= r2 < row ==> self.instrs()[k].satisfied(
                        handle@.window(r2),
                    ),
            decreases num_rows - row,
        {
            match self.check_row(handle, row) {
                Some(true) => {},
                Some(false) => {
                    return Some(false);
                },
                None => {
                    return None;
                },
            }
            row += 1;
        }
        // a trace has a row, so that the answer for a row is an answer for the trace
        assert(num_rows > 0);
        Some(true)
    }

    /// The expressions of the constraints of every instruction, in order, for
    /// a circuit that checks them on rows of the shape of the chip.
    pub fn constraints(&self) -> (p: RecursiveParser)
        ensures
            p.spec_width() == self.shape().width,
            p.spec_num_public() == self.shape().num_public,
            p.spec_num_global() == self.shape().num_global,
            forall|w: RowView|
                #[trigger] p.binds(w) ==> p.residues(w) == all_residues(
                    self.instrs(),
                    w,
                    self.instrs().len(),
                ),
    {
        let mut parser = RecursiveParser::new(self.width, self.num_public, self.num_global);
        let ghost start = parser;
        proof {
            use_type_invariant(self);
            lemma_chip_readable(self.instrs(), self.shape(), &parser);
        }
        let r = self.eval(&mut parser);
        assert(r is Ok);
        proof {
            assert(parser.region_len(RegionKind::Local) == start.region_len(RegionKind::Local));
            assert(parser.region_len(RegionKind::Public) == start.region_len(RegionKind::Public));
            assert(parser.region_len(RegionKind::Global) == start.region_len(RegionKind::Global));
            assert forall|w: RowView| #[trigger] parser.binds(w) implies parser.residues(w)
                == all_residues(self.instrs(), w, self.instrs().len()) by {
                assert(start.binds(w));
                assert(start.residues(w) =~= Seq::<int>::empty());
                assert(Seq::<int>::empty() + all_residues(self.instrs(), w, self.instrs().len())
                    =~= all_residues(self.instrs(), w, self.instrs().len()));
            }
        }
        parser
    }
}

/// Whether a parser offers the registers of an instruction depends only on the
/// lengths of the regions that it offers.
pub proof fn lemma_readable_same<AP: AirParser>(instr: Instruction, p: &AP, q: &AP)
    requires
        forall|kind: RegionKind| p.region_len(kind) == q.region_len(kind),
    ensures
        instr.readable(p) == instr.readable(q),
{
    let a = |kind: RegionKind| p.region_len(kind);
    let b = |kind: RegionKind| q.region_len(kind);
    assert forall|kind: RegionKind| #[trigger] a(kind) == b(kind) by {}
    assert(a =~= b);
}

/// Regions of the lengths of a shape hold every register of instructions
/// scheduled for the shape.
pub proof fn lemma_shape_holds(
    instrs: Seq<Instruction>,
    shape: Shape,
    len_of: spec_fn(RegionKind) -> nat,
)
    requires
        scheduled(instrs, shape),
        forall|kind: RegionKind| #[trigger] len_of(kind) == shape.limit(kind),
    ensures
        forall|k: int| 0 <= k < instrs.len() ==> (#[trigger] instrs[k]).within(len_of),
{
    assert forall|k: int| 0 <= k < instrs.len() implies (#[trigger] instrs[k]).within(len_of) by {
        let x = instrs[k];
        assert(valid_registers(x, shape));
        let fp = x.footprint();
        match x {
            Instruction::Byte(b) => {
                let op = b.spec_inner();
                let s = op.slices();
                let rd = b.reads();
                let wr = b.writes();
                assert(fp[rd.len() + wr.len() - 1] == b.spec_digest().slice);
                assert(wr[wr.len() - 1].len == 1);
                assert forall|i: int| 0 <= i < s.len() implies (#[trigger] s[i]).len == 1
                    && s[i].end() <= len_of(s[i].kind) by {
                    if i < rd.len() {
                        assert(fp[i] == rd[i]);
                        assert(rd[i] == s[i]);
                        assert(rd[i].len == 1);
                    } else {
                        assert(fp[rd.len() as int] == wr[0]);
                        assert(wr[0] == s[i]);
                        assert(wr[0].len == 1);
                    }
                }
            },
            Instruction::FpMulConst(m) => {
                assert(fp[0] == m.a_slice());
                assert(fp[1] == m.result_slice());
                assert(fp[2] == m.carry_slice());
                assert(fp[3] == m.low_slice());
                assert(fp[4] == m.high_slice());
            },
        }
    }
}

/// A parser for the shape of a chip offers every register of every
/// instruction of the chip.
pub proof fn lemma_chip_readable<AP: AirParser>(instrs: Seq<Instruction>, shape: Shape, p: &AP)
    requires
        scheduled(instrs, shape),
        forall|kind: RegionKind| p.region_len(kind) == shape.limit(kind),
    ensures
        forall|k: int| 0 <= k < instrs.len() ==> (#[trigger] instrs[k]).readable(p),
{
    lemma_shape_holds(instrs, shape, |kind: RegionKind| p.region_len(kind));
}

/// The instructions with those at `i` and `i + 1` in each other's place.
pub open spec fn swapped(instrs: Seq<Instruction>, i: int) -> Seq<Instruction> {
    instrs.update(i, instrs[i + 1]).update(i + 1, instrs[i])
}

/// Commutativity of write order: two instructions next to each other, neither
/// of which writes a cell that the other reads or writes, can change places.
/// If the row can be written in the one order, it can be written in the other
/// with the same trace.
pub proof fn lemma_swap_neighbours(
    instrs: Seq<Instruction>,
    i: int,
    t: TraceView,
    row: usize,
    global: bool,
    n: nat,
)
    requires
        0 <= i,
        i + 1 < instrs.len(),
        n <= instrs.len(),
        n <= i || i + 2 <= n,
        t.wf(),
        instrs[i].wf(),
        instrs[i + 1].wf(),
        none_overlap(instrs[i].writes(), instrs[i + 1].footprint()),
        none_overlap(instrs[i + 1].writes(), instrs[i].footprint()),
        run_class(instrs, t, row, global, n) is Ok,
    ensures
        run_class(swapped(instrs, i), t, row, global, n) == run_class(instrs, t, row, global, n),
    decreases n,
{
    let other = swapped(instrs, i);
    if n == 0 {
    } else if n <= i {
        lemma_swap_neighbours(instrs, i, t, row, global, (n - 1) as nat);
        assert(other[n - 1] == instrs[n - 1]);
    } else if n == i + 2 {
        lemma_swap_neighbours(instrs, i, t, row, global, i as nat);
        let s = run_class(instrs, t, row, global, i as nat).unwrap();
        lemma_run_class_wf(instrs, t, row, global, i as nat);
        let x = instrs[i];
        let y = instrs[i + 1];
        assert(other[i] == y);
        assert(other[i + 1] == x);
        let mid = run_class(instrs, t, row, global, (i + 1) as nat);
        assert(run_class(instrs, t, row, global, n) == match mid {
            Err(e) => Err::<TraceView, WitnessError>(e),
            Ok(u) => if y.global() == global {
                y.step(u, Some(row))
            } else {
                Ok(u)
            },
        });
        let mid2 = run_class(other, t, row, global, (i + 1) as nat);
        assert(mid2 == (if y.global() == global {
            y.step(s, Some(row))
        } else {
            Ok::<TraceView, WitnessError>(s)
        }));
        if x.global() == global && y.global() == global {
            x.lemma_steps_commute(y, s, Some(row));
        }
    } else {
        lemma_swap_neighbours(instrs, i, t, row, global, (n - 1) as nat);
        assert(other[n - 1] == instrs[n - 1]);
    }
}

/// Writes keep a trace valid.
pub proof fn lemma_run_class_wf(
    instrs: Seq<Instruction>,
    t: TraceView,
    row: usize,
    global: bool,
    n: nat,
)
    requires
        t.wf(),
        n <= instrs.len(),
        run_class(instrs, t, row, global, n) is Ok,
    ensures
        run_class(instrs, t, row, global, n).unwrap().wf(),
        run_class(instrs, t, row, global, n).unwrap().same_shape(t),
    decreases n,
{
    if n > 0 {
        lemma_run_class_wf(instrs, t, row, global, (n - 1) as nat);
        let v = run_class(instrs, t, row, global, (n - 1) as nat).unwrap();
        let x = instrs[n - 1];
        if x.global() == global {
            x.lemma_step_writes(v, Some(row));
            if !x.skips(Some(row)) {
                lemma_write_all_shape(v, x.writes(), Some(row), x.computed(v, Some(row)));
            }
        }
    }
}

} // verus!
