//! The instructions of a chip.
//!
//! An instruction states constraints against a parser and writes the cells
//! that make them zero. It names the registers that it reads and those that it
//! writes, so that a chip can tell whether instructions get in each other's
//! way.

use crate::bytes::ByteOperationInstruction;
use crate::error::{BuildError, WitnessError};
use crate::mul_const::FpMulConst;
use crate::parser::AirParser;
use crate::register::{MemorySlice, RegionKind};
use crate::trace::{RowView, TraceHandle, TraceView};
use vstd::prelude::*;

verus! {

/// One instruction of a chip.
#[derive(Debug)]
pub enum Instruction {
    /// An operation on bytes with its digest.
    Byte(ByteOperationInstruction),
    /// A multiplication by a constant in a limbed field.
    FpMulConst(FpMulConst),
}

impl Instruction {
    /// Validity of an instruction.
    pub open spec fn wf(&self) -> bool {
        match self {
            Instruction::Byte(_) => true,
            Instruction::FpMulConst(m) => m.wf(),
        }
    }

    /// The registers that the instruction reads.
    pub open spec fn reads(&self) -> Seq<MemorySlice> {
        match self {
            Instruction::Byte(b) => b.reads(),
            Instruction::FpMulConst(m) => m.reads(),
        }
    }

    /// The registers that the instruction writes.
    pub open spec fn writes(&self) -> Seq<MemorySlice> {
        match self {
            Instruction::Byte(b) => b.writes(),
            Instruction::FpMulConst(m) => m.writes(),
        }
    }

    /// The registers of the instruction: those it reads, then those it writes.
    pub open spec fn footprint(&self) -> Seq<MemorySlice> {
        self.reads() + self.writes()
    }

    /// Whether the instruction is written at row zero only.
    pub open spec fn global(&self) -> bool {
        match self {
            Instruction::Byte(b) => b.spec_global(),
            Instruction::FpMulConst(_) => false,
        }
    }

    /// Whether the instruction leaves `row` alone.
    pub open spec fn skips(&self, row: Option<usize>) -> bool {
        match self {
            Instruction::Byte(b) => b.skips(row),
            Instruction::FpMulConst(_) => false,
        }
    }

    /// The trace after the instruction was written at `row`, or why it cannot
    /// be.
    pub open spec fn step(&self, t: TraceView, row: Option<usize>) -> Result<
        TraceView,
        WitnessError,
    > {
        match self {
            Instruction::Byte(b) => b.step(t, row),
            Instruction::FpMulConst(m) => m.step(t, row),
        }
    }

    /// What the instruction writes at `row`, register by register.
    pub open spec fn computed(&self, t: TraceView, row: Option<usize>) -> Seq<Seq<int>> {
        match self {
            Instruction::Byte(b) => b.computed(t, row),
            Instruction::FpMulConst(m) => m.computed(t, row),
        }
    }

    /// The values of the constraints of the instruction at a row.
    pub open spec fn residues(&self, w: RowView) -> Seq<int> {
        match self {
            Instruction::Byte(b) => seq![b.residue(w)],
            Instruction::FpMulConst(m) => m.residues(w),
        }
    }

    /// Whether every constraint of the instruction is zero at a row.
    pub open spec fn satisfied(&self, w: RowView) -> bool {
        forall|i: int| 0 <= i < self.residues(w).len() ==> #[trigger] self.residues(w)[i] == 0
    }

    /// Whether the cells that the instruction reads at a row are in the range
    /// that it takes for granted: the operands of an operation on bytes are
    /// bytes.
    pub open spec fn ready(&self, w: RowView) -> bool {
        match self {
            Instruction::Byte(b) => b.spec_inner().operands_in_range(w),
            Instruction::FpMulConst(_) => true,
        }
    }

    /// Whether no register that the instruction writes has a cell in common
    /// with another register of the instruction.
    pub open spec fn well_placed(&self) -> bool {
        match self {
            Instruction::Byte(b) => b.well_placed(),
            Instruction::FpMulConst(m) => m.well_placed(),
        }
    }

    /// What a successful write is, unless the row is left alone: the computed
    /// values, written to the registers that the instruction writes.
    pub proof fn lemma_step_writes(&self, t: TraceView, row: Option<usize>)
        requires
            self.step(t, row) is Ok,
        ensures
            self.skips(row) ==> self.step(t, row) == Ok::<TraceView, WitnessError>(t),
            !self.skips(row) ==> {
                &&& forall|j: int|
                    0 <= j < self.reads().len() ==> t.admits(#[trigger] self.reads()[j], row)
                &&& t.admits_all(self.writes(), row, self.computed(t, row))
                &&& self.step(t, row) == Ok::<TraceView, WitnessError>(
                    t.write_all(self.writes(), row, self.computed(t, row)),
                )
            },
    {
        match self {
            Instruction::Byte(b) => {
                if !b.skips(row) {
                    b.lemma_step_writes(t, row);
                }
            },
            Instruction::FpMulConst(m) => {
                m.lemma_step_writes(t, row);
            },
        }
    }

    /// Constraint vanishing after a write: once the instruction was written at
    /// a row whose cells were in range, every constraint of the instruction is
    /// zero there.
    pub proof fn lemma_step_sound(&self, t: TraceView, row: Option<usize>)
        requires
            self.wf(),
            t.wf(),
            self.well_placed(),
            self.step(t, row) is Ok,
            !self.skips(row),
            self.ready(t.view_at(row)),
        ensures
            self.satisfied(self.step(t, row).unwrap().view_at(row)),
    {
        let w2 = self.step(t, row).unwrap().view_at(row);
        match self {
            Instruction::Byte(b) => {
                b.lemma_step_sound(t, row);
            },
            Instruction::FpMulConst(m) => {
                m.lemma_wf();
                assert forall|i: int| 0 <= i < self.residues(w2).len() implies #[trigger] self.residues(
                    w2,
                )[i] == 0 by {
                    m.lemma_step_sound(t, row, i);
                }
            },
        }
    }

    /// Whether the constraints are zero at a row, and whether the cells read
    /// are in range, depends only on the registers of the instruction.
    pub proof fn lemma_frame(&self, w: RowView, w2: RowView)
        requires
            self.wf(),
            self.well_placed(),
            forall|j: int|
                0 <= j < self.footprint().len() ==> w.values(#[trigger] self.footprint()[j])
                    == w2.values(self.footprint()[j]),
        ensures
            self.satisfied(w) == self.satisfied(w2),
            self.ready(w) == self.ready(w2),
            self.residues(w) == self.residues(w2),
    {
        let rd = self.reads();
        let wr = self.writes();
        let fp = self.footprint();
        assert forall|j: int| 0 <= j < rd.len() implies w.values(#[trigger] rd[j]) == w2.values(
            rd[j],
        ) by {
            assert(fp[j] == rd[j]);
        }
        assert forall|i: int| 0 <= i < wr.len() implies w.values(#[trigger] wr[i]) == w2.values(
            wr[i],
        ) by {
            assert(fp[rd.len() + i] == wr[i]);
        }
        match self {
            Instruction::Byte(b) => {
                b.lemma_residue_frame(w, w2);
                assert(self.residues(w) =~= self.residues(w2));
            },
            Instruction::FpMulConst(m) => {
                m.lemma_wf();
                assert(w.values(rd[0]) == w2.values(rd[0]));
                assert forall|k: int| 0 <= k < 2 * m.nb() - 1 implies m.residue(w, k) == m.residue(
                    w2,
                    k,
                ) by {
                    m.lemma_residue_frame(w, w2, k);
                }
                assert(m.residues(w) =~= m.residues(w2));
            },
        }
        let r1 = self.residues(w);
        let r2 = self.residues(w2);
        assert(r1 == r2);
        if self.satisfied(w) {
            assert forall|i: int| 0 <= i < r2.len() implies #[trigger] r2[i] == 0 by {
                assert(r1[i] == 0);
            }
        }
        if self.satisfied(w2) {
            assert forall|i: int| 0 <= i < r1.len() implies #[trigger] r1[i] == 0 by {
                assert(r2[i] == 0);
            }
        }
    }

    /// Whether the cells read are in range depends only on the registers that
    /// the instruction reads.
    pub proof fn lemma_ready_frame(&self, w: RowView, w2: RowView)
        requires
            self.well_placed(),
            forall|j: int|
                0 <= j < self.reads().len() ==> w.values(#[trigger] self.reads()[j]) == w2.values(
                    self.reads()[j],
                ),
        ensures
            self.ready(w) == self.ready(w2),
    {
        match self {
            Instruction::Byte(b) => {
                assert forall|j: int| 0 <= j < b.reads().len() implies w.values(
                    #[trigger] b.reads()[j],
                ) == w2.values(b.reads()[j]) by {
                    assert(self.reads()[j] == b.reads()[j]);
                }
                b.lemma_ready_frame(w, w2);
            },
            Instruction::FpMulConst(_) => {},
        }
    }

    /// Executable form of `well_placed`.
    pub fn is_well_placed(&self) -> (r: bool)
        ensures
            r == self.well_placed(),
    {
        match self {
            Instruction::Byte(b) => b.is_well_placed(),
            Instruction::FpMulConst(m) => m.is_well_placed(),
        }
    }

    /// What being well placed means, over the registers of the instruction.
    pub proof fn lemma_well_placed(&self)
        requires
            self.well_placed(),
        ensures
            crate::trace::pairwise_apart(self.writes()),
            crate::trace::none_overlap(self.writes(), self.reads()),
    {
        match self {
            Instruction::Byte(b) => {},
            Instruction::FpMulConst(m) => {
                assert forall|i: int, j: int|
                    #![trigger self.writes()[i], self.reads()[j]]
                    0 <= i < self.writes().len() && 0 <= j < self.reads().len()
                        implies !self.writes()[i].overlaps(&self.reads()[j]) by {
                    assert(!m.writes()[i].overlaps(&m.a_slice()));
                }
            },
        }
    }

    /// What a write does depends only on the shape of the trace and on the
    /// registers that the instruction reads.
    pub proof fn lemma_step_congruent(&self, t: TraceView, t2: TraceView, row: Option<usize>)
        requires
            self.wf(),
            t.wf(),
            t2.wf(),
            t.same_shape(t2),
            forall|j: int|
                0 <= j < self.reads().len() && t.admits(#[trigger] self.reads()[j], row)
                    ==> t.view_at(row).values(self.reads()[j]) == t2.view_at(row).values(
                    self.reads()[j],
                ),
        ensures
            self.step(t, row) is Ok <==> self.step(t2, row) is Ok,
            self.step(t, row) matches Err(e) ==> self.step(t2, row) == Err::<
                TraceView,
                WitnessError,
            >(e),
            self.step(t, row) is Ok && !self.skips(row) ==> self.computed(t, row) == self.computed(
                t2,
                row,
            ),
    {
        match self {
            Instruction::Byte(b) => {
                assert forall|j: int|
                    0 <= j < b.reads().len() && t.admits(#[trigger] b.reads()[j], row)
                        && b.reads()[j].len == 1 implies t.view_at(row).values(b.reads()[j])
                    == t2.view_at(row).values(b.reads()[j]) by {
                    assert(self.reads()[j] == b.reads()[j]);
                }
                b.lemma_step_congruent(t, t2, row);
            },
            Instruction::FpMulConst(m) => {
                assert(self.reads()[0] == m.a_slice());
                m.lemma_step_congruent(t, t2, row);
            },
        }
    }

    /// Commutativity of write order: two instructions, neither of which
    /// writes a cell that the other reads or writes, can be written at a row
    /// in either order. If the one order succeeds, so does the other, with
    /// the same trace.
    pub proof fn lemma_steps_commute(&self, other: Instruction, t: TraceView, row: Option<usize>)
        requires
            self.wf(),
            other.wf(),
            t.wf(),
            crate::trace::none_overlap(self.writes(), other.footprint()),
            crate::trace::none_overlap(other.writes(), self.footprint()),
            self.step(t, row) is Ok,
            other.step(self.step(t, row).unwrap(), row) is Ok,
        ensures
            other.step(t, row) is Ok,
            self.step(other.step(t, row).unwrap(), row) == other.step(
                self.step(t, row).unwrap(),
                row,
            ),
    {
        let x = *self;
        let y = other;
        let u = x.step(t, row).unwrap();
        x.lemma_step_writes(t, row);
        if x.skips(row) {
            // the first write leaves the row alone, before and after the other
            y.lemma_step_writes(t, row);
            let v = y.step(t, row).unwrap();
            match x {
                Instruction::Byte(b) => {
                    assert(b.step(v, row) == Ok::<TraceView, WitnessError>(v));
                },
                Instruction::FpMulConst(_) => {},
            }
        } else {
            let wx = x.writes();
            let vx = x.computed(t, row);
            crate::trace::lemma_write_all_shape(t, wx, row, vx);
            y.lemma_step_writes(u, row);
            if y.skips(row) {
                match y {
                    Instruction::Byte(b) => {
                        assert(b.step(t, row) == Ok::<TraceView, WitnessError>(t));
                    },
                    Instruction::FpMulConst(_) => {},
                }
            } else {
                let wy = y.writes();
                // the other instruction reads in `u` what it reads in `t`
                assert forall|j: int|
                    0 <= j < y.reads().len() && u.admits(#[trigger] y.reads()[j], row)
                        implies u.view_at(row).values(y.reads()[j]) == t.view_at(row).values(
                    y.reads()[j],
                ) by {
                    let s = y.reads()[j];
                    assert(y.footprint()[j] == s);
                    assert forall|i: int| 0 <= i < wx.len() implies t.apart(
                        #[trigger] wx[i],
                        row,
                        s,
                        row,
                    ) by {
                        assert(!wx[i].overlaps(&y.footprint()[j]));
                    }
                    assert(t.admits(s, row) == u.admits(s, row));
                    crate::trace::lemma_write_all_other(t, wx, row, vx, s, row);
                }
                y.lemma_step_congruent(u, t, row);
                let vy = y.computed(t, row);
                y.lemma_step_writes(t, row);
                let u2 = y.step(t, row).unwrap();
                crate::trace::lemma_write_all_shape(t, wy, row, vy);
                // this instruction reads in `u2` what it reads in `t`
                assert forall|j: int|
                    0 <= j < x.reads().len() && t.admits(#[trigger] x.reads()[j], row)
                        implies t.view_at(row).values(x.reads()[j]) == u2.view_at(row).values(
                    x.reads()[j],
                ) by {
                    let s = x.reads()[j];
                    assert(x.footprint()[j] == s);
                    assert forall|i: int| 0 <= i < wy.len() implies t.apart(
                        #[trigger] wy[i],
                        row,
                        s,
                        row,
                    ) by {
                        assert(!wy[i].overlaps(&x.footprint()[j]));
                    }
                    crate::trace::lemma_write_all_other(t, wy, row, vy, s, row);
                }
                x.lemma_step_congruent(t, u2, row);
                x.lemma_step_writes(u2, row);
                assert(crate::trace::none_overlap(wx, wy)) by {
                    assert forall|i: int, j: int|
                        #![trigger wx[i], wy[j]]
                        0 <= i < wx.len() && 0 <= j < wy.len() implies !wx[i].overlaps(&wy[j]) by {
                        assert(y.footprint()[y.reads().len() + j] == wy[j]);
                    }
                }
                crate::trace::lemma_write_all_commutes(t, wx, vx, wy, vy, row);
            }
        }
    }

    /// Whether the instruction is written at row zero only.
    pub fn is_global(&self) -> (r: bool)
        ensures
            r == self.global(),
    {
        match self {
            Instruction::Byte(b) => b.is_global(),
            Instruction::FpMulConst(_) => false,
        }
    }

    /// The registers that the instruction reads. Every instruction in hand is
    /// valid.
    pub fn input_slices(&self) -> (r: Vec<MemorySlice>)
        ensures
            r@ == self.reads(),
            self.wf(),
    {
        match self {
            Instruction::Byte(b) => b.input_slices(),
            Instruction::FpMulConst(m) => m.input_slices(),
        }
    }

    /// The registers that the instruction writes.
    pub fn output_slices(&self) -> (r: Vec<MemorySlice>)
        ensures
            r@ == self.writes(),
    {
        match self {
            Instruction::Byte(b) => b.output_slices(),
            Instruction::FpMulConst(m) => m.output_slices(),
        }
    }

    /// The registers of the instruction: those it reads, then those it writes.
    pub fn memory_footprint(&self) -> (r: Vec<MemorySlice>)
        ensures
            r@ == self.footprint(),
            self.wf(),
    {
        let mut out = self.input_slices();
        let mut wr = self.output_slices();
        out.append(&mut wr);
        out
    }

    /// Writes the instruction at `row`. Fails, and leaves the trace as it was,
    /// if it cannot be written.
    pub fn write_at(&self, handle: &mut TraceHandle, row: Option<usize>) -> (r: Result<
        (),
        WitnessError,
    >)
        requires
            old(handle).wf(),
        ensures
            final(handle).wf(),
            match r {
                Ok(_) => self.step(old(handle)@, row) == Ok::<TraceView, WitnessError>(
                    final(handle)@,
                ),
                Err(e) => {
                    &&& self.step(old(handle)@, row) == Err::<TraceView, WitnessError>(e)
                    &&& final(handle)@ == old(handle)@
                },
            },
    {
        match self {
            Instruction::Byte(b) => b.write_at(handle, row),
            Instruction::FpMulConst(m) => m.write_at(handle, row),
        }
    }

    /// Whether every register of the instruction lies within regions of the
    /// given lengths, in the shape that the instruction needs.
    pub open spec fn within(&self, len_of: spec_fn(RegionKind) -> nat) -> bool {
        match self {
            Instruction::Byte(b) => b.within(len_of),
            Instruction::FpMulConst(m) => m.within(len_of),
        }
    }

    /// Whether every register of the instruction lies within what the parser
    /// offers, in the shape that the instruction needs.
    pub open spec fn readable<AP: AirParser>(&self, parser: &AP) -> bool {
        self.within(|kind: RegionKind| parser.region_len(kind))
    }

    /// States the constraints of the instruction against a parser. Fails, and
    /// leaves the parser as it was, if the parser does not offer every
    /// register of the instruction.
    pub fn eval<AP: AirParser>(&self, parser: &mut AP) -> (r: Result<(), BuildError>)
        ensures
            r is Ok <==> self.readable(old(parser)),
            r is Err ==> r == Err::<(), BuildError>(BuildError::InvalidRegister) && *final(parser)
                == *old(parser),
            forall|w: RowView| final(parser).binds(w) == old(parser).binds(w),
            forall|kind: RegionKind| final(parser).region_len(kind) == old(parser).region_len(kind),
            r is Ok ==> forall|w: RowView|
                #[trigger] old(parser).binds(w)
                    ==> final(parser).residues(w) == old(parser).residues(w) + self.residues(w),
    {
        match self {
            Instruction::Byte(b) => {
                let r = b.eval(parser);
                proof {
                    if r is Ok {
                        assert forall|w: RowView| #[trigger] old(parser).binds(w) implies parser.residues(
                            w,
                        ) == old(parser).residues(w) + self.residues(w) by {
                            assert(old(parser).residues(w).push(b.residue(w)) =~= old(parser).residues(w) + seq![b.residue(w)]);
                        }
                    }
                }
                r
            },
            Instruction::FpMulConst(m) => m.eval(parser),
        }
    }
}

} // verus!
