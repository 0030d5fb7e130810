//! The builder of a chip: it allocates registers and takes instructions.
//!
//! Allocation is a counter for each region: a register gets the next columns
//! of its region, and nothing is ever given back. An instruction is taken only
//! if it keeps the instructions scheduled.

use crate::blake2b::{array_is_valid, Blake2bJob};
use crate::bytes::{rebuild_operation, ByteOpKind, ByteOperation, ByteOperationInstruction};
use crate::chip::{
    check_clear_of, check_valid_registers, clear_of, lemma_scheduled_grows, scheduled,
    valid_registers, Chip, Shape,
};
use crate::error::BuildError;
use crate::instruction::Instruction;
use crate::mul_const::FpMulConst;
use crate::params::{FieldParameters, MAX_NB_LIMBS};
use crate::register::{
    ArrayRegister, BitRegister, ByteRegister, ElementRegister, FieldRegister, MemorySlice,
    RegionKind, Register, U16Register, U64Register,
};
use vstd::prelude::*;

verus! {

/// The column budget of a chip.
#[derive(Clone, Copy, Debug, PartialEq, Eq, Structural)]
pub struct AirParameters {
    /// Columns for the limbs and witnesses of field arithmetic.
    pub num_arithmetic_columns: usize,
    /// Columns that instructions may use freely.
    pub num_free_columns: usize,
    /// Columns for the digests of lookups.
    pub extended_columns: usize,
}

impl AirParameters {
    /// The number of columns that may be allocated in the trace: the sum of
    /// the three budgets, or the largest column count if the sum is larger.
    pub open spec fn budget(&self) -> int {
        let sum = self.num_arithmetic_columns + self.num_free_columns + self.extended_columns;
        if sum > usize::MAX {
            usize::MAX as int
        } else {
            sum
        }
    }

    /// Executable form of `budget`.
    pub fn column_budget(&self) -> (r: usize)
        ensures
            r == self.budget(),
    {
        let partial: usize = match self.num_arithmetic_columns.checked_add(self.num_free_columns) {
            Some(p) => p,
            None => {
                return usize::MAX;
            },
        };
        match partial.checked_add(self.extended_columns) {
            Some(total) => total,
            None => usize::MAX,
        }
    }
}

/// Whether an instruction may follow the given ones on columns of the given
/// shape: its registers are valid for the shape, it writes no cell that it
/// reads, and it is clear of every one of the instructions.
pub open spec fn accepts_in(instrs: Seq<Instruction>, shape: Shape, instr: Instruction) -> Result<
    (),
    BuildError,
> {
    if !valid_registers(instr, shape) {
        Err(BuildError::InvalidRegister)
    } else if !instr.well_placed() || exists|k: int|
        0 <= k < instrs.len() && !clear_of(instr, #[trigger] instrs[k]) {
        Err(BuildError::DuplicateColumnUse)
    } else {
        Ok(())
    }
}

/// A chip under construction.
#[derive(Debug)]
pub struct ChipBuilder {
    params: AirParameters,
    local_index: usize,
    public_index: usize,
    global_index: usize,
    instructions: Vec<Instruction>,
}

impl ChipBuilder {
    /// The column budget.
    pub closed spec fn params(&self) -> AirParameters {
        self.params
    }

    /// The columns allocated so far: in the trace, in the public vector and in
    /// the global vector.
    pub closed spec fn shape(&self) -> Shape {
        Shape {
            width: self.local_index as int,
            num_public: self.public_index as int,
            num_global: self.global_index as int,
        }
    }

    /// The instructions taken so far.
    pub closed spec fn instrs(&self) -> Seq<Instruction> {
        self.instructions@
    }

    /// Validity of a builder: the allocation is within the budget, and the
    /// instructions are scheduled for the columns allocated.
    pub open spec fn wf(&self) -> bool {
        &&& 0 <= self.shape().width <= self.params().budget()
        &&& 0 <= self.shape().num_public <= usize::MAX
        &&& 0 <= self.shape().num_global <= usize::MAX
        &&& scheduled(self.instrs(), self.shape())
    }

    /// The number of columns that may be allocated in a region.
    pub open spec fn capacity(&self, kind: RegionKind) -> int {
        match kind {
            RegionKind::Local | RegionKind::Next => self.params().budget(),
            _ => usize::MAX as int,
        }
    }

    /// A builder with the given budget, nothing allocated and no instruction.
    pub fn new(params: AirParameters) -> (r: ChipBuilder)
        ensures
            r.wf(),
            r.params() == params,
            r.shape() == (Shape { width: 0, num_public: 0, num_global: 0 }),
            r.instrs() == Seq::<Instruction>::empty(),
    {
        ChipBuilder {
            params,
            local_index: 0,
            public_index: 0,
            global_index: 0,
            instructions: Vec::new(),
        }
    }

    /// The number of columns allocated so far in the trace.
    pub fn num_local(&self) -> (r: usize)
        ensures
            r == self.shape().width,
    {
        self.local_index
    }

    /// The number of cells allocated so far in the public vector.
    pub fn num_public(&self) -> (r: usize)
        ensures
            r == self.shape().num_public,
    {
        self.public_index
    }

    /// The number of cells allocated so far in the global vector.
    pub fn num_global(&self) -> (r: usize)
        ensures
            r == self.shape().num_global,
    {
        self.global_index
    }

    /// The number of instructions taken so far.
    pub fn num_instructions(&self) -> (r: usize)
        ensures
            r == self.instrs().len(),
    {
        self.instructions.len()
    }

    /// Allocates the next `n` columns of a region: columns that no slice
    /// within the columns allocated before has a cell in. Fails, and
    /// allocates nothing, if the region has not that many columns left.
    pub fn allocate(&mut self, kind: RegionKind, n: usize) -> (r: Result<MemorySlice, BuildError>)
        requires
            old(self).wf(),
        ensures
            final(self).wf(),
            final(self).params() == old(self).params(),
            final(self).instrs() == old(self).instrs(),
            r is Ok <==> old(self).shape().limit(kind) + n <= old(self).capacity(kind),
            r matches Ok(s) ==> {
                &&& s == (MemorySlice {
                    kind,
                    offset: old(self).shape().limit(kind) as usize,
                    len: n,
                })
                &&& final(self).shape().limit(kind) == old(self).shape().limit(kind) + n
                &&& forall|other: RegionKind|
                    !other.same_storage(kind)
                        ==> final(self).shape().limit(other) == old(self).shape().limit(other)
                &&& forall|earlier: MemorySlice|
                    earlier.end() <= old(self).shape().limit(earlier.kind)
                        ==> !(#[trigger] s.overlaps(
                        &earlier,
                    ))
            },
            r is Err ==> r == Err::<MemorySlice, BuildError>(BuildError::AllocationOverflow)
                && final(self).shape() == old(self).shape(),
    {
        let ghost before = self.shape();
        let limit: usize = match kind {
            RegionKind::Local | RegionKind::Next => self.params.column_budget(),
            _ => usize::MAX,
        };
        let offset: usize = match kind {
            RegionKind::Local | RegionKind::Next => self.local_index,
            RegionKind::Public => self.public_index,
            RegionKind::Global => self.global_index,
        };
        if n > limit - offset {
            return Err(BuildError::AllocationOverflow);
        }
        match kind {
            RegionKind::Local | RegionKind::Next => {
                self.local_index = offset + n;
            },
            RegionKind::Public => {
                self.public_index = offset + n;
            },
            RegionKind::Global => {
                self.global_index = offset + n;
            },
        }
        proof {
            lemma_scheduled_grows(self.instrs(), before, self.shape());
            assert forall|other: RegionKind| !other.same_storage(kind) implies self.shape().limit(
                other,
            ) == before.limit(other) by {}
        }
        Ok(MemorySlice { kind, offset, len: n })
    }

    /// Allocates a register of type `T` in a region.
    pub fn alloc_register<T: Register>(&mut self, kind: RegionKind) -> (r: Result<T, BuildError>)
        requires
            old(self).wf(),
        ensures
            final(self).wf(),
            final(self).params() == old(self).params(),
            final(self).instrs() == old(self).instrs(),
            r is Ok <==> old(self).shape().limit(kind)
                + T::spec_width() <= old(self).capacity(kind),
            r matches Ok(t) ==> {
                &&& t.slice() == (MemorySlice {
                    kind,
                    offset: old(self).shape().limit(kind) as usize,
                    len: T::spec_width() as usize,
                })
                &&& final(self).shape().limit(kind) == old(self).shape().limit(kind)
                    + T::spec_width()
                &&& forall|other: RegionKind|
                    !other.same_storage(kind)
                        ==> final(self).shape().limit(other) == old(self).shape().limit(other)
            },
            r is Err ==> r == Err::<T, BuildError>(BuildError::AllocationOverflow)
                && final(self).shape() == old(self).shape(),
    {
        match self.allocate(kind, T::width()) {
            Ok(s) => Ok(T::from_slice(s)),
            Err(e) => Err(e),
        }
    }

    /// Allocates an array of `n` registers of type `T` in a region.
    pub fn alloc_array<T: Register>(&mut self, kind: RegionKind, n: usize) -> (r: Result<
        ArrayRegister<T>,
        BuildError,
    >)
        requires
            old(self).wf(),
        ensures
            final(self).wf(),
            final(self).params() == old(self).params(),
            final(self).instrs() == old(self).instrs(),
            r is Ok <==> old(self).shape().limit(kind) + n * T::spec_width() <= old(self).capacity(
                kind,
            ),
            r matches Ok(a) ==> {
                &&& a.wf()
                &&& a.length == n
                &&& a.slice == (MemorySlice {
                    kind,
                    offset: old(self).shape().limit(kind) as usize,
                    len: (n * T::spec_width()) as usize,
                })
                &&& final(self).shape().limit(kind) == old(self).shape().limit(kind) + n
                    * T::spec_width()
                &&& forall|other: RegionKind|
                    !other.same_storage(kind)
                        ==> final(self).shape().limit(other) == old(self).shape().limit(other)
            },
            r is Err ==> r == Err::<ArrayRegister<T>, BuildError>(BuildError::AllocationOverflow)
                && final(self).shape() == old(self).shape(),
    {
        let total: usize = match n.checked_mul(T::width()) {
            Some(t) => t,
            None => {
                return Err(BuildError::AllocationOverflow);
            },
        };
        match self.allocate(kind, total) {
            Ok(s) => Ok(ArrayRegister { slice: s, length: n, marker: core::marker::PhantomData }),
            Err(e) => Err(e),
        }
    }

    /// Allocates a register of type `T` in the trace.
    pub fn alloc_local<T: Register>(&mut self) -> (r: Result<T, BuildError>)
        requires
            old(self).wf(),
        ensures
            final(self).wf(),
            final(self).params() == old(self).params(),
            final(self).instrs() == old(self).instrs(),
            r is Ok <==> old(self).shape().width + T::spec_width() <= old(self).params().budget(),
            r matches Ok(t) ==> {
                &&& t.slice() == (MemorySlice {
                    kind: RegionKind::Local,
                    offset: old(self).shape().width as usize,
                    len: T::spec_width() as usize,
                })
                &&& final(self).shape() == (Shape {
                    width: old(self).shape().width + T::spec_width(),
                    ..old(self).shape()
                })
            },
            r is Err ==> r == Err::<T, BuildError>(BuildError::AllocationOverflow)
                && final(self).shape() == old(self).shape(),
    {
        let r = self.alloc_register::<T>(RegionKind::Local);
        proof {
            if r is Ok {
                assert(!RegionKind::Public.same_storage(RegionKind::Local));
                assert(!RegionKind::Global.same_storage(RegionKind::Local));
                assert(self.shape().limit(RegionKind::Public) == old(self).shape().limit(
                    RegionKind::Public,
                ));
                assert(self.shape().limit(RegionKind::Global) == old(self).shape().limit(
                    RegionKind::Global,
                ));
            }
        }
        r
    }

    /// Allocates a register of type `T` in the public vector.
    pub fn alloc_public<T: Register>(&mut self) -> (r: Result<T, BuildError>)
        requires
            old(self).wf(),
        ensures
            final(self).wf(),
            final(self).params() == old(self).params(),
            final(self).instrs() == old(self).instrs(),
            r is Ok <==> old(self).shape().num_public + T::spec_width() <= usize::MAX,
            r matches Ok(t) ==> {
                &&& t.slice() == (MemorySlice {
                    kind: RegionKind::Public,
                    offset: old(self).shape().num_public as usize,
                    len: T::spec_width() as usize,
                })
                &&& final(self).shape() == (Shape {
                    num_public: old(self).shape().num_public + T::spec_width(),
                    ..old(self).shape()
                })
            },
            r is Err ==> r == Err::<T, BuildError>(BuildError::AllocationOverflow)
                && final(self).shape() == old(self).shape(),
    {
        let r = self.alloc_register::<T>(RegionKind::Public);
        proof {
            if r is Ok {
                assert(!RegionKind::Local.same_storage(RegionKind::Public));
                assert(!RegionKind::Global.same_storage(RegionKind::Public));
                assert(self.shape().limit(RegionKind::Local) == old(self).shape().limit(
                    RegionKind::Local,
                ));
                assert(self.shape().limit(RegionKind::Global) == old(self).shape().limit(
                    RegionKind::Global,
                ));
            }
        }
        r
    }

    /// Allocates a register of type `T` in the global vector.
    pub fn alloc_global<T: Register>(&mut self) -> (r: Result<T, BuildError>)
        requires
            old(self).wf(),
        ensures
            final(self).wf(),
            final(self).params() == old(self).params(),
            final(self).instrs() == old(self).instrs(),
            r is Ok <==> old(self).shape().num_global + T::spec_width() <= usize::MAX,
            r matches Ok(t) ==> {
                &&& t.slice() == (MemorySlice {
                    kind: RegionKind::Global,
                    offset: old(self).shape().num_global as usize,
                    len: T::spec_width() as usize,
                })
                &&& final(self).shape() == (Shape {
                    num_global: old(self).shape().num_global + T::spec_width(),
                    ..old(self).shape()
                })
            },
            r is Err ==> r == Err::<T, BuildError>(BuildError::AllocationOverflow)
                && final(self).shape() == old(self).shape(),
    {
        let r = self.alloc_register::<T>(RegionKind::Global);
        proof {
            if r is Ok {
                assert(!RegionKind::Local.same_storage(RegionKind::Global));
                assert(!RegionKind::Public.same_storage(RegionKind::Global));
                assert(self.shape().limit(RegionKind::Local) == old(self).shape().limit(
                    RegionKind::Local,
                ));
                assert(self.shape().limit(RegionKind::Public) == old(self).shape().limit(
                    RegionKind::Public,
                ));
            }
        }
        r
    }

    /// Allocates an array of `n` registers of type `T` in the trace.
    pub fn alloc_local_array<T: Register>(&mut self, n: usize) -> (r: Result<
        ArrayRegister<T>,
        BuildError,
    >)
        requires
            old(self).wf(),
        ensures
            final(self).wf(),
            final(self).params() == old(self).params(),
            final(self).instrs() == old(self).instrs(),
            r is Ok <==> old(self).shape().width
                + n * T::spec_width() <= old(self).params().budget(),
            r matches Ok(a) ==> {
                &&& a.wf()
                &&& a.length == n
                &&& a.slice == (MemorySlice {
                    kind: RegionKind::Local,
                    offset: old(self).shape().width as usize,
                    len: (n * T::spec_width()) as usize,
                })
                &&& final(self).shape() == (Shape {
                    width: old(self).shape().width + n * T::spec_width(),
                    ..old(self).shape()
                })
            },
            r is Err ==> r == Err::<ArrayRegister<T>, BuildError>(BuildError::AllocationOverflow)
                && final(self).shape() == old(self).shape(),
    {
        let r = self.alloc_array::<T>(RegionKind::Local, n);
        proof {
            if r is Ok {
                assert(!RegionKind::Public.same_storage(RegionKind::Local));
                assert(!RegionKind::Global.same_storage(RegionKind::Local));
                assert(self.shape().limit(RegionKind::Public) == old(self).shape().limit(
                    RegionKind::Public,
                ));
                assert(self.shape().limit(RegionKind::Global) == old(self).shape().limit(
                    RegionKind::Global,
                ));
            }
        }
        r
    }

    /// Allocates an array of `n` registers of type `T` in the public vector.
    pub fn alloc_array_public<T: Register>(&mut self, n: usize) -> (r: Result<
        ArrayRegister<T>,
        BuildError,
    >)
        requires
            old(self).wf(),
        ensures
            final(self).wf(),
            final(self).params() == old(self).params(),
            final(self).instrs() == old(self).instrs(),
            r is Ok <==> old(self).shape().num_public + n * T::spec_width() <= usize::MAX,
            r matches Ok(a) ==> {
                &&& a.wf()
                &&& a.length == n
                &&& a.slice == (MemorySlice {
                    kind: RegionKind::Public,
                    offset: old(self).shape().num_public as usize,
                    len: (n * T::spec_width()) as usize,
                })
                &&& final(self).shape() == (Shape {
                    num_public: old(self).shape().num_public + n * T::spec_width(),
                    ..old(self).shape()
                })
            },
            r is Err ==> r == Err::<ArrayRegister<T>, BuildError>(BuildError::AllocationOverflow)
                && final(self).shape() == old(self).shape(),
    {
        let r = self.alloc_array::<T>(RegionKind::Public, n);
        proof {
            if r is Ok {
                assert(!RegionKind::Local.same_storage(RegionKind::Public));
                assert(!RegionKind::Global.same_storage(RegionKind::Public));
                assert(self.shape().limit(RegionKind::Local) == old(self).shape().limit(
                    RegionKind::Local,
                ));
                assert(self.shape().limit(RegionKind::Global) == old(self).shape().limit(
                    RegionKind::Global,
                ));
            }
        }
        r
    }

    /// Allocates a register for a number of a limbed field in the trace: as
    /// many columns as the parameter set has limbs.
    pub fn alloc_local_field(&mut self, params: &FieldParameters) -> (r: Result<
        FieldRegister,
        BuildError,
    >)
        requires
            old(self).wf(),
        ensures
            final(self).wf(),
            final(self).params() == old(self).params(),
            final(self).instrs() == old(self).instrs(),
            r is Ok <==> old(self).shape().width
                + params.spec_nb_limbs() <= old(self).params().budget(),
            r matches Ok(f) ==> {
                &&& f.slice == (MemorySlice {
                    kind: RegionKind::Local,
                    offset: old(self).shape().width as usize,
                    len: params.spec_nb_limbs() as usize,
                })
                &&& final(self).shape() == (Shape {
                    width: old(self).shape().width + params.spec_nb_limbs(),
                    ..old(self).shape()
                })
            },
            r is Err ==> r == Err::<FieldRegister, BuildError>(BuildError::AllocationOverflow)
                && final(self).shape() == old(self).shape(),
    {
        let r = self.allocate(RegionKind::Local, params.nb_limbs());
        proof {
            if r is Ok {
                assert(!RegionKind::Public.same_storage(RegionKind::Local));
                assert(!RegionKind::Global.same_storage(RegionKind::Local));
                assert(self.shape().limit(RegionKind::Public) == old(self).shape().limit(
                    RegionKind::Public,
                ));
                assert(self.shape().limit(RegionKind::Global) == old(self).shape().limit(
                    RegionKind::Global,
                ));
            }
        }
        match r {
            Ok(s) => Ok(FieldRegister { slice: s }),
            Err(e) => Err(e),
        }
    }

    /// Whether an instruction may be taken: its registers are valid for the
    /// columns allocated, and it is clear of every instruction taken so far.
    pub open spec fn accepts(&self, instr: Instruction) -> Result<(), BuildError> {
        accepts_in(self.instrs(), self.shape(), instr)
    }

    /// Takes an instruction as the last of the chip. Fails, and takes
    /// nothing, if a register of the instruction lies outside the columns
    /// allocated or in a region that the instruction cannot use, or if the
    /// instruction would write a cell that it reads or that an instruction
    /// taken before reads or writes.
    pub fn insert_instruction(&mut self, instr: Instruction) -> (r: Result<(), BuildError>)
        requires
            old(self).wf(),
        ensures
            final(self).wf(),
            final(self).params() == old(self).params(),
            final(self).shape() == old(self).shape(),
            r == old(self).accepts(instr),
            r is Ok ==> final(self).instrs() == old(self).instrs().push(instr),
            r is Err ==> final(self).instrs() == old(self).instrs(),
    {
        if !check_valid_registers(&instr, self.local_index, self.public_index, self.global_index) {
            return Err(BuildError::InvalidRegister);
        }
        if !instr.is_well_placed() {
            return Err(BuildError::DuplicateColumnUse);
        }
        let mut k: usize = 0;
        while k < self.instructions.len()
            invariant
                k <= self.instrs().len(),
                *self == *old(self),
                self.wf(),
                valid_registers(instr, self.shape()),
                instr.well_placed(),
                forall|j: int| 0 <= j < k ==> clear_of(instr, #[trigger] self.instrs()[j]),
            decreases self.instructions.len() - k,
        {
            if !check_clear_of(&instr, &self.instructions[k]) {
                assert(!clear_of(instr, self.instrs()[k as int]));
                return Err(BuildError::DuplicateColumnUse);
            }
            k += 1;
        }
        self.instructions.push(instr);
        proof {
            let all = self.instrs();
            let n = old(self).instrs().len() as int;
            assert forall|a: int| 0 <= a < all.len() implies valid_registers(
                #[trigger] all[a],
                self.shape(),
            ) && all[a].well_placed() by {
                if a < n {
                    assert(all[a] == old(self).instrs()[a]);
                }
            }
            assert forall|a: int, b: int|
                #![trigger all[a], all[b]]
                0 <= a < b < all.len() implies clear_of(all[b], all[a]) by {
                assert(all[a] == old(self).instrs()[a]);
                if b < n {
                    assert(all[b] == old(self).instrs()[b]);
                }
            }
        }
        Ok(())
    }

    /// The instruction that `fpmul_const` makes on a builder with `width`
    /// columns allocated in the trace: carry and the two halves of the witness
    /// follow each other from column `width` on.
    pub open spec fn fpmul_const_instruction(
        width: int,
        params: FieldParameters,
        a: FieldRegister,
        c: [u16; MAX_NB_LIMBS],
        result: FieldRegister,
    ) -> FpMulConst {
        let nb = params.spec_nb_limbs() as int;
        FpMulConst::assemble(
            params,
            a,
            c,
            result,
            FieldRegister {
                slice: MemorySlice {
                    kind: RegionKind::Local,
                    offset: width as usize,
                    len: nb as usize,
                },
            },
            ArrayRegister {
                slice: MemorySlice {
                    kind: RegionKind::Local,
                    offset: (width + nb) as usize,
                    len: (2 * nb - 2) as usize,
                },
                length: (2 * nb - 2) as usize,
                marker: core::marker::PhantomData,
            },
            ArrayRegister {
                slice: MemorySlice {
                    kind: RegionKind::Local,
                    offset: (width + 3 * nb - 2) as usize,
                    len: (2 * nb - 2) as usize,
                },
                length: (2 * nb - 2) as usize,
                marker: core::marker::PhantomData,
            },
        )
    }

    /// What `fpmul_const` answers: the instruction, or why it cannot be added.
    pub open spec fn fpmul_const_outcome(
        &self,
        params: FieldParameters,
        a: FieldRegister,
        c: [u16; MAX_NB_LIMBS],
        result: FieldRegister,
    ) -> Result<FpMulConst, BuildError> {
        let nb = params.spec_nb_limbs() as int;
        let width = self.shape().width;
        let m = Self::fpmul_const_instruction(width, params, a, c, result);
        if width + 5 * nb - 4 > self.params().budget() {
            Err(BuildError::AllocationOverflow)
        } else if !(a.slice.len == nb && result.slice.len == nb && a.slice.end() <= usize::MAX
            && result.slice.end() <= usize::MAX) {
            Err(BuildError::InvalidRegister)
        } else {
            match accepts_in(
                self.instrs(),
                Shape { width: width + 5 * nb - 4, ..self.shape() },
                Instruction::FpMulConst(m),
            ) {
                Err(e) => Err(e),
                Ok(_) => Ok(m),
            }
        }
    }

    /// Adds the instruction `result = a·c mod p` to the chip: allocates the
    /// carry and the two halves of the witness in the trace, `5·nb - 4`
    /// columns in all, and takes the instruction.
    ///
    /// Fails, and leaves the builder as it was, with `AllocationOverflow` if
    /// the trace has not that many columns left, with `InvalidRegister` if `a`
    /// or `result` has not `nb` columns, and as `insert_instruction` does if
    /// the instruction cannot be taken.
    pub fn fpmul_const(
        &mut self,
        params: &FieldParameters,
        a: &FieldRegister,
        c: [u16; MAX_NB_LIMBS],
        result: &FieldRegister,
    ) -> (r: Result<FpMulConst, BuildError>)
        requires
            old(self).wf(),
        ensures
            final(self).wf(),
            final(self).params() == old(self).params(),
            r == old(self).fpmul_const_outcome(*params, *a, c, *result),
            r is Err ==> final(self).instrs() == old(self).instrs()
                && final(self).shape() == old(self).shape(),
            r matches Ok(m) ==> {
                let w = old(self).shape().width;
                let nb = params.spec_nb_limbs() as int;
                &&& final(self).instrs() == old(self).instrs().push(Instruction::FpMulConst(m))
                &&& final(self).shape() == (Shape { width: w + 5 * nb - 4, ..old(self).shape() })
                &&& m.wf()
                &&& m.params() == *params
                &&& m.a_slice() == a.slice
                &&& m.result_slice() == result.slice
                &&& m.carry_slice() == (MemorySlice {
                    kind: RegionKind::Local,
                    offset: w as usize,
                    len: nb as usize,
                })
                &&& m.low_slice() == (MemorySlice {
                    kind: RegionKind::Local,
                    offset: (w + nb) as usize,
                    len: (2 * nb - 2) as usize,
                })
                &&& m.high_slice() == (MemorySlice {
                    kind: RegionKind::Local,
                    offset: (w + 3 * nb - 2) as usize,
                    len: (2 * nb - 2) as usize,
                })
            },
    {
        let p: FieldParameters = *params;
        let nw: usize = p.nb_witness_limbs();
        let ghost nb = params.spec_nb_limbs() as int;
        proof {
            p.lemma_wf();
        }
        let saved: usize = self.local_index;
        let carry = match self.alloc_local_field(&p) {
            Ok(f) => f,
            Err(e) => {
                return Err(e);
            },
        };
        let ghost s1 = self.shape();
        let witness_low = match self.alloc_local_array::<U16Register>(nw) {
            Ok(x) => x,
            Err(e) => {
                self.local_index = saved;
                return Err(e);
            },
        };
        let ghost s2 = self.shape();
        let witness_high = match self.alloc_local_array::<U16Register>(nw) {
            Ok(x) => x,
            Err(e) => {
                self.local_index = saved;
                return Err(e);
            },
        };
        let instr = match FpMulConst::new(p, *a, c, *result, carry, witness_low, witness_high) {
            Some(m) => m,
            None => {
                self.local_index = saved;
                return Err(BuildError::InvalidRegister);
            },
        };
        proof {
            assert(U16Register::spec_width() == 1);
            assert(nw * U16Register::spec_width() == nw) by (nonlinear_arith)
                requires
                    U16Register::spec_width() == 1,
            ;
            assert(s1.width == old(self).shape().width + nb);
            assert(s2.width == s1.width + nw);
            assert(self.shape().width == s2.width + nw);
            assert(self.shape().width == old(self).shape().width + 5 * nb - 4);
        }
        let copy = instr.duplicate();
        match self.insert_instruction(Instruction::FpMulConst(copy)) {
            Ok(_) => Ok(instr),
            Err(e) => {
                self.local_index = saved;
                Err(e)
            },
        }
    }

    /// The chip of the instructions taken, for a trace of the columns
    /// allocated.
    pub fn build(self) -> (r: Chip)
        requires
            self.wf(),
        ensures
            r.wf(),
            r.instrs() == self.instrs(),
            r.shape() == self.shape(),
    {
        Chip::new(
            self.instructions,
            self.local_index,
            self.public_index,
            self.global_index,
            Vec::new(),
        )
    }

    /// The chip of the instructions taken, with hashing jobs.
    pub fn build_with_jobs(self, jobs: Vec<Blake2bJob>) -> (r: Chip)
        requires
            self.wf(),
        ensures
            r.wf(),
            r.instrs() == self.instrs(),
            r.shape() == self.shape(),
            r.jobs() == jobs@,
    {
        Chip::new(self.instructions, self.local_index, self.public_index, self.global_index, jobs)
    }
}

/// A builder for chips that work on bytes: a chip builder that also adds
/// operations on bytes with their digests.
#[derive(Debug)]
pub struct BytesBuilder {
    pub api: ChipBuilder,
    pub jobs: Vec<Blake2bJob>,
}

impl BytesBuilder {
    /// Validity of a builder.
    pub open spec fn wf(&self) -> bool {
        self.api.wf()
    }

    /// A builder with the given budget, nothing allocated and no instruction.
    pub fn new(params: AirParameters) -> (r: BytesBuilder)
        ensures
            r.wf(),
            r.api.params() == params,
            r.api.shape() == (Shape { width: 0, num_public: 0, num_global: 0 }),
            r.api.instrs() == Seq::<Instruction>::empty(),
            r.jobs@ == Seq::<Blake2bJob>::empty(),
    {
        BytesBuilder { api: ChipBuilder::new(params), jobs: Vec::new() }
    }

    /// Whether every register of an operation lies outside the trace.
    pub open spec fn rowless(op: ByteOperation<ByteRegister>) -> bool {
        forall|i: int| 0 <= i < op.slices().len() ==> !(#[trigger] op.slices()[i]).kind.in_trace()
    }

    /// What `set_byte_operation` answers on a builder with the given
    /// instructions, columns allocated and budget: the instruction, or why it
    /// cannot be added.
    pub open spec fn byte_outcome_in(
        instrs: Seq<Instruction>,
        shape: Shape,
        budget: int,
        op: ByteOperation<ByteRegister>,
    ) -> Result<ByteOperationInstruction, BuildError> {
        let global = Self::rowless(op);
        let kind = if global {
            RegionKind::Global
        } else {
            RegionKind::Local
        };
        let offset = shape.limit(kind);
        let b = ByteOperationInstruction::assemble(
            op,
            ElementRegister { slice: MemorySlice { kind, offset: offset as usize, len: 1 } },
            global,
        );
        let grown = if global {
            Shape { num_global: offset + 1, ..shape }
        } else {
            Shape { width: offset + 1, ..shape }
        };
        let capacity = if global {
            usize::MAX as int
        } else {
            budget
        };
        if offset + 1 > capacity {
            Err(BuildError::AllocationOverflow)
        } else {
            match accepts_in(instrs, grown, Instruction::Byte(b)) {
                Err(e) => Err(e),
                Ok(_) => Ok(b),
            }
        }
    }

    /// What `set_byte_operation` answers: the instruction, or why it cannot
    /// be added.
    pub open spec fn byte_operation_outcome(&self, op: ByteOperation<ByteRegister>) -> Result<
        ByteOperationInstruction,
        BuildError,
    > {
        Self::byte_outcome_in(
            self.api.instrs(),
            self.api.shape(),
            self.api.params().budget(),
            op,
        )
    }

    /// Adds an operation on bytes to the chip: allocates the register of its
    /// digest and takes the instruction. The instruction is global, and its
    /// digest lies in the global vector, if every register of the operation
    /// lies outside the trace; else the digest lies in the trace.
    ///
    /// Fails, and leaves the builder as it was, with `AllocationOverflow` if
    /// there is no column left for the digest, and as `insert_instruction`
    /// does if the instruction cannot be taken.
    pub fn set_byte_operation(&mut self, op: ByteOperation<ByteRegister>) -> (r: Result<
        ByteOperationInstruction,
        BuildError,
    >)
        requires
            old(self).wf(),
        ensures
            final(self).wf(),
            final(self).api.params() == old(self).api.params(),
            final(self).jobs@ == old(self).jobs@,
            r == old(self).byte_operation_outcome(op),
            r is Err ==> final(self).api.instrs() == old(self).api.instrs()
                && final(self).api.shape() == old(self).api.shape(),
            r matches Ok(b) ==> {
                let kind = if Self::rowless(op) {
                    RegionKind::Global
                } else {
                    RegionKind::Local
                };
                &&& b.spec_inner() == op
                &&& b.spec_global() == Self::rowless(op)
                &&& b.spec_digest().slice == (MemorySlice {
                    kind,
                    offset: old(self).api.shape().limit(kind) as usize,
                    len: 1,
                })
                &&& final(self).api.instrs() == old(self).api.instrs().push(Instruction::Byte(b))
                &&& final(self).api.shape() == (if Self::rowless(op) {
                    Shape {
                        num_global: old(self).api.shape().num_global + 1,
                        ..old(self).api.shape()
                    }
                } else {
                    Shape { width: old(self).api.shape().width + 1, ..old(self).api.shape() }
                })
            },
    {
        let fields = op.get_fields();
        let mut global: bool = true;
        let mut i: usize = 0;
        while i < fields.len()
            invariant
                i <= fields@.len(),
                fields@ == op.fields(),
                global == (forall|j: int| 0 <= j < i
                    ==> !(#[trigger] op.slices()[j]).kind.in_trace()),
            decreases fields.len() - i,
        {
            assert(op.slices()[i as int] == fields@[i as int].slice);
            if fields[i].slice.kind.is_trace() {
                global = false;
            }
            i += 1;
        }
        let kind = if global {
            RegionKind::Global
        } else {
            RegionKind::Local
        };
        let saved_local: usize = self.api.local_index;
        let saved_global: usize = self.api.global_index;
        let digest: ElementRegister = match self.api.alloc_register::<ElementRegister>(kind) {
            Ok(d) => d,
            Err(e) => {
                return Err(e);
            },
        };
        proof {
            assert(!RegionKind::Public.same_storage(kind));
            assert(self.api.shape().limit(RegionKind::Public) == old(self).api.shape().limit(
                RegionKind::Public,
            ));
            let before = old(self).api.shape();
            if global {
                assert(!RegionKind::Local.same_storage(kind));
                assert(self.api.shape().limit(RegionKind::Local)
                    == before.limit(RegionKind::Local));
                assert(self.api.shape() == (Shape {
                    num_global: before.num_global + 1,
                    ..before
                }));
            } else {
                assert(!RegionKind::Global.same_storage(kind));
                assert(self.api.shape().limit(RegionKind::Global) == before.limit(
                    RegionKind::Global,
                ));
                assert(self.api.shape() == (Shape { width: before.width + 1, ..before }));
            }
            assert(global == Self::rowless(op));
        }
        let instr = ByteOperationInstruction::new(op, digest, global);
        let copy = instr.duplicate();
        match self.api.insert_instruction(Instruction::Byte(copy)) {
            Ok(_) => Ok(instr),
            Err(e) => {
                self.api.local_index = saved_local;
                self.api.global_index = saved_global;
                Err(e)
            },
        }
    }

    /// The operation of the given kind on `a`, on `b` where the kind takes a
    /// second operand, with result `c` where the kind has one.
    pub open spec fn operation_of(kind: ByteOpKind, a: ByteRegister, b: ByteRegister,
        c: ByteRegister) -> ByteOperation<
        ByteRegister,
    > {
        match kind {
            ByteOpKind::And => ByteOperation::And(a, b, c),
            ByteOpKind::Xor => ByteOperation::Xor(a, b, c),
            ByteOpKind::Or => ByteOperation::Or(a, b, c),
            ByteOpKind::Not => ByteOperation::Not(a, c),
            ByteOpKind::Shr => ByteOperation::Shr(a, b, c),
            ByteOpKind::Rot => ByteOperation::Rot(a, b, c),
            ByteOpKind::Range => ByteOperation::Range(a),
        }
    }

    /// Adds the operation of the given kind on `a` and `b` to the chip, with a
    /// new register for its result in the trace, and returns that register.
    /// A kind with one operand ignores `b`; a range check has no result, and
    /// the register returned is then left unused.
    ///
    /// Fails, and leaves the builder as it was, with `AllocationOverflow` if
    /// the trace has no column left for the result, and as
    /// `set_byte_operation` does on the builder with the result allocated.
    pub fn byte_operation(&mut self, kind: ByteOpKind, a: ByteRegister, b: ByteRegister) -> (r:
        Result<ByteRegister, BuildError>)
        requires
            old(self).wf(),
        ensures
            final(self).wf(),
            final(self).api.params() == old(self).api.params(),
            final(self).jobs@ == old(self).jobs@,
            r is Err ==> final(self).api.instrs() == old(self).api.instrs()
                && final(self).api.shape() == old(self).api.shape(),
            r == ({
                let w = old(self).api.shape().width;
                let c = ByteRegister {
                    slice: MemorySlice { kind: RegionKind::Local, offset: w as usize, len: 1 },
                };
                if w + 1 > old(self).api.params().budget() {
                    Err::<ByteRegister, BuildError>(BuildError::AllocationOverflow)
                } else {
                    match Self::byte_outcome_in(
                        old(self).api.instrs(),
                        Shape { width: w + 1, ..old(self).api.shape() },
                        old(self).api.params().budget(),
                        Self::operation_of(kind, a, b, c),
                    ) {
                        Ok(_) => Ok(c),
                        Err(e) => Err(e),
                    }
                }
            }),
            r matches Ok(c) ==> {
                &&& c.slice == (MemorySlice {
                    kind: RegionKind::Local,
                    offset: old(self).api.shape().width as usize,
                    len: 1,
                })
                &&& final(self).api.instrs().len() == old(self).api.instrs().len() + 1
                &&& final(self).api.instrs().last() is Byte
                &&& final(self).api.instrs().last()->Byte_0.spec_inner() == Self::operation_of(
                    kind,
                    a,
                    b,
                    c,
                )
                &&& forall|k: int|
                    0 <= k < old(self).api.instrs().len()
                        ==> final(self).api.instrs()[k] == old(self).api.instrs()[k]
            },
    {
        let saved: usize = self.api.local_index;
        let c: ByteRegister = match self.api.alloc_local::<ByteRegister>() {
            Ok(c) => c,
            Err(e) => {
                return Err(e);
            },
        };
        let op = rebuild_operation(kind, a, b, c);
        assert(op == Self::operation_of(kind, a, b, c));
        match self.set_byte_operation(op) {
            Ok(_) => Ok(c),
            Err(e) => {
                self.api.local_index = saved;
                Err(e)
            },
        }
    }

    /// The chip of the instructions taken, for a trace of the columns
    /// allocated.
    pub fn build(self) -> (r: Chip)
        requires
            self.wf(),
        ensures
            r.wf(),
            r.instrs() == self.api.instrs(),
            r.shape() == self.api.shape(),
            r.jobs() == self.jobs@,
    {
        self.api.build_with_jobs(self.jobs)
    }

    /// Adds a run of BLAKE2b compressions to the chip, one round for each
    /// block: allocates, for each digest index, the four words of a hash
    /// state in the public vector, records the job, and returns the registers
    /// of the hash states in order.
    ///
    /// Fails with `InvalidRegister` unless the registers have the shape of a
    /// job: sixteen words in each block, and a counter, an end bit and a
    /// digest bit for each block. Fails with `AllocationOverflow` if the
    /// public vector has no room for the hash states.
    pub fn blake2b(
        &mut self,
        padded_chunks: &Vec<ArrayRegister<U64Register>>,
        t_values: &ArrayRegister<U64Register>,
        end_bits: &ArrayRegister<BitRegister>,
        digest_bits: &ArrayRegister<BitRegister>,
        digest_indices: &ArrayRegister<ElementRegister>,
        num_messages: &ElementRegister,
    ) -> (r: Result<Vec<ArrayRegister<U64Register>>, BuildError>)
        requires
            old(self).wf(),
        ensures
            final(self).wf(),
            final(self).api.params() == old(self).api.params(),
            final(self).api.instrs() == old(self).api.instrs(),
            r is Err ==> final(self).jobs@ == old(self).jobs@
                && final(self).api.shape() == old(self).api.shape(),
            r is Ok <==> Self::job_shaped(
                padded_chunks@,
                *t_values,
                *end_bits,
                *digest_bits,
                *digest_indices,
                *num_messages,
            ) && old(self).api.shape().num_public + 32 * digest_indices.length <= usize::MAX,
            r matches Err(e) ==> e == (if Self::job_shaped(
                padded_chunks@,
                *t_values,
                *end_bits,
                *digest_bits,
                *digest_indices,
                *num_messages,
            ) {
                BuildError::AllocationOverflow
            } else {
                BuildError::InvalidRegister
            }),
            r matches Ok(hs) ==> {
                let base = old(self).api.shape().num_public;
                &&& hs@.len() == digest_indices.length
                &&& forall|j: int|
                    0 <= j < hs@.len() ==> (#[trigger] hs@[j]).length == 4 && hs@[j].wf()
                        && hs@[j].slice == (MemorySlice {
                        kind: RegionKind::Public,
                        offset: (base + 32 * j) as usize,
                        len: 32,
                    })
                &&& final(self).api.shape() == (Shape {
                    num_public: base + 32 * hs@.len(),
                    ..old(self).api.shape()
                })
                &&& final(self).jobs@.len() == old(self).jobs@.len() + 1
                &&& forall|k: int|
                    0 <= k < old(self).jobs@.len() ==> final(self).jobs@[k] == old(self).jobs@[k]
                &&& final(self).jobs@.last().shaped()
                &&& final(self).jobs@.last().padded_chunks@.len() == padded_chunks@.len()
                &&& forall|i: int|
                    0 <= i < padded_chunks@.len()
                        ==> (#[trigger] final(self).jobs@.last().padded_chunks@[i]).slice
                            == padded_chunks@[i].slice
                &&& final(self).jobs@.last().t_values.slice == t_values.slice
                &&& final(self).jobs@.last().end_bits.slice == end_bits.slice
                &&& final(self).jobs@.last().digest_bits.slice == digest_bits.slice
                &&& final(self).jobs@.last().digest_indices.slice == digest_indices.slice
                &&& final(self).jobs@.last().num_messages == *num_messages
                &&& final(self).jobs@.last().hash_state@.len() == hs@.len()
                &&& forall|j: int|
                    0 <= j < hs@.len() ==> (#[trigger] final(self).jobs@.last().hash_state@[j]).slice
                        == hs@[j].slice
            },
    {
        let n: usize = padded_chunks.len();
        let d: usize = digest_indices.length;
        // the shape of the registers handed in
        let mut chunks: Vec<ArrayRegister<U64Register>> = Vec::new();
        let mut i: usize = 0;
        while i < n
            invariant
                i <= n,
                n == padded_chunks@.len(),
                *self == *old(self),
                self.wf(),
                chunks@.len() == i,
                forall|k: int|
                    0 <= k < i ==> (#[trigger] padded_chunks@[k]).wf() && padded_chunks@[k].length
                        == 16,
                forall|k: int|
                    0 <= k < i ==> (#[trigger] chunks@[k]).slice == padded_chunks@[k].slice
                        && chunks@[k].length == padded_chunks@[k].length,
            decreases n - i,
        {
            if !array_is_valid(&padded_chunks[i]) || padded_chunks[i].length != 16 {
                return Err(BuildError::InvalidRegister);
            }
            chunks.push(padded_chunks[i].duplicate());
            i += 1;
        }
        let shaped: bool = array_is_valid(t_values) && t_values.length == n && array_is_valid(
            end_bits,
        ) && end_bits.length == n && array_is_valid(digest_bits) && digest_bits.length == n
            && array_is_valid(digest_indices) && num_messages.slice.len == 1;
        if !shaped {
            return Err(BuildError::InvalidRegister);
        }
        assert(Self::job_shaped(
            padded_chunks@,
            *t_values,
            *end_bits,
            *digest_bits,
            *digest_indices,
            *num_messages,
        ));
        // room for the hash states
        let base: usize = self.api.num_public();
        if d > (usize::MAX - base) / 32 {
            return Err(BuildError::AllocationOverflow);
        }
        assert(U64Register::spec_width() == 8);
        let mut hash_state: Vec<ArrayRegister<U64Register>> = Vec::new();
        let mut copies: Vec<ArrayRegister<U64Register>> = Vec::new();
        let mut j: usize = 0;
        while j < d
            invariant
                j <= d,
                base + 32 * d <= usize::MAX,
                base == old(self).api.shape().num_public,
                self.wf(),
                self.api.params() == old(self).api.params(),
                self.api.instrs() == old(self).api.instrs(),
                self.jobs@ == old(self).jobs@,
                self.api.shape() == (Shape {
                    num_public: base + 32 * j,
                    ..old(self).api.shape()
                }),
                hash_state@.len() == j,
                copies@.len() == j,
                forall|k: int|
                    0 <= k < j ==> (#[trigger] hash_state@[k]).length == 4 && hash_state@[k].wf()
                        && hash_state@[k].slice == (MemorySlice {
                        kind: RegionKind::Public,
                        offset: (base + 32 * k) as usize,
                        len: 32,
                    }),
                forall|k: int|
                    0 <= k < j ==> (#[trigger] copies@[k]).length == 4 && copies@[k].wf()
                        && copies@[k].slice == hash_state@[k].slice,
            decreases d - j,
        {
            let state = match self.api.alloc_array_public::<U64Register>(4) {
                Ok(a) => a,
                Err(e) => {
                    // the room for all hash states was found above
                    assert(false);
                    return Err(e);
                },
            };
            copies.push(state.duplicate());
            hash_state.push(state);
            j += 1;
        }
        let job = Blake2bJob {
            padded_chunks: chunks,
            t_values: t_values.duplicate(),
            end_bits: end_bits.duplicate(),
            digest_bits: digest_bits.duplicate(),
            digest_indices: digest_indices.duplicate(),
            num_messages: *num_messages,
            hash_state: copies,
        };
        assert(job.shaped()) by {
            assert forall|k: int| 0 <= k < job.rounds() implies (#[trigger] job.padded_chunks@[k]).wf()
                && job.padded_chunks@[k].length == 16 by {
                assert(padded_chunks@[k].wf());
            }
        }
        self.jobs.push(job);
        Ok(hash_state)
    }

    /// Whether registers have the shape of a job: sixteen words in each
    /// block, and a counter, an end bit and a digest bit for each block.
    pub open spec fn job_shaped(
        padded_chunks: Seq<ArrayRegister<U64Register>>,
        t_values: ArrayRegister<U64Register>,
        end_bits: ArrayRegister<BitRegister>,
        digest_bits: ArrayRegister<BitRegister>,
        digest_indices: ArrayRegister<ElementRegister>,
        num_messages: ElementRegister,
    ) -> bool {
        &&& forall|i: int|
            0 <= i < padded_chunks.len() ==> (#[trigger] padded_chunks[i]).wf()
                && padded_chunks[i].length == 16
        &&& t_values.wf()
        &&& t_values.length == padded_chunks.len()
        &&& end_bits.wf()
        &&& end_bits.length == padded_chunks.len()
        &&& digest_bits.wf()
        &&& digest_bits.length == padded_chunks.len()
        &&& digest_indices.wf()
        &&& num_messages.slice.len == 1
    }
}

} // verus!
