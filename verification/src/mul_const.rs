//! Multiplication by a constant in a limbed prime field.
//!
//! `FpMulConst` stands for `result = a·c mod p`, where `a` and `result` are
//! registers of 16-bit limbs, `c` is a fixed array of limbs and `p` is the
//! modulus of a parameter set. Read as polynomials in `X` whose value at
//! `X = 65536` is the number, the limbs satisfy
//! `A·C - R - Carry·P = W·(X - 65536)` for a quotient `W`, the witness. The
//! row holds `R`, `Carry`, and `W` raised by an offset and split in two halves
//! of 16 bits; the constraints state the identity coefficient by coefficient.

use crate::bigint::{
    big_div, big_lt, big_mul, big_rem, lemma_limbs_of_range, lemma_limbs_of_value,
    lemma_limbs_unique, lemma_limbs_value_bound, limbs_of, u16_ints, BigNat,
};
use crate::error::{BuildError, WitnessError};
use crate::field::{congruent, order, Felt};
use crate::gadget::{
    constants, lemma_residue_congruent, residue_over, residue_var, witness_over, witness_vars,
};
use crate::parser::{denote_all, read_slice, AirParser, PackedParser, RecursiveParser};
use crate::params::{FieldParameters, MAX_NB_LIMBS};
use crate::polynomial::{
    abs, coeff, conv, lemma_conv_bounded, lemma_eval_linear, lemma_eval_mul,
    lemma_eval_nonnegative, lemma_eval_padded, lemma_quotient_bounded, lemma_root_quotient,
    poly_eval, poly_mul, root_quotient,
};
use crate::register::{ArrayRegister, FieldRegister, MemorySlice, RegionKind, U16Register};
use crate::trace::{
    check_none_overlap, check_pairwise_apart, felts, felts_all, lemma_write_all_other,
    lemma_write_all_same, none_overlap, pairwise_apart, segment, RowView, TraceHandle, TraceView,
};
use crate::utils::{
    extract_witness_and_shift, i64_ints, limb_product_coefficient, limb_square, split_digits,
    to_field_iter,
};
use vstd::arithmetic::div_mod::{lemma_fundamental_div_mod, lemma_mod_twice};
use vstd::arithmetic::power::pow;
use vstd::prelude::*;

verus! {

/// The coefficients of `A·C - R - Carry·P`, as many as the product has.
pub open spec fn vanishing_poly(
    a: Seq<int>,
    c: Seq<int>,
    r: Seq<int>,
    carry: Seq<int>,
    p: Seq<int>,
) -> Seq<int> {
    Seq::new((2 * a.len() - 1) as nat, |k: int| conv(a, c, k) - coeff(r, k) - conv(carry, p, k))
}

/// The instruction `result = a·c mod p`.
#[derive(Debug)]
pub struct FpMulConst {
    params: FieldParameters,
    a: FieldRegister,
    c: [u16; MAX_NB_LIMBS],
    result: FieldRegister,
    carry: FieldRegister,
    witness_low: ArrayRegister<U16Register>,
    witness_high: ArrayRegister<U16Register>,
}

impl FpMulConst {
    /// The parameter set of the instruction.
    pub closed spec fn params(&self) -> FieldParameters {
        self.params
    }

    /// The number of limbs of a field element.
    pub open spec fn nb(&self) -> nat {
        self.params().spec_nb_limbs()
    }

    /// The columns of the operand.
    pub closed spec fn a_slice(&self) -> MemorySlice {
        self.a.slice
    }

    /// The columns of the result.
    pub closed spec fn result_slice(&self) -> MemorySlice {
        self.result.slice
    }

    /// The columns of the carry.
    pub closed spec fn carry_slice(&self) -> MemorySlice {
        self.carry.slice
    }

    /// The columns of the low halves of the witness.
    pub closed spec fn low_slice(&self) -> MemorySlice {
        self.witness_low.slice
    }

    /// The columns of the high halves of the witness.
    pub closed spec fn high_slice(&self) -> MemorySlice {
        self.witness_high.slice
    }

    /// The limbs of the constant that are used: the first `nb`.
    pub closed spec fn c_limbs(&self) -> Seq<int> {
        u16_ints(self.c@.take(self.params.spec_nb_limbs() as int))
    }

    /// The limbs of the modulus.
    pub open spec fn p_limbs(&self) -> Seq<int> {
        u16_ints(self.params().spec_modulus_limbs())
    }

    /// Validity of an instruction: a valid parameter set, `nb` columns each
    /// for operand, result and carry, and `2·nb - 2` columns for each half of
    /// the witness.
    pub closed spec fn wf(&self) -> bool {
        &&& self.params.wf()
        &&& self.a.slice.len == self.nb()
        &&& self.result.slice.len == self.nb()
        &&& self.carry.slice.len == self.nb()
        &&& self.witness_low.slice.len == 2 * self.nb() - 2
        &&& self.witness_high.slice.len == 2 * self.nb() - 2
        &&& self.witness_low.length == 2 * self.nb() - 2
        &&& self.witness_high.length == 2 * self.nb() - 2
        &&& self.a.slice.end() <= usize::MAX
        &&& self.result.slice.end() <= usize::MAX
        &&& self.carry.slice.end() <= usize::MAX
        &&& self.witness_low.slice.end() <= usize::MAX
        &&& self.witness_high.slice.end() <= usize::MAX
    }

    #[verifier::type_invariant]
    spec fn inv(&self) -> bool {
        self.wf()
    }

    /// What validity means, over the parts of an instruction.
    pub proof fn lemma_wf(&self)
        requires
            self.wf(),
        ensures
            self.params().wf(),
            1 <= self.nb() <= MAX_NB_LIMBS,
            self.c_limbs().len() == self.nb(),
            self.p_limbs().len() == self.nb(),
            forall|i: int| 0 <= i < self.nb() ==> 0 <= #[trigger] self.c_limbs()[i] < 65536,
            forall|i: int| 0 <= i < self.nb() ==> 0 <= #[trigger] self.p_limbs()[i] < 65536,
            self.a_slice().len == self.nb(),
            self.result_slice().len == self.nb(),
            self.carry_slice().len == self.nb(),
            self.low_slice().len == 2 * self.nb() - 2,
            self.high_slice().len == 2 * self.nb() - 2,
            self.a_slice().end() <= usize::MAX,
            self.result_slice().end() <= usize::MAX,
            self.carry_slice().end() <= usize::MAX,
            self.low_slice().end() <= usize::MAX,
            self.high_slice().end() <= usize::MAX,
            0 < self.modulus() < pow(65536, self.nb()),
            0 <= self.c_value() < pow(65536, self.nb()),
    {
        self.params.lemma_wf();
        lemma_limbs_value_bound(self.params.spec_modulus_limbs());
        lemma_limbs_value_bound(self.c@.take(self.params.spec_nb_limbs() as int));
    }

    /// The instruction made of the given parts.
    pub closed spec fn assemble(
        params: FieldParameters,
        a: FieldRegister,
        c: [u16; MAX_NB_LIMBS],
        result: FieldRegister,
        carry: FieldRegister,
        witness_low: ArrayRegister<U16Register>,
        witness_high: ArrayRegister<U16Register>,
    ) -> FpMulConst {
        FpMulConst { params, a, c, result, carry, witness_low, witness_high }
    }

    /// The instruction over the given registers, if they have the widths that
    /// the parameter set asks for and end within the range of column numbers.
    pub fn new(
        params: FieldParameters,
        a: FieldRegister,
        c: [u16; MAX_NB_LIMBS],
        result: FieldRegister,
        carry: FieldRegister,
        witness_low: ArrayRegister<U16Register>,
        witness_high: ArrayRegister<U16Register>,
    ) -> (r: Option<FpMulConst>)
        ensures
            r is Some <==> {
                &&& a.slice.len == params.spec_nb_limbs()
                &&& result.slice.len == params.spec_nb_limbs()
                &&& carry.slice.len == params.spec_nb_limbs()
                &&& witness_low.slice.len == params.spec_nb_witness_limbs()
                &&& witness_high.slice.len == params.spec_nb_witness_limbs()
                &&& witness_low.length == params.spec_nb_witness_limbs()
                &&& witness_high.length == params.spec_nb_witness_limbs()
                &&& a.slice.end() <= usize::MAX
                &&& result.slice.end() <= usize::MAX
                &&& carry.slice.end() <= usize::MAX
                &&& witness_low.slice.end() <= usize::MAX
                &&& witness_high.slice.end() <= usize::MAX
            },
            r matches Some(m) ==> {
                &&& m == Self::assemble(params, a, c, result, carry, witness_low, witness_high)
                &&& m.wf()
                &&& m.params() == params
                &&& m.a_slice() == a.slice
                &&& m.result_slice() == result.slice
                &&& m.carry_slice() == carry.slice
                &&& m.low_slice() == witness_low.slice
                &&& m.high_slice() == witness_high.slice
                &&& m.c_limbs() == u16_ints(c@.take(params.spec_nb_limbs() as int))
            },
    {
        let nb: usize = params.nb_limbs();
        let nw: usize = params.nb_witness_limbs();
        proof {
            params.lemma_wf();
        }
        let lens: bool = a.slice.len == nb && result.slice.len == nb && carry.slice.len == nb
            && witness_low.slice.len == nw && witness_high.slice.len == nw && witness_low.length
            == nw && witness_high.length == nw;
        let ends: bool = a.slice.offset <= usize::MAX - a.slice.len && result.slice.offset
            <= usize::MAX - result.slice.len && carry.slice.offset <= usize::MAX - carry.slice.len
            && witness_low.slice.offset <= usize::MAX - witness_low.slice.len
            && witness_high.slice.offset <= usize::MAX - witness_high.slice.len;
        if lens && ends {
            Some(FpMulConst { params, a, c, result, carry, witness_low, witness_high })
        } else {
            None
        }
    }

    /// The constant as a number.
    pub open spec fn c_value(&self) -> int {
        poly_eval(self.c_limbs(), 65536)
    }

    /// The modulus.
    pub open spec fn modulus(&self) -> int {
        self.params().spec_modulus()
    }

    /// The offset that raises the witness.
    pub open spec fn offset(&self) -> int {
        self.params().spec_witness_offset()
    }

    /// The result for operand `a`: `a·c mod p`.
    pub open spec fn result_of(&self, a: int) -> int {
        (a * self.c_value()) % self.modulus()
    }

    /// The carry for operand `a`: `(a·c - result) / p`, which is `a·c / p`
    /// rounded down.
    pub open spec fn carry_of(&self, a: int) -> int {
        (a * self.c_value()) / self.modulus()
    }

    /// The vanishing polynomial for operand `a`.
    pub open spec fn vanishing_of(&self, a: int) -> Seq<int> {
        vanishing_poly(
            limbs_of(a, self.nb()),
            self.c_limbs(),
            limbs_of(self.result_of(a), self.nb()),
            limbs_of(self.carry_of(a), self.nb()),
            self.p_limbs(),
        )
    }

    /// The witness for operand `a`: the quotient of the vanishing polynomial
    /// by `X - 65536`.
    pub open spec fn witness_of(&self, a: int) -> Seq<int> {
        root_quotient(self.vanishing_of(a), 65536)
    }

    /// The witness for operand `a`, each coefficient raised by the offset.
    pub open spec fn shifted_witness_of(&self, a: int) -> Seq<int> {
        Seq::new(self.witness_of(a).len(), |k: int| self.witness_of(a)[k] + self.offset())
    }

    /// Whether every coefficient of the raised witness fits in two limbs.
    pub open spec fn witness_in_range(&self, a: int) -> bool {
        forall|k: int|
            0 <= k < self.witness_of(a).len() ==> 0 <= #[trigger] self.witness_of(a)[k]
                + self.offset() < 0x1_0000_0000
    }

    /// Whether a row can be made for operand `a`, and if not, why.
    pub open spec fn outcome(&self, a: int) -> Result<(), WitnessError> {
        if a >= pow(65536, self.nb()) {
            Err(WitnessError::OperandRange)
        } else if self.carry_of(a) >= self.modulus() {
            Err(WitnessError::ModulusCheck)
        } else if !self.witness_in_range(a) {
            Err(WitnessError::WitnessRange)
        } else {
            Ok(())
        }
    }

    /// The limbs of the result for operand `a`.
    pub open spec fn result_limbs_of(&self, a: int) -> Seq<int> {
        limbs_of(self.result_of(a), self.nb())
    }

    /// The limbs of the carry for operand `a`.
    pub open spec fn carry_limbs_of(&self, a: int) -> Seq<int> {
        limbs_of(self.carry_of(a), self.nb())
    }

    /// The low halves of the raised witness for operand `a`.
    pub open spec fn low_of(&self, a: int) -> Seq<int> {
        let s = self.shifted_witness_of(a);
        Seq::new(s.len(), |k: int| s[k] % 65536)
    }

    /// The high halves of the raised witness for operand `a`.
    pub open spec fn high_of(&self, a: int) -> Seq<int> {
        let s = self.shifted_witness_of(a);
        Seq::new(s.len(), |k: int| s[k] / 65536)
    }

    /// The row for operand `a`: the limbs of the result, the limbs of the
    /// carry, the low halves of the raised witness and its high halves.
    pub open spec fn row_of(&self, a: int) -> Seq<int> {
        self.result_limbs_of(a) + self.carry_limbs_of(a) + self.low_of(a) + self.high_of(a)
    }

    /// The number of columns of a row: `6·nb - 4`.
    pub fn num_mul_const_columns(&self) -> (r: usize)
        ensures
            r == 6 * self.nb() - 4,
    {
        proof {
            use_type_invariant(self);
            self.lemma_wf();
        }
        6 * self.params.nb_limbs() - 4
    }

    /// The limbs of the constant that are used.
    fn c_vec(&self) -> (r: Vec<u16>)
        ensures
            u16_ints(r@) == self.c_limbs(),
            r@.len() == self.nb(),
    {
        proof {
            use_type_invariant(self);
            self.lemma_wf();
        }
        let nb: usize = self.params.nb_limbs();
        let mut out: Vec<u16> = Vec::new();
        let mut i: usize = 0;
        while i < nb
            invariant
                i <= nb <= MAX_NB_LIMBS,
                out@ =~= self.c@.take(i as int),
            decreases nb - i,
        {
            out.push(self.c[i]);
            i += 1;
        }
        out
    }

    /// The row for operand `a`, and the result `a·c mod p`.
    ///
    /// Fails if `a` does not fit in `nb` limbs, if the carry is not below the
    /// modulus, or if a coefficient of the raised witness does not fit in two
    /// limbs.
    pub fn trace_row(&self, a: &BigNat) -> (r: Result<(Vec<Felt>, BigNat), WitnessError>)
        ensures
            match r {
                Ok((row, result)) => {
                    &&& self.outcome(a@ as int) is Ok
                    &&& result@ == self.result_of(a@ as int)
                    &&& felts(row@) == self.row_of(a@ as int)
                },
                Err(e) => self.outcome(a@ as int) == Err::<(), WitnessError>(e),
            },
    {
        proof {
            use_type_invariant(self);
            self.lemma_wf();
        }
        let nb: usize = self.params.nb_limbs();
        let p: BigNat = self.params.modulus_biguint();
        let c_limbs: Vec<u16> = self.c_vec();
        let c: BigNat = BigNat::from_limbs(&c_limbs);
        let a_limbs: Vec<u16> = match a.to_limbs(nb) {
            Some(l) => l,
            None => {
                return Err(WitnessError::OperandRange);
            },
        };
        let ac: BigNat = big_mul(a, &c);
        let result: BigNat = big_rem(&ac, &p);
        let carry: BigNat = big_div(&ac, &p);
        if !big_lt(&carry, &p) {
            return Err(WitnessError::ModulusCheck);
        }
        let p_limbs: Vec<u16> = self.params.modulus_limbs();
        // result and carry are below the modulus, which has `nb` limbs
        let r_limbs: Vec<u16> = match result.to_limbs(nb) {
            Some(l) => l,
            None => {
                assert(false);
                return Err(WitnessError::ModulusCheck);
            },
        };
        let carry_limbs: Vec<u16> = match carry.to_limbs(nb) {
            Some(l) => l,
            None => {
                assert(false);
                return Err(WitnessError::ModulusCheck);
            },
        };
        let v: Vec<i64> = vanishing_coefficients(&a_limbs, &c_limbs, &r_limbs, &carry_limbs,
            &p_limbs);
        let ghost vs = self.vanishing_of(a@ as int);
        assert(i64_ints(v@) =~= vs);
        let offset: u32 = self.params.witness_offset();
        let shifted: Vec<u32> = match extract_witness_and_shift(&v, offset) {
            Some(s) => s,
            None => {
                proof {
                    let q = root_quotient(i64_ints(v@), 65536);
                    assert(self.witness_of(a@ as int) == q);
                    assert(q.len() == v@.len() - 1);
                    if self.witness_in_range(a@ as int) {
                        assert forall|j: int| 0 <= j < v@.len() - 1 implies 0 <= #[trigger] q[j]
                            + offset < 0x1_0000_0000 by {
                            assert(0 <= self.witness_of(a@ as int)[j] + self.offset()
                                < 0x1_0000_0000);
                        }
                    }
                }
                return Err(WitnessError::WitnessRange);
            },
        };
        proof {
            let q = root_quotient(i64_ints(v@), 65536);
            assert(self.witness_of(a@ as int) == q);
            assert(q.len() == v@.len() - 1);
            assert(self.witness_in_range(a@ as int));
        }
        let (low, high) = split_digits(&shifted);
        let mut row: Vec<Felt> = to_field_iter(&r_limbs);
        let mut carry_row: Vec<Felt> = to_field_iter(&carry_limbs);
        let mut low = low;
        let mut high = high;
        let ghost r0 = felts(row@);
        let ghost r1 = felts(carry_row@);
        let ghost r2 = felts(low@);
        let ghost r3 = felts(high@);
        row.append(&mut carry_row);
        row.append(&mut low);
        row.append(&mut high);
        proof {
            let s = self.shifted_witness_of(a@ as int);
            assert(s.len() == shifted@.len());
            assert(r2 =~= self.low_of(a@ as int));
            assert(r3 =~= self.high_of(a@ as int));
            assert(felts(row@) =~= r0 + r1 + r2 + r3);
        }
        Ok((row, result))
    }

    /// The witness that a row holds: `low + 65536·high - offset`, coefficient
    /// by coefficient.
    pub open spec fn witness_at(&self, w: RowView) -> Seq<int> {
        Seq::new(
            self.low_slice().len as nat,
            |j: int| w.cell(self.low_slice(), j)
                + 65536 * w.cell(self.high_slice(), j) - self.offset(),
        )
    }

    /// The value of the `k`-th constraint at a row: the coefficient of `X^k`
    /// in `A·C - R - Carry·P - W·(X - 65536)`, in the field.
    pub open spec fn residue(&self, w: RowView, k: int) -> int {
        residue_over(
            w.values(self.a_slice()),
            self.c_limbs(),
            w.values(self.result_slice()),
            w.values(self.carry_slice()),
            self.p_limbs(),
            self.witness_at(w),
            k,
        )
    }

    /// The values of the constraints at a row, one for each coefficient of the
    /// vanishing polynomial.
    pub open spec fn residues(&self, w: RowView) -> Seq<int> {
        Seq::new((2 * self.nb() - 1) as nat, |k: int| self.residue(w, k))
    }

    /// Whether every register of the instruction lies within regions of the
    /// given lengths.
    pub open spec fn within(&self, len_of: spec_fn(RegionKind) -> nat) -> bool {
        &&& self.a_slice().end() <= len_of(self.a_slice().kind)
        &&& self.result_slice().end() <= len_of(self.result_slice().kind)
        &&& self.carry_slice().end() <= len_of(self.carry_slice().kind)
        &&& self.low_slice().end() <= len_of(self.low_slice().kind)
        &&& self.high_slice().end() <= len_of(self.high_slice().kind)
    }

    /// Whether every register of the instruction lies within what the parser
    /// offers.
    pub open spec fn readable<AP: AirParser>(&self, parser: &AP) -> bool {
        self.within(|kind: RegionKind| parser.region_len(kind))
    }

    /// Executable form of `readable`.
    pub fn is_readable<AP: AirParser>(&self, parser: &AP) -> (r: bool)
        ensures
            r == self.readable(parser),
    {
        let a = self.a.slice;
        let res = self.result.slice;
        let carry = self.carry.slice;
        let low = self.witness_low.slice;
        let high = self.witness_high.slice;
        a.fits(parser.len_of(a.kind)) && res.fits(parser.len_of(res.kind)) && carry.fits(
            parser.len_of(carry.kind),
        ) && low.fits(parser.len_of(low.kind)) && high.fits(parser.len_of(high.kind))
    }

    /// The variables that must be zero, one for each coefficient of the
    /// vanishing polynomial, if the parser offers every register of the
    /// instruction.
    pub fn constraint_vars<AP: AirParser>(&self, parser: &AP) -> (r: Option<Vec<AP::Var>>)
        ensures
            r is Some <==> self.readable(parser),
            r matches Some(vars) ==> {
                &&& vars@.len() == 2 * self.nb() - 1
                &&& forall|w: RowView|
                    #[trigger] parser.binds(w) ==> denote_all::<AP>(vars@, w) == self.residues(w)
            },
    {
        proof {
            use_type_invariant(self);
            self.lemma_wf();
        }
        if !self.is_readable(parser) {
            return None;
        }
        let nb: usize = self.params.nb_limbs();
        let offset: u32 = self.params.witness_offset();
        let a = read_slice(parser, &self.a.slice);
        let result = read_slice(parser, &self.result.slice);
        let carry = read_slice(parser, &self.carry.slice);
        let low = read_slice(parser, &self.witness_low.slice);
        let high = read_slice(parser, &self.witness_high.slice);
        let c_limbs: Vec<u16> = self.c_vec();
        let p_limbs: Vec<u16> = self.params.modulus_limbs();
        let c = constants(parser, &c_limbs);
        let p = constants(parser, &p_limbs);
        let wit = witness_vars(parser, &low, &high, offset);
        let n: usize = 2 * nb - 1;
        let mut out: Vec<AP::Var> = Vec::new();
        let mut k: usize = 0;
        while k < n
            invariant
                k <= n,
                n == 2 * self.nb() - 1,
                self.wf(),
                out@.len() == k,
                wit@.len() == self.low_slice().len,
                offset == self.offset(),
                forall|w: RowView|
                    #[trigger] parser.binds(w) ==> denote_all::<AP>(a@, w) == w.values(
                        self.a_slice(),
                    ),
                forall|w: RowView|
                    #[trigger] parser.binds(w) ==> denote_all::<AP>(result@, w) == w.values(
                        self.result_slice(),
                    ),
                forall|w: RowView|
                    #[trigger] parser.binds(w) ==> denote_all::<AP>(carry@, w) == w.values(
                        self.carry_slice(),
                    ),
                forall|w: RowView|
                    #[trigger] parser.binds(w) ==> denote_all::<AP>(low@, w) == w.values(
                        self.low_slice(),
                    ),
                forall|w: RowView|
                    #[trigger] parser.binds(w) ==> denote_all::<AP>(high@, w) == w.values(
                        self.high_slice(),
                    ),
                forall|w: RowView|
                    #[trigger] parser.binds(w) ==> denote_all::<AP>(c@, w) == self.c_limbs(),
                forall|w: RowView|
                    #[trigger] parser.binds(w) ==> denote_all::<AP>(p@, w) == self.p_limbs(),
                forall|w: RowView|
                    #[trigger] parser.binds(w) ==> denote_all::<AP>(wit@, w) == witness_over(
                        denote_all::<AP>(low@, w),
                        denote_all::<AP>(high@, w),
                        offset as int,
                    ),
                forall|w: RowView, i: int|
                    #![trigger parser.binds(w), AP::denote(out@[i], w)]
                    parser.binds(w) && 0 <= i < k ==> AP::denote(out@[i], w) == self.residue(w, i),
            decreases n - k,
        {
            let v = residue_var(parser, &a, &c, &result, &carry, &p, &wit, k);
            assert forall|w: RowView| #[trigger] parser.binds(w) implies AP::denote(v, w)
                == self.residue(w, k as int) by {
                let dw = denote_all::<AP>(wit@, w);
                let want = self.witness_at(w);
                assert forall|j: int| 0 <= j < dw.len() implies congruent(
                    #[trigger] dw[j],
                    want[j],
                ) by {
                    let x = w.cell(self.low_slice(), j) + 65536 * w.cell(self.high_slice(), j)
                        - self.offset();
                    assert(w.values(self.low_slice())[j] == w.cell(self.low_slice(), j));
                    assert(w.values(self.high_slice())[j] == w.cell(self.high_slice(), j));
                    assert(dw[j] == x % order());
                    lemma_mod_twice(x, order());
                }
                lemma_residue_congruent(
                    w.values(self.a_slice()),
                    self.c_limbs(),
                    w.values(self.result_slice()),
                    w.values(self.carry_slice()),
                    self.p_limbs(),
                    dw,
                    want,
                    k as int,
                );
            }
            out.push(v);
            k += 1;
        }
        assert forall|w: RowView| #[trigger] parser.binds(w) implies denote_all::<AP>(out@, w)
            == self.residues(w) by {
            assert forall|i: int| 0 <= i < n implies denote_all::<AP>(out@, w)[i]
                == self.residues(w)[i] by {
                assert(AP::denote(out@[i], w) == self.residue(w, i));
            }
            assert(denote_all::<AP>(out@, w) =~= self.residues(w));
        }
        Some(out)
    }

    /// States the constraints of the instruction against a parser: one for
    /// each coefficient of the vanishing polynomial. Fails, and leaves the
    /// parser as it was, if the parser does not offer every register of the
    /// instruction.
    pub fn eval<AP: AirParser>(&self, parser: &mut AP) -> (r: Result<(), BuildError>)
        ensures
            r is Ok <==> self.readable(old(parser)),
            r is Err ==> r == Err::<(), BuildError>(BuildError::InvalidRegister) && *final(parser)
                == *old(parser),
            forall|w: RowView| final(parser).binds(w) == old(parser).binds(w),
            forall|kind: RegionKind|
                final(parser).region_len(kind) == old(parser).region_len(kind),
            r is Ok ==> forall|w: RowView|
                #[trigger] old(parser).binds(w)
                    ==> final(parser).residues(w) == old(parser).residues(w) + self.residues(w),
    {
        let vars = match self.constraint_vars(parser) {
            Some(v) => v,
            None => {
                return Err(BuildError::InvalidRegister);
            },
        };
        let mut k: usize = 0;
        assert forall|w: RowView| #[trigger] old(parser).binds(w) implies parser.residues(w)
            == old(parser).residues(w) + self.residues(w).take(0) by {
            assert(self.residues(w).take(0) =~= Seq::<int>::empty());
            assert(old(parser).residues(w) + Seq::<int>::empty() =~= old(parser).residues(w));
        }
        while k < vars.len()
            invariant
                k <= vars@.len(),
                vars@.len() == 2 * self.nb() - 1,
                forall|w: RowView| parser.binds(w) == old(parser).binds(w),
                forall|kind: RegionKind|
                    parser.region_len(kind) == old(parser).region_len(kind),
                forall|w: RowView|
                    #[trigger] old(parser).binds(w) ==> denote_all::<AP>(vars@, w)
                        == self.residues(w),
                forall|w: RowView|
                    #[trigger] old(parser).binds(w)
                        ==> parser.residues(w)
                            == old(parser).residues(w) + self.residues(w).take(k as int),
            decreases vars.len() - k,
        {
            let ghost before = *parser;
            parser.constraint(&vars[k]);
            assert forall|w: RowView| #[trigger] old(parser).binds(w) implies parser.residues(w)
                == old(parser).residues(w) + self.residues(w).take(k + 1) by {
                assert(before.binds(w));
                let r = self.residues(w);
                assert(denote_all::<AP>(vars@, w)[k as int] == r[k as int]);
                assert(r.take(k + 1) =~= r.take(k as int).push(r[k as int]));
                assert((old(parser).residues(w)
                    + r.take(k as int)).push(r[k as int]) =~= old(parser).residues(w) + r.take(k
                        + 1));
            }
            k += 1;
        }
        assert forall|w: RowView| #[trigger] old(parser).binds(w) implies parser.residues(w)
            == old(parser).residues(w) + self.residues(w) by {
            assert(self.residues(w).take(vars@.len() as int) =~= self.residues(w));
        }
        Ok(())
    }

    /// Records the residue of each constraint at the row of a packed parser.
    /// Fails, and leaves the parser as it was, if the row does not hold every
    /// register of the instruction.
    pub fn packed_generic_constraints(&self, parser: &mut PackedParser) -> (r: Result<
        (),
        BuildError,
    >)
        ensures
            r is Ok <==> self.within(
                |kind: RegionKind| old(parser).window().region(kind).len(),
            ),
            r is Err ==> r == Err::<(), BuildError>(BuildError::InvalidRegister) && *final(parser)
                == *old(parser),
            final(parser).window() == old(parser).window(),
            r is Ok ==> final(parser).recorded() == old(parser).recorded() + self.residues(
                old(parser).window(),
            ),
    {
        let ghost w = parser.window();
        assert(parser.binds(w));
        let r = self.eval(parser);
        assert(parser.binds(w));
        assert(self.readable(old(parser)) == self.within(
            |kind: RegionKind| old(parser).window().region(kind).len(),
        ));
        r
    }

    /// Records the expression of each constraint in a recursive parser. Fails,
    /// and leaves the parser as it was, if the rows that the parser is for do
    /// not hold every register of the instruction.
    pub fn ext_circuit_constraints(&self, parser: &mut RecursiveParser) -> (r: Result<
        (),
        BuildError,
    >)
        ensures
            r is Ok <==> self.readable(old(parser)),
            r is Err ==> r == Err::<(), BuildError>(BuildError::InvalidRegister) && *final(parser)
                == *old(parser),
            final(parser).spec_width() == old(parser).spec_width(),
            final(parser).spec_num_public() == old(parser).spec_num_public(),
            final(parser).spec_num_global() == old(parser).spec_num_global(),
            r is Ok ==> {
                &&& final(parser).recorded().len() == old(parser).recorded().len() + 2 * self.nb()
                    - 1
                &&& forall|w: RowView|
                    #[trigger] old(parser).binds(w)
                        ==> final(parser).residues(w) == old(parser).residues(w) + self.residues(w)
            },
    {
        proof {
            use_type_invariant(self);
            self.lemma_wf();
        }
        let r = self.eval(parser);
        proof {
            assert(parser.region_len(RegionKind::Local)
                == old(parser).region_len(RegionKind::Local));
            assert(parser.region_len(RegionKind::Public) == old(parser).region_len(
                RegionKind::Public,
            ));
            assert(parser.region_len(RegionKind::Global) == old(parser).region_len(
                RegionKind::Global,
            ));
            if r is Ok {
                let w0 = RowView {
                    local: Seq::new(parser.spec_width(), |i: int| 0int),
                    next: Seq::new(parser.spec_width(), |i: int| 0int),
                    public: Seq::new(parser.spec_num_public(), |i: int| 0int),
                    global: Seq::new(parser.spec_num_global(), |i: int| 0int),
                };
                assert(old(parser).binds(w0));
                assert(parser.residues(w0).len() == parser.recorded().len());
                assert(old(parser).residues(w0).len() == old(parser).recorded().len());
            }
        }
        r
    }

    /// The registers that the instruction reads: the operand.
    pub open spec fn reads(&self) -> Seq<MemorySlice> {
        seq![self.a_slice()]
    }

    /// The registers that the instruction writes: result, carry and the two
    /// halves of the witness.
    pub open spec fn writes(&self) -> Seq<MemorySlice> {
        seq![self.result_slice(), self.carry_slice(), self.low_slice(), self.high_slice()]
    }

    /// What the instruction writes for operand `a`, register by register.
    pub open spec fn outputs_of(&self, a: int) -> Seq<Seq<int>> {
        seq![self.result_limbs_of(a), self.carry_limbs_of(a), self.low_of(a), self.high_of(a)]
    }

    /// A row cut into the parts that go to result, carry and the two halves of
    /// the witness.
    pub open spec fn split(&self, row: Seq<int>) -> Seq<Seq<int>> {
        let nb = self.nb() as int;
        seq![
            row.subrange(0, nb),
            row.subrange(nb, 2 * nb),
            row.subrange(2 * nb, 4 * nb - 2),
            row.subrange(4 * nb - 2, 6 * nb - 4),
        ]
    }

    /// The trace after the instruction was written for operand `a` at `row`,
    /// or why it cannot be.
    pub open spec fn step_with(&self, t: TraceView, row: Option<usize>, a: int) -> Result<
        TraceView,
        WitnessError,
    > {
        match self.outcome(a) {
            Err(e) => Err(e),
            Ok(_) => if t.admits_all(self.writes(), row, self.outputs_of(a)) {
                Ok(t.write_all(self.writes(), row, self.outputs_of(a)))
            } else {
                Err(WitnessError::OutOfBounds)
            },
        }
    }

    /// Whether every cell of the operand is a limb.
    pub open spec fn operand_in_range(&self, w: RowView) -> bool {
        forall|i: int| 0 <= i < self.nb() ==> 0 <= #[trigger] w.cell(self.a_slice(), i) < 65536
    }

    /// The trace after the instruction was written at `row` for the operand
    /// that the trace holds there, or why it cannot be.
    pub open spec fn step(&self, t: TraceView, row: Option<usize>) -> Result<
        TraceView,
        WitnessError,
    > {
        if !t.admits(self.a_slice(), row) {
            Err(WitnessError::OutOfBounds)
        } else if !self.operand_in_range(t.view_at(row)) {
            Err(WitnessError::OperandRange)
        } else {
            self.step_with(t, row, poly_eval(t.view_at(row).values(self.a_slice()), 65536))
        }
    }

    /// The registers of the instruction: those it reads, then those it writes.
    pub fn memory_vec(&self) -> (r: Vec<MemorySlice>)
        ensures
            r@ == self.reads() + self.writes(),
    {
        let mut out: Vec<MemorySlice> = Vec::new();
        out.push(self.a.slice);
        out.push(self.result.slice);
        out.push(self.carry.slice);
        out.push(self.witness_low.slice);
        out.push(self.witness_high.slice);
        assert(out@ =~= self.reads() + self.writes());
        out
    }

    /// The registers that the instruction writes.
    pub fn output_slices(&self) -> (r: Vec<MemorySlice>)
        ensures
            r@ == self.writes(),
    {
        let mut out: Vec<MemorySlice> = Vec::new();
        out.push(self.result.slice);
        out.push(self.carry.slice);
        out.push(self.witness_low.slice);
        out.push(self.witness_high.slice);
        assert(out@ =~= self.writes());
        out
    }

    /// The registers that the instruction reads. Every instruction in hand is
    /// valid.
    pub fn input_slices(&self) -> (r: Vec<MemorySlice>)
        ensures
            r@ == self.reads(),
            self.wf(),
    {
        proof {
            use_type_invariant(self);
        }
        let mut out: Vec<MemorySlice> = Vec::new();
        out.push(self.a.slice);
        assert(out@ =~= self.reads());
        out
    }

    /// Writes a row, as `trace_row` makes it, to the registers of the
    /// instruction at `row_index`. Fails, and leaves the trace as it was, if
    /// the row has not `6·nb - 4` cells or a register lies outside the trace.
    pub fn assign_row(&self, handle: &mut TraceHandle, row: &Vec<Felt>, row_index: usize) -> (r:
        Result<(), WitnessError>)
        requires
            old(handle).wf(),
        ensures
            final(handle).wf(),
            r is Ok <==> row@.len() == 6 * self.nb() - 4 && old(handle)@.admits_all(
                self.writes(),
                Some(row_index),
                self.split(felts(row@)),
            ),
            r is Ok ==> final(handle)@ == old(handle)@.write_all(
                self.writes(),
                Some(row_index),
                self.split(felts(row@)),
            ),
            r is Err ==> r == Err::<(), WitnessError>(WitnessError::OutOfBounds) && final(handle)@
                == old(handle)@,
    {
        self.assign_at(handle, row, Some(row_index))
    }

    /// Writes a row to the registers of the instruction, taken at `row_index`.
    fn assign_at(&self, handle: &mut TraceHandle, row: &Vec<Felt>, row_index: Option<usize>) -> (r:
        Result<(), WitnessError>)
        requires
            old(handle).wf(),
        ensures
            final(handle).wf(),
            r is Ok <==> row@.len() == 6 * self.nb() - 4 && old(handle)@.admits_all(
                self.writes(),
                row_index,
                self.split(felts(row@)),
            ),
            r is Ok ==> final(handle)@ == old(handle)@.write_all(
                self.writes(),
                row_index,
                self.split(felts(row@)),
            ),
            r is Err ==> r == Err::<(), WitnessError>(WitnessError::OutOfBounds) && final(handle)@
                == old(handle)@,
    {
        proof {
            use_type_invariant(self);
            self.lemma_wf();
        }
        let nb: usize = self.params.nb_limbs();
        if row.len() != 6 * nb - 4 {
            return Err(WitnessError::OutOfBounds);
        }
        let mut values: Vec<Vec<Felt>> = Vec::new();
        values.push(segment(row, 0, nb));
        values.push(segment(row, nb, nb));
        values.push(segment(row, 2 * nb, 2 * nb - 2));
        values.push(segment(row, 4 * nb - 2, 2 * nb - 2));
        let slices = self.output_slices();
        proof {
            let fr = felts(row@);
            let want = self.split(fr);
            let got = felts_all(values@);
            assert(got.len() == 4);
            assert(got[0] =~= want[0]);
            assert(got[1] =~= want[1]);
            assert(got[2] =~= want[2]);
            assert(got[3] =~= want[3]);
            assert(got =~= want);
        }
        handle.write_all(&slices, &values, row_index)
    }

    /// Writes the instruction for operand `a` to its registers, taken at
    /// `row`: the row that `trace_row` makes. Returns the result `a·c mod p`.
    /// Fails, and leaves the trace as it was, if no row can be made for `a` or
    /// a register lies outside the trace.
    pub fn write_with(&self, handle: &mut TraceHandle, row: Option<usize>, a: &BigNat) -> (r:
        Result<BigNat, WitnessError>)
        requires
            old(handle).wf(),
        ensures
            final(handle).wf(),
            match r {
                Ok(result) => {
                    &&& result@ == self.result_of(a@ as int)
                    &&& self.step_with(old(handle)@, row, a@ as int) == Ok::<
                        TraceView,
                        WitnessError,
                    >(final(handle)@)
                },
                Err(e) => {
                    &&& self.step_with(old(handle)@, row, a@ as int) == Err::<
                        TraceView,
                        WitnessError,
                    >(e)
                    &&& final(handle)@ == old(handle)@
                },
            },
    {
        proof {
            use_type_invariant(self);
            self.lemma_wf();
        }
        let (cells, result) = match self.trace_row(a) {
            Ok(pair) => pair,
            Err(e) => {
                return Err(e);
            },
        };
        proof {
            let x = a@ as int;
            let fr = felts(cells@);
            lemma_limbs_of_range(x, self.nb());
            lemma_limbs_of_range(self.result_of(x), self.nb());
            lemma_limbs_of_range(self.carry_of(x), self.nb());
            assert(self.vanishing_of(x).len() == 2 * self.nb() - 1);
            assert(self.shifted_witness_of(x).len() == 2 * self.nb() - 2);
            assert(fr.len() == 6 * self.nb() - 4);
            let got = self.split(fr);
            let want = self.outputs_of(x);
            assert(got[0] =~= want[0]);
            assert(got[1] =~= want[1]);
            assert(got[2] =~= want[2]);
            assert(got[3] =~= want[3]);
            assert(got =~= want);
        }
        match self.assign_at(handle, &cells, row) {
            Ok(_) => Ok(result),
            Err(e) => Err(e),
        }
    }

    /// Writes the instruction at `row` for the operand that the trace holds
    /// there. Fails, and leaves the trace as it was, if a register lies
    /// outside the trace, if a cell of the operand is no limb, or if no row
    /// can be made for the operand.
    pub fn write_at(&self, handle: &mut TraceHandle, row: Option<usize>) -> (r: Result<
        (),
        WitnessError,
    >)
        requires
            old(handle).wf(),
        ensures
            final(handle).wf(),
            match r {
                Ok(_) => self.step(old(handle)@, row) == Ok::<TraceView, WitnessError>(
                    final(handle)@,
                ),
                Err(e) => {
                    &&& self.step(old(handle)@, row) == Err::<TraceView, WitnessError>(e)
                    &&& final(handle)@ == old(handle)@
                },
            },
    {
        proof {
            use_type_invariant(self);
            self.lemma_wf();
        }
        let cells = match handle.read(&self.a.slice, row) {
            Some(c) => c,
            None => {
                return Err(WitnessError::OutOfBounds);
            },
        };
        let ghost w = handle@.view_at(row);
        let ghost av = w.values(self.a_slice());
        let mut limbs: Vec<u16> = Vec::new();
        let mut i: usize = 0;
        while i < cells.len()
            invariant
                i <= cells@.len(),
                cells@.len() == self.nb(),
                handle.wf(),
                handle@ == old(handle)@,
                w == handle@.view_at(row),
                old(handle)@.admits(self.a_slice(), row),
                self.a_slice().len == self.nb(),
                felts(cells@) == av,
                av == w.values(self.a_slice()),
                limbs@.len() == i,
                forall|j: int| 0 <= j < i ==> (#[trigger] limbs@[j]) as int == av[j],
            decreases cells.len() - i,
        {
            let v: u64 = cells[i].as_canonical_u64();
            assert(av[i as int] == v);
            assert(w.cell(self.a_slice(), i as int) == av[i as int]);
            if v >= 65536 {
                return Err(WitnessError::OperandRange);
            }
            limbs.push(v as u16);
            i += 1;
        }
        proof {
            assert(u16_ints(limbs@) =~= av);
            assert forall|j: int| 0 <= j < self.nb() implies 0 <= #[trigger] w.cell(
                self.a_slice(),
                j,
            ) < 65536 by {
                assert(w.cell(self.a_slice(), j) == av[j]);
                assert(limbs@[j] as int == av[j]);
            }
        }
        let a: BigNat = BigNat::from_limbs(&limbs);
        match self.write_with(handle, row, &a) {
            Ok(_) => Ok(()),
            Err(e) => Err(e),
        }
    }

    /// Constraint vanishing: on a row that holds the limbs of an operand `a`
    /// and the row made for `a`, every constraint of the instruction is zero.
    pub proof fn lemma_constraints_vanish(&self, a: int, w: RowView)
        requires
            self.wf(),
            0 <= a,
            self.outcome(a) is Ok,
            w.values(self.a_slice()) == limbs_of(a, self.nb()),
            w.values(self.result_slice()) == self.result_limbs_of(a),
            w.values(self.carry_slice()) == self.carry_limbs_of(a),
            w.values(self.low_slice()) == self.low_of(a),
            w.values(self.high_slice()) == self.high_of(a),
        ensures
            forall|k: int| 0 <= k < 2 * self.nb() - 1 ==> self.residue(w, k) == 0,
    {
        self.lemma_wf();
        let nb = self.nb();
        let al = limbs_of(a, nb);
        let cl = self.c_limbs();
        let rl = self.result_limbs_of(a);
        let kl = self.carry_limbs_of(a);
        let pl = self.p_limbs();
        let m = self.modulus();
        let x = a * self.c_value();
        assert(0 <= x) by (nonlinear_arith)
            requires
                0 <= a,
                0 <= self.c_value(),
                x == a * self.c_value(),
        ;
        // the numbers that the limbs spell
        lemma_limbs_of_range(a, nb);
        lemma_limbs_of_range(self.result_of(a), nb);
        lemma_limbs_of_range(self.carry_of(a), nb);
        lemma_limbs_of_value(a, nb);
        lemma_fundamental_div_mod(x, m);
        vstd::arithmetic::div_mod::lemma_mod_bound(x, m);
        vstd::arithmetic::div_mod::lemma_div_pos_is_pos(x, m);
        lemma_limbs_of_value(self.result_of(a), nb);
        lemma_limbs_of_value(self.carry_of(a), nb);
        assert(poly_eval(al, 65536) * poly_eval(cl, 65536) == poly_eval(rl, 65536) + poly_eval(
            kl,
            65536,
        ) * poly_eval(pl, 65536)) by (nonlinear_arith)
            requires
                poly_eval(al, 65536) * poly_eval(cl, 65536) == x,
                x == m * (x / m) + x % m,
                poly_eval(rl, 65536) == x % m,
                poly_eval(kl, 65536) == x / m,
                poly_eval(pl, 65536) == m,
        ;
        lemma_vanishing_root(al, cl, rl, kl, pl);
        let v = self.vanishing_of(a);
        let q = self.witness_of(a);
        // the row holds the witness itself
        let s = self.shifted_witness_of(a);
        assert(self.witness_at(w) =~= q) by {
            assert forall|j: int| 0 <= j < q.len() implies self.witness_at(w)[j] == q[j] by {
                assert(w.values(self.low_slice())[j] == w.cell(self.low_slice(), j));
                assert(w.values(self.high_slice())[j] == w.cell(self.high_slice(), j));
                assert(self.low_of(a)[j] == s[j] % 65536);
                assert(self.high_of(a)[j] == s[j] / 65536);
                lemma_fundamental_div_mod(s[j], 65536);
            }
        }
        assert forall|k: int| 0 <= k < 2 * self.nb() - 1 implies self.residue(w, k) == 0 by {
            lemma_root_quotient(v, 65536, k);
            assert(coeff(v, k) == conv(al, cl, k) - coeff(rl, k) - conv(kl, pl, k));
        }
    }

    /// What the instruction writes at `row` for the operand that the trace
    /// holds there, register by register.
    pub open spec fn computed(&self, t: TraceView, row: Option<usize>) -> Seq<Seq<int>> {
        self.outputs_of(poly_eval(t.view_at(row).values(self.a_slice()), 65536))
    }

    /// Whether no register that the instruction writes has a cell in common
    /// with another register of the instruction.
    pub open spec fn well_placed(&self) -> bool {
        &&& pairwise_apart(self.writes())
        &&& forall|i: int|
            0 <= i < self.writes().len() ==> !(#[trigger] self.writes()[i]).overlaps(
                &self.a_slice(),
            )
    }

    /// Executable form of `well_placed`.
    pub fn is_well_placed(&self) -> (r: bool)
        ensures
            r == self.well_placed(),
    {
        let rd = self.input_slices();
        let wr = self.output_slices();
        let r = check_pairwise_apart(&wr) && check_none_overlap(&wr, &rd);
        proof {
            if r {
                assert forall|i: int| 0 <= i < self.writes().len() implies !(
                #[trigger] self.writes()[i]).overlaps(&self.a_slice()) by {
                    assert(!wr@[i].overlaps(&rd@[0]));
                }
            }
            if self.well_placed() {
                assert(none_overlap(wr@, rd@));
            }
        }
        r
    }

    /// A copy of the instruction.
    pub fn duplicate(&self) -> (r: FpMulConst)
        ensures
            r == *self,
    {
        proof {
            use_type_invariant(self);
        }
        FpMulConst {
            params: self.params,
            a: self.a,
            c: self.c,
            result: self.result,
            carry: self.carry,
            witness_low: ArrayRegister {
                slice: self.witness_low.slice,
                length: self.witness_low.length,
                marker: core::marker::PhantomData,
            },
            witness_high: ArrayRegister {
                slice: self.witness_high.slice,
                length: self.witness_high.length,
                marker: core::marker::PhantomData,
            },
        }
    }

    /// The values of the constraints at a row depend only on the registers of
    /// the instruction.
    pub proof fn lemma_residue_frame(&self, w: RowView, w2: RowView, k: int)
        requires
            self.wf(),
            w.values(self.a_slice()) == w2.values(self.a_slice()),
            forall|i: int|
                0 <= i < self.writes().len() ==> w.values(#[trigger] self.writes()[i])
                    == w2.values(self.writes()[i]),
        ensures
            self.residue(w, k) == self.residue(w2, k),
    {
        self.lemma_wf();
        assert(w.values(self.writes()[0]) == w2.values(self.writes()[0]));
        assert(w.values(self.writes()[1]) == w2.values(self.writes()[1]));
        assert(w.values(self.writes()[2]) == w2.values(self.writes()[2]));
        assert(w.values(self.writes()[3]) == w2.values(self.writes()[3]));
        assert(self.witness_at(w) =~= self.witness_at(w2)) by {
            assert forall|j: int| 0 <= j < self.low_slice().len implies self.witness_at(w)[j]
                == self.witness_at(w2)[j] by {
                assert(w.values(self.low_slice())[j] == w.cell(self.low_slice(), j));
                assert(w2.values(self.low_slice())[j] == w2.cell(self.low_slice(), j));
                assert(w.values(self.high_slice())[j] == w.cell(self.high_slice(), j));
                assert(w2.values(self.high_slice())[j] == w2.cell(self.high_slice(), j));
            }
        }
    }

    /// What a successful write is: the computed values, written to the
    /// registers that the instruction writes.
    pub proof fn lemma_step_writes(&self, t: TraceView, row: Option<usize>)
        requires
            self.step(t, row) is Ok,
        ensures
            t.admits(self.a_slice(), row),
            self.operand_in_range(t.view_at(row)),
            t.admits_all(self.writes(), row, self.computed(t, row)),
            self.step(t, row) == Ok::<TraceView, WitnessError>(
                t.write_all(self.writes(), row, self.computed(t, row)),
            ),
    {
    }

    /// Constraint vanishing after a write: once the instruction was written at
    /// a row, every constraint of the instruction is zero there.
    pub proof fn lemma_step_sound(&self, t: TraceView, row: Option<usize>, k: int)
        requires
            self.wf(),
            t.wf(),
            self.well_placed(),
            self.step(t, row) is Ok,
            0 <= k < 2 * self.nb() - 1,
        ensures
            self.residue(self.step(t, row).unwrap().view_at(row), k) == 0,
    {
        self.lemma_wf();
        self.lemma_step_writes(t, row);
        let w = t.view_at(row);
        let av = w.values(self.a_slice());
        let a = poly_eval(av, 65536);
        let outs = self.computed(t, row);
        let t2 = t.write_all(self.writes(), row, outs);
        let w2 = t2.view_at(row);
        assert forall|i: int| 0 <= i < av.len() implies 0 <= #[trigger] av[i] < 65536 by {
            assert(av[i] == w.cell(self.a_slice(), i));
        }
        lemma_limbs_unique(av);
        lemma_eval_nonnegative(av, 65536);
        // the operand stays, the outputs are what was written
        assert forall|i: int| 0 <= i < self.writes().len() implies t.apart(
            #[trigger] self.writes()[i],
            row,
            self.a_slice(),
            row,
        ) by {}
        lemma_write_all_other(t, self.writes(), row, outs, self.a_slice(), row);
        lemma_write_all_same(t, self.writes(), row, outs, 0);
        lemma_write_all_same(t, self.writes(), row, outs, 1);
        lemma_write_all_same(t, self.writes(), row, outs, 2);
        lemma_write_all_same(t, self.writes(), row, outs, 3);
        self.lemma_constraints_vanish(a, w2);
    }

    /// Round trip: once the instruction was written for an operand `a`, the
    /// limbs in the result register spell `a·c mod p`, and those in the carry
    /// register spell `(a·c - result) / p`.
    pub proof fn lemma_round_trip(&self, t: TraceView, row: Option<usize>, a: int)
        requires
            self.wf(),
            t.wf(),
            pairwise_apart(self.writes()),
            0 <= a,
            self.step_with(t, row, a) is Ok,
        ensures
            poly_eval(
                self.step_with(t, row, a).unwrap().view_at(row).values(self.result_slice()),
                65536,
            ) == (a * self.c_value()) % self.modulus(),
            poly_eval(
                self.step_with(t, row, a).unwrap().view_at(row).values(self.carry_slice()),
                65536,
            ) == (a * self.c_value()) / self.modulus(),
    {
        self.lemma_wf();
        let outs = self.outputs_of(a);
        lemma_write_all_same(t, self.writes(), row, outs, 0);
        lemma_write_all_same(t, self.writes(), row, outs, 1);
        let m = self.modulus();
        let x = a * self.c_value();
        assert(0 <= x) by (nonlinear_arith)
            requires
                0 <= a,
                0 <= self.c_value(),
                x == a * self.c_value(),
        ;
        vstd::arithmetic::div_mod::lemma_mod_bound(x, m);
        vstd::arithmetic::div_mod::lemma_div_pos_is_pos(x, m);
        lemma_limbs_of_value(self.result_of(a), self.nb());
        lemma_limbs_of_value(self.carry_of(a), self.nb());
    }

    /// What a write does depends only on the shape of the trace and on the
    /// operand that it holds.
    pub proof fn lemma_step_congruent(&self, t: TraceView, t2: TraceView, row: Option<usize>)
        requires
            self.wf(),
            t.wf(),
            t2.wf(),
            t.same_shape(t2),
            t.admits(self.a_slice(), row) ==> t.view_at(row).values(self.a_slice()) == t2.view_at(
                row,
            ).values(self.a_slice()),
        ensures
            self.step(t, row) is Ok <==> self.step(t2, row) is Ok,
            self.step(t, row) matches Err(e) ==> self.step(t2, row) == Err::<
                TraceView,
                WitnessError,
            >(e),
            self.step(t, row) is Ok ==> self.computed(t, row) == self.computed(t2, row),
    {
        self.lemma_wf();
        let w = t.view_at(row);
        let w2 = t2.view_at(row);
        let s = self.a_slice();
        assert(t.admits(s, row) == t2.admits(s, row));
        if t.admits(s, row) {
            assert forall|i: int| 0 <= i < self.nb() implies w.cell(s, i) == w2.cell(s, i) by {
                assert(w.values(s)[i] == w.cell(s, i));
                assert(w2.values(s)[i] == w2.cell(s, i));
            }
            assert forall|i: int| 0 <= i < self.writes().len() implies t.admits(
                #[trigger] self.writes()[i],
                row,
            ) == t2.admits(self.writes()[i], row) by {}
        }
    }

    /// Whether the offset is large enough for every witness: above
    /// `nb·65535`, and small enough for the raised witness to fit in 32 bits.
    pub open spec fn offset_calibrated(&self) -> bool {
        &&& self.offset() >= self.nb() * 65535 + 1
        &&& self.offset() + self.nb() * 65535 + 1 < 0x1_0000_0000
    }

    /// With a calibrated offset no witness is out of range: each coefficient
    /// of the witness lies within `nb·65535 + 1` of zero.
    pub proof fn lemma_witness_in_range(&self, a: int)
        requires
            self.wf(),
            self.offset_calibrated(),
            0 <= a < pow(65536, self.nb()),
            self.carry_of(a) < self.modulus(),
        ensures
            self.witness_in_range(a),
            self.outcome(a) is Ok,
    {
        self.lemma_wf();
        let nb = self.nb();
        let al = limbs_of(a, nb);
        let cl = self.c_limbs();
        let rl = self.result_limbs_of(a);
        let kl = self.carry_limbs_of(a);
        let pl = self.p_limbs();
        let md = self.modulus();
        let x = a * self.c_value();
        assert(0 <= x) by (nonlinear_arith)
            requires
                0 <= a,
                0 <= self.c_value(),
                x == a * self.c_value(),
        ;
        lemma_limbs_of_range(a, nb);
        lemma_limbs_of_range(self.result_of(a), nb);
        lemma_limbs_of_range(self.carry_of(a), nb);
        lemma_limbs_of_value(a, nb);
        lemma_fundamental_div_mod(x, md);
        vstd::arithmetic::div_mod::lemma_mod_bound(x, md);
        vstd::arithmetic::div_mod::lemma_div_pos_is_pos(x, md);
        lemma_limbs_of_value(self.result_of(a), nb);
        lemma_limbs_of_value(self.carry_of(a), nb);
        assert(poly_eval(al, 65536) * poly_eval(cl, 65536) == poly_eval(rl, 65536) + poly_eval(
            kl,
            65536,
        ) * poly_eval(pl, 65536)) by (nonlinear_arith)
            requires
                poly_eval(al, 65536) * poly_eval(cl, 65536) == x,
                x == md * (x / md) + x % md,
                poly_eval(rl, 65536) == x % md,
                poly_eval(kl, 65536) == x / md,
                poly_eval(pl, 65536) == md,
        ;
        lemma_vanishing_root(al, cl, rl, kl, pl);
        let v = self.vanishing_of(a);
        let q = self.witness_of(a);
        let m: int = 65535 * (nb as int * 65535 + 1);
        assert forall|j: int| 0 <= j < v.len() implies abs(#[trigger] v[j]) <= m by {
            lemma_conv_bounded(al, cl, 65535, j);
            lemma_conv_bounded(kl, pl, 65535, j);
            assert(0 <= coeff(rl, j) <= 65535);
            assert(nb * (65535 * 65535) + 65535 == m) by (nonlinear_arith)
                requires
                    m == 65535 * (nb * 65535 + 1),
            ;
        }
        assert forall|k: int| 0 <= k < q.len() implies 0 <= #[trigger] q[k] + self.offset()
            < 0x1_0000_0000 by {
            lemma_quotient_bounded(v, 65536, m, k);
            assert(abs(q[k]) <= nb * 65535 + 1) by (nonlinear_arith)
                requires
                    65535 * abs(q[k]) <= 65535 * (nb * 65535 + 1),
            ;
        }
    }
}

/// The coefficients of `A·C - R - Carry·P` for limbs of one length.
fn vanishing_coefficients(
    a: &Vec<u16>,
    c: &Vec<u16>,
    r: &Vec<u16>,
    carry: &Vec<u16>,
    p: &Vec<u16>,
) -> (v: Vec<i64>)
    requires
        1 <= a@.len() <= 32,
        c@.len() == a@.len(),
        r@.len() == a@.len(),
        carry@.len() == a@.len(),
        p@.len() == a@.len(),
    ensures
        i64_ints(v@) == vanishing_poly(
            u16_ints(a@),
            u16_ints(c@),
            u16_ints(r@),
            u16_ints(carry@),
            u16_ints(p@),
        ),
        forall|k: int| 0 <= k < v@.len() ==> -0x100_0000_0000 < #[trigger] v@[k] < 0x100_0000_0000,
{
    let n: usize = 2 * a.len() - 1;
    let ghost want = vanishing_poly(
        u16_ints(a@),
        u16_ints(c@),
        u16_ints(r@),
        u16_ints(carry@),
        u16_ints(p@),
    );
    let mut out: Vec<i64> = Vec::new();
    let mut k: usize = 0;
    while k < n
        invariant
            k <= n,
            n == 2 * a@.len() - 1,
            1 <= a@.len() <= 32,
            carry@.len() == a@.len(),
            r@.len() == a@.len(),
            out@.len() == k,
            want == vanishing_poly(
                u16_ints(a@),
                u16_ints(c@),
                u16_ints(r@),
                u16_ints(carry@),
                u16_ints(p@),
            ),
            forall|j: int| 0 <= j < k ==> (#[trigger] out@[j]) as int == want[j],
            forall|j: int| 0 <= j < k ==> -0x100_0000_0000 < #[trigger] out@[j] < 0x100_0000_0000,
        decreases n - k,
    {
        let ac: i64 = limb_product_coefficient(a, c, k);
        let cp: i64 = limb_product_coefficient(carry, p, k);
        let rk: i64 = if k < r.len() {
            r[k] as i64
        } else {
            0
        };
        assert(rk == coeff(u16_ints(r@), k as int));
        assert(32 * limb_square() < 0x100_0000_0000 - 65536);
        assert(a@.len() * limb_square() <= 32 * limb_square()) by (nonlinear_arith)
            requires
                a@.len() <= 32,
                limb_square() >= 0,
        ;
        out.push(ac - rk - cp);
        k += 1;
    }
    assert(i64_ints(out@) =~= want);
    out
}

/// The number `65536` is a root of `A·C - R - Carry·P` when the numbers that
/// the limbs spell satisfy `a·c = r + carry·p`.
pub proof fn lemma_vanishing_root(
    a: Seq<int>,
    c: Seq<int>,
    r: Seq<int>,
    carry: Seq<int>,
    p: Seq<int>,
)
    requires
        a.len() >= 1,
        c.len() == a.len(),
        r.len() == a.len(),
        carry.len() == a.len(),
        p.len() == a.len(),
        poly_eval(a, 65536) * poly_eval(c, 65536) == poly_eval(r, 65536) + poly_eval(carry, 65536)
            * poly_eval(p, 65536),
    ensures
        poly_eval(vanishing_poly(a, c, r, carry, p), 65536) == 0,
{
    let m = (2 * a.len() - 1) as nat;
    let ac = poly_mul(a, c, m);
    let kp = poly_mul(carry, p, m);
    let rp = Seq::new(m, |i: int| coeff(r, i));
    let t = Seq::new(m, |k: int| ac[k] - rp[k]);
    let v = vanishing_poly(a, c, r, carry, p);
    lemma_eval_mul(a, c, m, 65536);
    lemma_eval_mul(carry, p, m, 65536);
    lemma_eval_padded(r, m, 65536);
    lemma_eval_linear(ac, rp, 1, -1, t, 65536);
    lemma_eval_linear(t, kp, 1, -1, v, 65536);
}

impl TraceHandle {
    /// Writes `a` to an operand register at a row, limb by limb. Fails, and
    /// leaves the trace as it was, if `a` does not fit in the register or the
    /// register lies outside the trace.
    pub fn write_field(&mut self, row_index: usize, a_int: &BigNat, register: &FieldRegister) -> (r:
        Result<(), WitnessError>)
        requires
            old(self).wf(),
        ensures
            final(self).wf(),
            match r {
                Ok(_) => {
                    &&& a_int@ < pow(65536, register.slice.len as nat)
                    &&& old(self)@.admits(register.slice, Some(row_index))
                    &&& final(self)@ == old(self)@.write(
                        register.slice,
                        Some(row_index),
                        limbs_of(a_int@ as int, register.slice.len as nat),
                    )
                },
                Err(e) => {
                    &&& final(self)@ == old(self)@
                    &&& e == (if a_int@ >= pow(65536, register.slice.len as nat) {
                        WitnessError::OperandRange
                    } else {
                        WitnessError::OutOfBounds
                    })
                    &&& a_int@ >= pow(65536, register.slice.len as nat) || !old(self)@.admits(
                        register.slice,
                        Some(row_index),
                    )
                },
            },
    {
        let limbs: Vec<u16> = match a_int.to_limbs(register.slice.len) {
            Some(l) => l,
            None => {
                return Err(WitnessError::OperandRange);
            },
        };
        let cells: Vec<Felt> = to_field_iter(&limbs);
        self.write(&register.slice, &cells, Some(row_index))
    }

    /// Writes the instruction for operand `a_int` at a row, and returns the
    /// result `a·c mod p`. Fails, and leaves the trace as it was, if no row
    /// can be made for `a_int` or a register lies outside the trace.
    pub fn write_fpmul_const(
        &mut self,
        row_index: usize,
        a_int: &BigNat,
        instruction: &FpMulConst,
    ) -> (r: Result<BigNat, WitnessError>)
        requires
            old(self).wf(),
        ensures
            final(self).wf(),
            match r {
                Ok(result) => {
                    &&& result@ == instruction.result_of(a_int@ as int)
                    &&& instruction.step_with(old(self)@, Some(row_index), a_int@ as int) == Ok::<
                        TraceView,
                        WitnessError,
                    >(final(self)@)
                },
                Err(e) => {
                    &&& instruction.step_with(old(self)@, Some(row_index), a_int@ as int) == Err::<
                        TraceView,
                        WitnessError,
                    >(e)
                    &&& final(self)@ == old(self)@
                },
            },
    {
        instruction.write_with(self, Some(row_index), a_int)
    }
}

} // verus!
