//! Parameter sets of a limbed prime field.
//!
//! A parameter set fixes a modulus, how many 16-bit limbs spell a number below
//! it, and the offset that keeps the witness of a multiplication non-negative.

use crate::bigint::{limbs_value, u16_ints, BigNat};
use crate::polynomial::{lemma_eval_at_least, lemma_suffix_eval_is_eval, suffix_eval};
use vstd::arithmetic::power2::{lemma2_to64, lemma_pow2_adds, pow2};
use vstd::prelude::*;

verus! {

/// The largest number of limbs that a parameter set may use.
pub const MAX_NB_LIMBS: usize = 32;

/// The limbs of `2^255 - 19`: the lowest is `2^16 - 19`, the highest is
/// `2^15 - 1`, and every limb between is `2^16 - 1`.
pub open spec fn fp25519_limbs() -> Seq<u16> {
    Seq::new(
        16,
        |i: int|
            if i == 0 {
                65517u16
            } else if i == 15 {
                32767u16
            } else {
                65535u16
            },
    )
}

/// The limbs of `2^255 - 19` from the `k`-th up spell `2^(255 - 16·k) - 1`.
proof fn lemma_fp25519_upper(k: int)
    requires
        1 <= k <= 15,
    ensures
        suffix_eval(u16_ints(fp25519_limbs()), k, 65536) == pow2((255 - 16 * k) as nat) - 1,
    decreases 15 - k,
{
    let v = u16_ints(fp25519_limbs());
    lemma2_to64();
    if k == 15 {
        assert(suffix_eval(v, 16, 65536) == 0);
        assert(suffix_eval(v, 15, 65536) == 32767);
    } else {
        lemma_fp25519_upper(k + 1);
        let m = (255 - 16 * (k + 1)) as nat;
        lemma_pow2_adds(16, m);
        assert(v[k] == 65535);
        assert(suffix_eval(v, k, 65536) == 65535 + 65536 * (pow2(m) - 1));
        assert(65535 + 65536 * (pow2(m) - 1) == 65536 * pow2(m) - 1) by (nonlinear_arith);
    }
}

/// The limbs of `2^255 - 19` spell `2^255 - 19`.
pub proof fn lemma_fp25519_modulus()
    ensures
        limbs_value(fp25519_limbs()) == pow2(255) - 19,
{
    let v = u16_ints(fp25519_limbs());
    lemma2_to64();
    lemma_fp25519_upper(1);
    lemma_pow2_adds(16, 239);
    lemma_suffix_eval_is_eval(v, 0, 65536);
    assert(v.skip(0) =~= v);
    assert(v[0] == 65517);
    assert(suffix_eval(v, 0, 65536) == 65517 + 65536 * (pow2(239) - 1));
    assert(65517 + 65536 * (pow2(239) - 1) == 65536 * pow2(239) - 19) by (nonlinear_arith);
}

/// The modulus, limb count and witness offset of a limbed field.
#[derive(Clone, Copy, Debug)]
pub struct FieldParameters {
    modulus: [u16; MAX_NB_LIMBS],
    nb_limbs: usize,
    witness_offset: u32,
}

impl FieldParameters {
    /// Validity of a parameter set: between one and `MAX_NB_LIMBS` limbs, and a
    /// modulus that is not zero and fits in them.
    pub closed spec fn wf(&self) -> bool {
        &&& 1 <= self.nb_limbs <= MAX_NB_LIMBS
        &&& forall|i: int| self.nb_limbs <= i < MAX_NB_LIMBS ==> self.modulus@[i] == 0
        &&& limbs_value(self.modulus@.take(self.nb_limbs as int)) > 0
    }

    #[verifier::type_invariant]
    spec fn inv(&self) -> bool {
        self.wf()
    }

    /// The number of limbs of a field element.
    pub closed spec fn spec_nb_limbs(&self) -> nat {
        self.nb_limbs as nat
    }

    /// The number of limbs of each half of the witness.
    pub open spec fn spec_nb_witness_limbs(&self) -> nat {
        (2 * self.spec_nb_limbs() - 2) as nat
    }

    /// The limbs of the modulus, least significant first.
    pub closed spec fn spec_modulus_limbs(&self) -> Seq<u16> {
        self.modulus@.take(self.nb_limbs as int)
    }

    /// The modulus.
    pub open spec fn spec_modulus(&self) -> int {
        limbs_value(self.spec_modulus_limbs())
    }

    /// The offset added to each coefficient of the witness.
    pub closed spec fn spec_witness_offset(&self) -> int {
        self.witness_offset as int
    }

    /// What validity means, over the parts of a parameter set.
    pub proof fn lemma_wf(&self)
        requires
            self.wf(),
        ensures
            1 <= self.spec_nb_limbs() <= MAX_NB_LIMBS,
            self.spec_modulus_limbs().len() == self.spec_nb_limbs(),
            self.spec_modulus() > 0,
            0 <= self.spec_witness_offset() < 0x1_0000_0000,
    {
    }

    /// A parameter set from its parts, if they are valid: `nb_limbs` is
    /// between one and `MAX_NB_LIMBS`, `nb_witness_limbs` is `2·nb_limbs - 2`,
    /// and the modulus is not zero and has no limb set from `nb_limbs` upwards.
    pub fn new(
        modulus: [u16; MAX_NB_LIMBS],
        nb_limbs: usize,
        nb_witness_limbs: usize,
        witness_offset: u32,
    ) -> (r: Option<FieldParameters>)
        ensures
            r is Some <==> {
                &&& 1 <= nb_limbs <= MAX_NB_LIMBS
                &&& nb_witness_limbs == 2 * nb_limbs - 2
                &&& forall|i: int| nb_limbs <= i < MAX_NB_LIMBS ==> modulus@[i] == 0
                &&& exists|i: int| 0 <= i < nb_limbs && modulus@[i] != 0
            },
            r matches Some(p) ==> {
                &&& p.wf()
                &&& p.spec_nb_limbs() == nb_limbs
                &&& p.spec_modulus_limbs() == modulus@.take(nb_limbs as int)
                &&& p.spec_witness_offset() == witness_offset
            },
    {
        if nb_limbs < 1 || nb_limbs > MAX_NB_LIMBS {
            return None;
        }
        if nb_witness_limbs != 2 * nb_limbs - 2 {
            return None;
        }
        let mut nonzero: bool = false;
        let mut i: usize = 0;
        while i < MAX_NB_LIMBS
            invariant
                i <= MAX_NB_LIMBS,
                1 <= nb_limbs <= MAX_NB_LIMBS,
                forall|j: int| nb_limbs <= j < i ==> modulus@[j] == 0,
                nonzero <==> exists|j: int| 0 <= j < i && j < nb_limbs && modulus@[j] != 0,
            decreases MAX_NB_LIMBS - i,
        {
            if modulus[i] != 0 {
                if i >= nb_limbs {
                    return None;
                }
                nonzero = true;
            }
            i += 1;
        }
        if !nonzero {
            return None;
        }
        proof {
            let l = modulus@.take(nb_limbs as int);
            let j = choose|j: int| 0 <= j < nb_limbs && modulus@[j] != 0;
            assert(u16_ints(l)[j] != 0);
            lemma_eval_at_least(u16_ints(l), 65536, j);
            vstd::arithmetic::power::lemma_pow_positive(65536, j as nat);
        }
        Some(FieldParameters { modulus, nb_limbs, witness_offset })
    }

    /// The parameters of the field of order `2^255 - 19`: sixteen limbs and a
    /// witness offset of `2^20`.
    pub fn fp25519() -> (r: FieldParameters)
        ensures
            r.wf(),
            r.spec_nb_limbs() == 16,
            r.spec_witness_offset() == 0x10_0000,
            r.spec_modulus_limbs() == fp25519_limbs(),
            r.spec_modulus() == pow2(255) - 19,
    {
        let modulus: [u16; MAX_NB_LIMBS] = [
            65517,
            65535,
            65535,
            65535,
            65535,
            65535,
            65535,
            65535,
            65535,
            65535,
            65535,
            65535,
            65535,
            65535,
            65535,
            32767,
            0,
            0,
            0,
            0,
            0,
            0,
            0,
            0,
            0,
            0,
            0,
            0,
            0,
            0,
            0,
            0,
        ];
        proof {
            let l = modulus@.take(16);
            assert(l =~= fp25519_limbs());
            lemma_fp25519_modulus();
            assert(u16_ints(l)[0] != 0);
            lemma_eval_at_least(u16_ints(l), 65536, 0);
            vstd::arithmetic::power::lemma_pow_positive(65536, 0);
        }
        FieldParameters { modulus, nb_limbs: 16, witness_offset: 0x10_0000 }
    }

    /// The number of limbs of a field element. Every parameter set in hand is
    /// valid.
    pub fn nb_limbs(&self) -> (r: usize)
        ensures
            r == self.spec_nb_limbs(),
            1 <= r <= MAX_NB_LIMBS,
            self.wf(),
    {
        proof {
            use_type_invariant(self);
        }
        self.nb_limbs
    }

    /// The number of limbs of each half of the witness, `2·nb_limbs - 2`.
    pub fn nb_witness_limbs(&self) -> (r: usize)
        ensures
            r == self.spec_nb_witness_limbs(),
            r == 2 * self.spec_nb_limbs() - 2,
            self.wf(),
    {
        proof {
            use_type_invariant(self);
        }
        2 * self.nb_limbs - 2
    }

    /// The offset added to each coefficient of the witness.
    pub fn witness_offset(&self) -> (r: u32)
        ensures
            r == self.spec_witness_offset(),
    {
        self.witness_offset
    }

    /// The limbs of the modulus, least significant first.
    pub fn modulus_limbs(&self) -> (r: Vec<u16>)
        ensures
            r@ == self.spec_modulus_limbs(),
    {
        proof {
            use_type_invariant(self);
        }
        let mut out: Vec<u16> = Vec::new();
        let mut i: usize = 0;
        while i < self.nb_limbs
            invariant
                i <= self.nb_limbs <= MAX_NB_LIMBS,
                out@ =~= self.modulus@.take(i as int),
            decreases self.nb_limbs - i,
        {
            out.push(self.modulus[i]);
            i += 1;
        }
        out
    }

    /// The modulus as a number.
    pub fn modulus_biguint(&self) -> (r: BigNat)
        ensures
            r@ == self.spec_modulus(),
            r@ > 0,
    {
        proof {
            use_type_invariant(self);
        }
        let limbs = self.modulus_limbs();
        BigNat::from_limbs(&limbs)
    }
}

} // verus!
