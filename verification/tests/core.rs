use curta::bigint::BigNat;
use curta::builder::{AirParameters, ChipBuilder};
use curta::error::{BuildError, WitnessError};
use curta::field::{Felt, ORDER};
use curta::parser::{AirParser, Expr, PackedParser, RecursiveParser};
use curta::register::{
    next_register, ArrayRegister, BitRegister, ByteRegister, ElementRegister, MemorySlice,
    RegionKind, Register, U16Register, U32Register, U64Register,
};
use curta::trace::{check_power_of_two, TraceHandle};
use num::BigUint;

fn felt(v: u64) -> Felt {
    Felt::from_noncanonical_u64(v)
}

#[test]
fn field_arithmetic() {
    assert_eq!(ORDER, 18446744069414584321);
    let a = felt(ORDER - 1);
    let b = felt(5);
    assert_eq!(a.add(b).as_canonical_u64(), 4);
    assert_eq!(b.sub(a).as_canonical_u64(), 6);
    assert_eq!(a.sub(b).as_canonical_u64(), ORDER - 6);
    assert_eq!(a.mul(a).as_canonical_u64(), 1);
    assert_eq!(a.mul(b).as_canonical_u64(), ORDER - 5);
    assert_eq!(b.neg().as_canonical_u64(), ORDER - 5);
    assert_eq!(Felt::zero().neg().as_canonical_u64(), 0);
    assert_eq!(felt(ORDER).as_canonical_u64(), 0);
    assert_eq!(felt(u64::MAX).as_canonical_u64(), 0xFFFF_FFFE);
    assert_eq!(Felt::one().as_canonical_u64(), 1);
    assert!(Felt::zero().is_zero());
    assert!(!Felt::one().is_zero());
    assert_eq!(Felt::from_canonical_u8(255).as_canonical_u64(), 255);
    assert_eq!(Felt::from_canonical_u16(65535).as_canonical_u64(), 65535);
    assert_eq!(Felt::from_canonical_u32(u32::MAX).as_canonical_u64(), 4294967295);
    // 2^32 * 2^32 = 2^64 = 2^32 - 1 in the field
    let t = felt(1 << 32);
    assert_eq!(t.mul(t).as_canonical_u64(), (1 << 32) - 1);
    assert_eq!(felt(7), Felt::from_canonical_u8(7));
}

#[test]
fn big_numbers_and_limbs() {
    let x = BigUint::parse_bytes(b"123456789012345678901234567890123456789", 10).unwrap();
    let n = BigNat::from_u32_digits(x.to_u32_digits());
    assert_eq!(BigUint::new(n.to_u32_digits()), x);
    let limbs = n.to_limbs(8).unwrap();
    assert_eq!(limbs.len(), 8);
    let mut back = BigUint::from(0u32);
    for (i, l) in limbs.iter().enumerate() {
        back += BigUint::from(*l) << (16 * i);
    }
    assert_eq!(back, x);
    // 127 bits: eight limbs are enough, seven are not
    assert!(n.to_limbs(7).is_none());
    assert_eq!(n.to_limbs(9).unwrap()[8], 0);
    assert!(BigNat::from_limbs(&limbs).equals(&n));
    assert!(n.duplicate().equals(&n));

    let zero = BigNat::from_u32_digits(vec![]);
    assert_eq!(zero.to_limbs(0), Some(vec![]));
    assert_eq!(zero.to_limbs(3), Some(vec![0, 0, 0]));
    assert!(zero.equals(&BigNat::from_u32_digits(vec![0, 0])));
    assert!(!zero.equals(&BigNat::from_limbs(&vec![1])));
    let one = BigNat::from_limbs(&vec![1, 0, 0]);
    assert_eq!(one.to_u32_digits().iter().map(|d| *d as u64).sum::<u64>(), 1);
    assert!(one.to_limbs(0).is_none());
    assert_eq!(one.to_limbs(1), Some(vec![1]));
    // an odd number of limbs
    let odd = BigNat::from_limbs(&vec![0xFFFF, 0x1234, 0x00AB]);
    assert_eq!(
        BigUint::new(odd.to_u32_digits()),
        BigUint::from(0xFFFFu64 + (0x1234u64 << 16) + (0xABu64 << 32))
    );
    assert_eq!(odd.to_limbs(3), Some(vec![0xFFFF, 0x1234, 0x00AB]));
    // digits with zeros at the top
    let padded = BigNat::from_u32_digits(vec![5, 0, 0]);
    assert_eq!(padded.to_limbs(1), Some(vec![5]));
}

#[test]
fn slices_overlap_and_follow() {
    let a = MemorySlice::new(RegionKind::Local, 0, 4);
    let b = MemorySlice::new(RegionKind::Local, 3, 2);
    let c = MemorySlice::new(RegionKind::Local, 4, 2);
    let n = MemorySlice::new(RegionKind::Next, 2, 1);
    let p = MemorySlice::new(RegionKind::Public, 0, 4);
    let g = MemorySlice::new(RegionKind::Global, 0, 4);
    let empty = MemorySlice::new(RegionKind::Local, 1, 0);
    assert!(a.intersects(&b) && b.intersects(&a));
    assert!(!a.intersects(&c) && !c.intersects(&a));
    assert!(b.intersects(&c));
    assert!(a.intersects(&n) && n.intersects(&a));
    assert!(!a.intersects(&p) && !p.intersects(&g) && !g.intersects(&a));
    assert!(p.intersects(&p));
    assert!(!a.intersects(&empty) && !empty.intersects(&a) && !empty.intersects(&empty));
    let far = MemorySlice::new(RegionKind::Local, usize::MAX, 1);
    assert!(!far.intersects(&a) && far.intersects(&far));

    assert_eq!(a.next(), MemorySlice::new(RegionKind::Next, 0, 4));
    assert_eq!(n.next(), n);
    assert_eq!(p.next(), p);
    assert_eq!(g.next(), g);
    assert!(a.fits(4) && !a.fits(3));
    assert!(!far.fits(usize::MAX));
    assert!(RegionKind::Local.shares_storage(&RegionKind::Next));
    assert!(!RegionKind::Public.shares_storage(&RegionKind::Global));
    assert!(RegionKind::Next.is_trace() && !RegionKind::Global.is_trace());
}

#[test]
fn typed_registers() {
    assert_eq!(
        [
            ElementRegister::width(),
            BitRegister::width(),
            ByteRegister::width(),
            U16Register::width(),
            U32Register::width(),
            U64Register::width()
        ],
        [1, 1, 1, 1, 4, 8]
    );
    let s = MemorySlice::new(RegionKind::Public, 10, 24);
    let array = ArrayRegister::<U64Register>::from_slice(s, 3).unwrap();
    assert!(ArrayRegister::<U64Register>::from_slice(s, 2).is_none());
    assert!(ArrayRegister::<U32Register>::from_slice(s, 6).is_some());
    assert_eq!(array.len(), 3);
    assert_eq!(array.register(), s);
    assert_eq!(array.get(0).unwrap().register(), MemorySlice::new(RegionKind::Public, 10, 8));
    assert_eq!(array.get(2).unwrap().register(), MemorySlice::new(RegionKind::Public, 26, 8));
    assert!(array.get(3).is_none());
    let word = array.get(1).unwrap();
    assert_eq!(word.byte(0).unwrap().register(), MemorySlice::new(RegionKind::Public, 18, 1));
    assert_eq!(word.byte(7).unwrap().register(), MemorySlice::new(RegionKind::Public, 25, 1));
    assert!(word.byte(8).is_none());
    let w32 = U32Register::from_slice(MemorySlice::new(RegionKind::Local, 4, 4));
    assert_eq!(w32.byte(3).unwrap().register(), MemorySlice::new(RegionKind::Local, 7, 1));
    assert!(w32.byte(4).is_none());
    assert_eq!(array.duplicate().register(), s);

    let byte = ByteRegister::from_slice(MemorySlice::new(RegionKind::Local, 5, 1));
    assert_eq!(
        next_register(&byte).unwrap().register(),
        MemorySlice::new(RegionKind::Next, 5, 1)
    );
    assert_eq!(next_register(&word).unwrap().register(), word.register());
    let odd = ByteRegister { slice: MemorySlice::new(RegionKind::Local, 5, 2) };
    assert!(next_register(&odd).is_none());
}

#[test]
fn allocation_is_a_counter_for_each_region() {
    let mut builder = ChipBuilder::new(AirParameters {
        num_arithmetic_columns: 4,
        num_free_columns: 5,
        extended_columns: 1,
    });
    assert_eq!(builder.allocate(RegionKind::Local, 3), Ok(MemorySlice::new(RegionKind::Local, 0, 3)));
    assert_eq!(builder.allocate(RegionKind::Public, 2), Ok(MemorySlice::new(RegionKind::Public, 0, 2)));
    assert_eq!(builder.allocate(RegionKind::Next, 2), Ok(MemorySlice::new(RegionKind::Next, 3, 2)));
    assert_eq!(builder.allocate(RegionKind::Global, 7), Ok(MemorySlice::new(RegionKind::Global, 0, 7)));
    assert_eq!(builder.allocate(RegionKind::Public, 1), Ok(MemorySlice::new(RegionKind::Public, 2, 1)));
    let w = builder.alloc_local::<U32Register>().unwrap();
    assert_eq!(w.register(), MemorySlice::new(RegionKind::Local, 5, 4));
    assert_eq!((builder.num_local(), builder.num_public(), builder.num_global()), (9, 3, 7));
    // ten columns in all: one is left
    assert_eq!(builder.alloc_local::<U32Register>().err(), Some(BuildError::AllocationOverflow));
    assert_eq!(builder.num_local(), 9);
    assert_eq!(builder.alloc_local_array::<BitRegister>(2).err(), Some(BuildError::AllocationOverflow));
    let last = builder.alloc_local_array::<BitRegister>(1).unwrap();
    assert_eq!(last.register(), MemorySlice::new(RegionKind::Local, 9, 1));
    assert_eq!(builder.allocate(RegionKind::Local, 1).err(), Some(BuildError::AllocationOverflow));
    assert_eq!(builder.allocate(RegionKind::Local, 0), Ok(MemorySlice::new(RegionKind::Local, 10, 0)));
    // the public vector is not budgeted, but its length is a machine word
    assert_eq!(
        builder.allocate(RegionKind::Public, usize::MAX).err(),
        Some(BuildError::AllocationOverflow)
    );
    assert_eq!(
        builder.alloc_array_public::<U64Register>(usize::MAX / 4).err(),
        Some(BuildError::AllocationOverflow)
    );
    let g = builder.alloc_global::<ElementRegister>().unwrap();
    assert_eq!(g.register(), MemorySlice::new(RegionKind::Global, 7, 1));
    let chip = builder.build();
    assert_eq!((chip.width(), chip.num_public(), chip.num_global()), (10, 3, 8));
    assert_eq!(chip.num_instructions(), 0);

    let huge = AirParameters {
        num_arithmetic_columns: usize::MAX,
        num_free_columns: 2,
        extended_columns: 3,
    };
    assert_eq!(huge.column_budget(), usize::MAX);
    assert_eq!(BuildError::AllocationOverflow.message(), "allocation exceeds the column budget");
    assert_eq!(WitnessError::ModulusCheck.message(), "carry is not below the modulus");
}

#[test]
fn trace_reads_and_writes() {
    assert!(TraceHandle::new(0, 3, 0, 0).is_none());
    assert!(TraceHandle::new(3, 3, 0, 0).is_none());
    assert!(TraceHandle::new(12, 3, 0, 0).is_none());
    assert!(TraceHandle::new(2, usize::MAX, 0, 0).is_none());
    for n in [1usize, 2, 4, 1024] {
        assert!(check_power_of_two(n));
    }
    for n in [0usize, 3, 6, 1023, 1025] {
        assert!(!check_power_of_two(n));
    }
    let mut t = TraceHandle::new(4, 3, 2, 1).unwrap();
    assert_eq!((t.num_rows(), t.width(), t.num_public(), t.num_global()), (4, 3, 2, 1));
    assert_eq!(t.row_values(2), Some(vec![0, 0, 0]));
    assert_eq!(t.row_values(4), None);

    let s = MemorySlice::new(RegionKind::Local, 1, 2);
    t.write(&s, &vec![felt(7), felt(8)], Some(2)).unwrap();
    assert_eq!(t.row_values(2), Some(vec![0, 7, 8]));
    assert_eq!(t.row_values(1), Some(vec![0, 0, 0]));
    assert_eq!(t.row_values(3), Some(vec![0, 0, 0]));
    // the following row, which for the last row is the first
    let n = s.next();
    assert_eq!(
        t.read(&n, Some(1)).unwrap().iter().map(|f| f.as_canonical_u64()).collect::<Vec<_>>(),
        vec![7, 8]
    );
    t.write(&n, &vec![felt(1), felt(2)], Some(3)).unwrap();
    assert_eq!(t.row_values(0), Some(vec![0, 1, 2]));
    assert_eq!(t.next_row(3), 0);
    assert_eq!(t.next_row(0), 1);

    // refused writes change nothing
    let before = t.clone_trace();
    assert_eq!(t.write(&s, &vec![felt(1)], Some(0)).err(), Some(WitnessError::OutOfBounds));
    assert_eq!(t.write(&s, &vec![felt(1), felt(2)], Some(4)).err(), Some(WitnessError::OutOfBounds));
    assert_eq!(t.write(&s, &vec![felt(1), felt(2)], None).err(), Some(WitnessError::OutOfBounds));
    let wide = MemorySlice::new(RegionKind::Local, 2, 2);
    assert_eq!(t.write(&wide, &vec![felt(1), felt(2)], Some(0)).err(), Some(WitnessError::OutOfBounds));
    let far = MemorySlice::new(RegionKind::Public, usize::MAX, 2);
    assert_eq!(t.write(&far, &vec![felt(1), felt(2)], None).err(), Some(WitnessError::OutOfBounds));
    assert!(t == before);
    assert!(t.read(&wide, Some(0)).is_none());
    assert!(!t.admits(&wide, Some(0)));
    assert!(t.admits(&s, Some(3)));

    let p = MemorySlice::new(RegionKind::Public, 0, 2);
    t.write(&p, &vec![felt(5), felt(6)], None).unwrap();
    t.write(&MemorySlice::new(RegionKind::Global, 0, 1), &vec![felt(9)], Some(1)).unwrap();
    assert_eq!(t.public_values(), vec![5, 6]);
    assert_eq!(t.global_values(), vec![9]);
    t.write_array(&s, &vec![felt(3), felt(4)], 1).unwrap();
    t.write_register(&MemorySlice::new(RegionKind::Local, 0, 1), felt(2), 1).unwrap();
    assert_eq!(t.row_values(1), Some(vec![2, 3, 4]));
    assert_eq!(
        t.write_register(&s, felt(2), 1).err(),
        Some(WitnessError::OutOfBounds)
    );
    // all in one, or nothing
    let slices = vec![MemorySlice::new(RegionKind::Local, 0, 1), wide];
    let values = vec![vec![felt(1)], vec![felt(1), felt(2)]];
    assert_eq!(t.write_all(&slices, &values, Some(0)).err(), Some(WitnessError::OutOfBounds));
    assert_eq!(t.row_values(0), Some(vec![0, 1, 2]));
    let slices = vec![MemorySlice::new(RegionKind::Local, 0, 2), MemorySlice::new(RegionKind::Local, 1, 2)];
    let values = vec![vec![felt(1), felt(1)], vec![felt(2), felt(2)]];
    t.write_all(&slices, &values, Some(0)).unwrap();
    assert_eq!(t.row_values(0), Some(vec![1, 2, 2]));
}

#[test]
fn parsers_compute_alike() {
    let packed = PackedParser::new(
        vec![felt(3), felt(4)],
        vec![felt(5), felt(6)],
        vec![felt(7)],
        vec![felt(ORDER - 1)],
    );
    let circuit = RecursiveParser::new(2, 1, 1);
    assert_eq!(packed.len_of(RegionKind::Next), 2);
    assert_eq!(circuit.len_of(RegionKind::Global), 1);

    let value = {
        let x = packed.local(1);
        let y = packed.next(0);
        let p = packed.public(0);
        let g = packed.global(0);
        let c = packed.constant(felt(10));
        packed.sub(&packed.add(&packed.mul(&x, &y), &packed.mul(&p, &g)), &c)
    };
    let expr: Expr = {
        let x = circuit.local(1);
        let y = circuit.next(0);
        let p = circuit.public(0);
        let g = circuit.global(0);
        let c = circuit.constant(felt(10));
        circuit.sub(&circuit.add(&circuit.mul(&x, &y), &circuit.mul(&p, &g)), &c)
    };
    // 4*5 + 7*(-1) - 10 = 3
    assert_eq!(value.as_canonical_u64(), 3);
    let evaluated = expr
        .evaluate(
            &vec![felt(3), felt(4)],
            &vec![felt(5), felt(6)],
            &vec![felt(7)],
            &vec![felt(ORDER - 1)],
        )
        .unwrap();
    assert_eq!(evaluated, value);
    assert!(expr.evaluate(&vec![felt(3)], &vec![felt(5)], &vec![felt(7)], &vec![felt(1)]).is_none());
    let copy = expr.duplicate();
    assert_eq!(
        copy.evaluate(&vec![felt(0), felt(1)], &vec![felt(1), felt(0)], &vec![felt(0)], &vec![felt(0)])
            .unwrap()
            .as_canonical_u64(),
        ORDER - 9
    );

    let mut packed = packed;
    packed.constraint(&value);
    packed.constraint(&felt(0));
    assert_eq!(
        packed.residues().iter().map(|f| f.as_canonical_u64()).collect::<Vec<_>>(),
        vec![3, 0]
    );
    assert!(!packed.all_zero());
    let mut circuit = circuit;
    circuit.constraint(&expr);
    assert_eq!(circuit.num_constraints(), 1);
}
