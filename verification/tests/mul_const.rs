use curta::bigint::BigNat;
use curta::builder::{AirParameters, ChipBuilder};
use curta::chip::Chip;
use curta::error::{BuildError, WitnessError};
use curta::field::Felt;
use curta::mul_const::FpMulConst;
use curta::params::{FieldParameters, MAX_NB_LIMBS};
use curta::parser::{AirParser, PackedParser, RecursiveParser};
use curta::register::{FieldRegister, MemorySlice, RegionKind};
use curta::trace::TraceHandle;
use num::bigint::RandBigInt;
use num::{BigUint, One, Zero};
use rand::thread_rng;

fn to_nat(x: &BigUint) -> BigNat {
    BigNat::from_u32_digits(x.to_u32_digits())
}

fn to_big(x: &BigNat) -> BigUint {
    BigUint::new(x.to_u32_digits())
}

fn modulus() -> BigUint {
    (BigUint::one() << 255usize) - BigUint::from(19u32)
}

fn constant(limbs: &[u16]) -> [u16; MAX_NB_LIMBS] {
    let mut c = [0u16; MAX_NB_LIMBS];
    for (i, l) in limbs.iter().enumerate() {
        c[i] = *l;
    }
    c
}

struct Setup {
    chip: Chip,
    a: FieldRegister,
    result: FieldRegister,
    instruction: FpMulConst,
}

fn setup(c: [u16; MAX_NB_LIMBS]) -> Setup {
    let params = FieldParameters::fp25519();
    let mut builder = ChipBuilder::new(AirParameters {
        num_arithmetic_columns: 108,
        num_free_columns: 0,
        extended_columns: 0,
    });
    let a = builder.alloc_local_field(&params).unwrap();
    let result = builder.alloc_local_field(&params).unwrap();
    let instruction = builder.fpmul_const(&params, &a, c, &result).unwrap();
    let chip = builder.build();
    Setup { chip, a, result, instruction }
}

fn limbs_to_big(cells: &[u64]) -> BigUint {
    let mut x = BigUint::zero();
    for (i, l) in cells.iter().enumerate() {
        x += BigUint::from(*l) << (16 * i);
    }
    x
}

#[test]
fn test_fpmul_const() {
    let mut c: [u16; MAX_NB_LIMBS] = [0; MAX_NB_LIMBS];
    c[0] = 100;
    c[1] = 2;
    c[2] = 30000;

    let mut c_bigint = BigUint::zero();
    for i in 0..MAX_NB_LIMBS {
        c_bigint += BigUint::from(c[i]) << (i * 16);
    }

    let s = setup(c);
    let num_rows = 2u64.pow(16) as usize;
    let mut handle = s.chip.trace(num_rows).unwrap();

    let p = to_big(&FieldParameters::fp25519().modulus_biguint());
    assert_eq!(p, modulus());

    let mut rng = thread_rng();
    for i in 0..num_rows {
        let a_int: BigUint = rng.gen_biguint(256) % &p;
        handle.write_field(i, &to_nat(&a_int), &s.a).unwrap();
        let res = handle
            .write_fpmul_const(i, &to_nat(&a_int), &s.instruction)
            .unwrap();
        assert_eq!(to_big(&res), (c_bigint.clone() * a_int) % &p);
    }

    // every constraint is zero on a spread of rows, the first and the last included
    let mut row = 0;
    while row < num_rows {
        assert_eq!(s.chip.check_row(&handle, row), Some(true));
        row += 257;
    }
    assert_eq!(s.chip.check_row(&handle, num_rows - 1), Some(true));
}

#[test]
fn fpmul_const_small() {
    let c = constant(&[100, 2, 30000]);
    let s = setup(c);
    let mut handle = s.chip.trace(4).unwrap();
    let a = BigUint::from(7u32);
    handle.write_field(0, &to_nat(&a), &s.a).unwrap();
    let res = handle.write_fpmul_const(0, &to_nat(&a), &s.instruction).unwrap();
    let expected = BigUint::from(7u32 * 100)
        + (BigUint::from(7u32 * 2) << 16usize)
        + (BigUint::from(7u32 * 30000) << 32usize);
    assert_eq!(to_big(&res), expected);
    assert_eq!(to_big(&res), BigUint::from(901943133078204u64));

    let row = handle.row_values(0).unwrap();
    // columns: a (0..16), result (16..32), carry (32..48), low (48..78), high (78..108)
    assert_eq!(limbs_to_big(&row[16..32]), expected);
    assert_eq!(limbs_to_big(&row[32..48]), BigUint::zero());
    assert_eq!(&row[0..3], &[7, 0, 0]);
    // the witness: quotient coefficients 0, 0, -3, 0, ... raised by 2^20
    assert_eq!(&row[48..52], &[0, 0, 65533, 0]);
    assert_eq!(&row[78..82], &[16, 16, 15, 16]);

    assert_eq!(s.chip.check_row(&handle, 0), Some(true));
    let mut parser = handle.packed_parser(0).unwrap();
    s.instruction.packed_generic_constraints(&mut parser).unwrap();
    let residues = parser.residues();
    assert_eq!(residues.len(), 31);
    assert!(residues.iter().all(|r| r.as_canonical_u64() == 0));
}

#[test]
fn fpmul_const_wrap() {
    let c = constant(&[2]);
    let s = setup(c);
    let mut handle = s.chip.trace(2).unwrap();
    let p = modulus();
    let a = &p - BigUint::one();
    handle.write_field(1, &to_nat(&a), &s.a).unwrap();
    let res = handle.write_fpmul_const(1, &to_nat(&a), &s.instruction).unwrap();
    assert_eq!(to_big(&res), &p - BigUint::from(2u32));
    let row = handle.row_values(1).unwrap();
    assert_eq!(limbs_to_big(&row[16..32]), &p - BigUint::from(2u32));
    assert_eq!(limbs_to_big(&row[32..48]), BigUint::one());
    assert_eq!(s.chip.check_row(&handle, 1), Some(true));
    // row 0 was never written: a = 0 and all outputs zero, where the witness
    // lacks its offset
    assert_eq!(s.chip.check_row(&handle, 0), Some(false));
}

#[test]
fn trace_row_matches_the_row_written() {
    let c = constant(&[65535, 1, 2, 3]);
    let s = setup(c);
    let a = BigUint::from(123456789u64) << 100usize;
    let (row, result) = s.instruction.trace_row(&to_nat(&a)).unwrap();
    assert_eq!(row.len(), 92);
    assert_eq!(s.instruction.num_mul_const_columns(), 92);
    let c_big = BigUint::from(65535u32)
        + (BigUint::from(1u32) << 16usize)
        + (BigUint::from(2u32) << 32usize)
        + (BigUint::from(3u32) << 48usize);
    assert_eq!(to_big(&result), (&a * &c_big) % modulus());
    let cells: Vec<u64> = row.iter().map(|f| f.as_canonical_u64()).collect();
    assert_eq!(limbs_to_big(&cells[0..16]), (&a * &c_big) % modulus());
    assert_eq!(limbs_to_big(&cells[16..32]), (&a * &c_big) / modulus());

    let mut handle = s.chip.trace(1).unwrap();
    s.instruction.assign_row(&mut handle, &row, 0).unwrap();
    let written = handle.row_values(0).unwrap();
    assert_eq!(&written[16..108], &cells[..]);
    assert_eq!(&written[0..16], &[0u64; 16]);
}

#[test]
fn only_the_first_limbs_of_the_constant_count() {
    let mut c = constant(&[5]);
    c[16] = 9;
    c[31] = 1;
    let s = setup(c);
    let a = BigUint::from(11u32);
    let (_, result) = s.instruction.trace_row(&to_nat(&a)).unwrap();
    assert_eq!(to_big(&result), BigUint::from(55u32));
}

#[test]
fn operand_too_large_is_refused() {
    let s = setup(constant(&[1]));
    let a = BigUint::one() << 256usize;
    assert_eq!(
        s.instruction.trace_row(&to_nat(&a)).err(),
        Some(WitnessError::OperandRange)
    );
    let mut handle = s.chip.trace(1).unwrap();
    assert_eq!(
        handle.write_field(0, &to_nat(&a), &s.a).err(),
        Some(WitnessError::OperandRange)
    );
    // the largest operand that fits is taken
    let top = (BigUint::one() << 256usize) - BigUint::one();
    assert!(handle.write_field(0, &to_nat(&top), &s.a).is_ok());
}

#[test]
fn carry_not_below_the_modulus_is_refused() {
    let c = constant(&[65535; 16]);
    let s = setup(c);
    let a = modulus() - BigUint::one();
    assert_eq!(
        s.instruction.trace_row(&to_nat(&a)).err(),
        Some(WitnessError::ModulusCheck)
    );
    let mut handle = s.chip.trace(1).unwrap();
    let before = handle.row_values(0).unwrap();
    assert_eq!(
        handle.write_fpmul_const(0, &to_nat(&a), &s.instruction).err(),
        Some(WitnessError::ModulusCheck)
    );
    assert_eq!(handle.row_values(0).unwrap(), before);
}

#[test]
fn witness_out_of_range_is_refused() {
    // with no offset, a negative coefficient of the witness cannot be written
    let mut limbs = [0u16; MAX_NB_LIMBS];
    limbs[0] = 65517;
    for l in limbs.iter_mut().take(15).skip(1) {
        *l = 65535;
    }
    limbs[15] = 32767;
    let params = FieldParameters::new(limbs, 16, 30, 0).unwrap();
    let mut builder = ChipBuilder::new(AirParameters {
        num_arithmetic_columns: 108,
        num_free_columns: 0,
        extended_columns: 0,
    });
    let a = builder.alloc_local_field(&params).unwrap();
    let result = builder.alloc_local_field(&params).unwrap();
    let instruction = builder
        .fpmul_const(&params, &a, constant(&[100, 2, 30000]), &result)
        .unwrap();
    assert_eq!(
        instruction.trace_row(&to_nat(&BigUint::from(7u32))).err(),
        Some(WitnessError::WitnessRange)
    );
    // the zero operand has the zero witness, which needs no offset
    assert!(instruction.trace_row(&to_nat(&BigUint::zero())).is_ok());
}

#[test]
fn write_reads_the_operand_from_the_trace() {
    let s = setup(constant(&[3]));
    let mut handle = s.chip.trace(2).unwrap();
    let a = BigUint::from(1000u32);
    handle.write_field(0, &to_nat(&a), &s.a).unwrap();
    s.instruction.write_at(&mut handle, Some(0)).unwrap();
    let row = handle.row_values(0).unwrap();
    assert_eq!(limbs_to_big(&row[16..32]), BigUint::from(3000u32));
    assert_eq!(s.chip.check_row(&handle, 0), Some(true));

    // a cell of the operand that is no limb
    handle
        .write_register(
            &MemorySlice::new(RegionKind::Local, 3, 1),
            Felt::from_canonical_u32(65536),
            1,
        )
        .unwrap();
    assert_eq!(
        s.instruction.write_at(&mut handle, Some(1)).err(),
        Some(WitnessError::OperandRange)
    );
    // a row that the trace has not
    assert_eq!(
        s.instruction.write_at(&mut handle, Some(2)).err(),
        Some(WitnessError::OutOfBounds)
    );
}

#[test]
fn fpmul_const_allocates_carry_and_witness() {
    let s = setup(constant(&[1]));
    assert_eq!(s.a.register(), MemorySlice::new(RegionKind::Local, 0, 16));
    assert_eq!(s.result.register(), MemorySlice::new(RegionKind::Local, 16, 16));
    assert_eq!(
        s.instruction.memory_vec(),
        vec![
            MemorySlice::new(RegionKind::Local, 0, 16),
            MemorySlice::new(RegionKind::Local, 16, 16),
            MemorySlice::new(RegionKind::Local, 32, 16),
            MemorySlice::new(RegionKind::Local, 48, 30),
            MemorySlice::new(RegionKind::Local, 78, 30),
        ]
    );
    assert_eq!(s.chip.width(), 108);
    assert_eq!(s.chip.num_instructions(), 1);
}

#[test]
fn fpmul_const_build_errors() {
    let params = FieldParameters::fp25519();
    // one column short
    let mut builder = ChipBuilder::new(AirParameters {
        num_arithmetic_columns: 107,
        num_free_columns: 0,
        extended_columns: 0,
    });
    let a = builder.alloc_local_field(&params).unwrap();
    let result = builder.alloc_local_field(&params).unwrap();
    assert_eq!(
        builder.fpmul_const(&params, &a, constant(&[1]), &result).err(),
        Some(BuildError::AllocationOverflow)
    );
    assert_eq!(builder.num_instructions(), 0);

    // the result in the columns of the operand
    let mut builder = ChipBuilder::new(AirParameters {
        num_arithmetic_columns: 200,
        num_free_columns: 0,
        extended_columns: 0,
    });
    let a = builder.alloc_local_field(&params).unwrap();
    assert_eq!(
        builder.fpmul_const(&params, &a, constant(&[1]), &a).err(),
        Some(BuildError::DuplicateColumnUse)
    );

    // a second instruction with the result of the first
    let mut builder = ChipBuilder::new(AirParameters {
        num_arithmetic_columns: 400,
        num_free_columns: 0,
        extended_columns: 0,
    });
    let a = builder.alloc_local_field(&params).unwrap();
    let result = builder.alloc_local_field(&params).unwrap();
    builder.fpmul_const(&params, &a, constant(&[1]), &result).unwrap();
    assert_eq!(
        builder.fpmul_const(&params, &a, constant(&[2]), &result).err(),
        Some(BuildError::DuplicateColumnUse)
    );

    // a register that was never allocated
    let mut builder = ChipBuilder::new(AirParameters {
        num_arithmetic_columns: 400,
        num_free_columns: 0,
        extended_columns: 0,
    });
    let a = builder.alloc_local_field(&params).unwrap();
    let stray = FieldRegister::from_slice(MemorySlice::new(RegionKind::Local, 1000, 16));
    assert_eq!(
        builder.fpmul_const(&params, &a, constant(&[1]), &stray).err(),
        Some(BuildError::InvalidRegister)
    );
    // a register of the wrong width
    let narrow = FieldRegister::from_slice(MemorySlice::new(RegionKind::Local, 0, 8));
    assert_eq!(
        builder.fpmul_const(&params, &narrow, constant(&[1]), &a).err(),
        Some(BuildError::InvalidRegister)
    );
}

#[test]
fn chained_multiplications_fill_and_vanish() {
    let params = FieldParameters::fp25519();
    let mut builder = ChipBuilder::new(AirParameters {
        num_arithmetic_columns: 300,
        num_free_columns: 0,
        extended_columns: 0,
    });
    let a = builder.alloc_local_field(&params).unwrap();
    let b = builder.alloc_local_field(&params).unwrap();
    let d = builder.alloc_local_field(&params).unwrap();
    builder.fpmul_const(&params, &a, constant(&[3]), &b).unwrap();
    builder.fpmul_const(&params, &b, constant(&[5, 1]), &d).unwrap();
    let chip = builder.build();
    let mut handle = chip.trace(8).unwrap();
    for i in 0..8usize {
        let x = BigUint::from(1000u32 + i as u32) << (10 * i);
        handle.write_field(i, &to_nat(&x), &a).unwrap();
    }
    let trace = chip.generate_trace(handle).unwrap();
    assert_eq!(chip.check_trace(&trace), Some(true));
    for i in 0..8usize {
        let x = BigUint::from(1000u32 + i as u32) << (10 * i);
        let row = trace.row_values(i).unwrap();
        assert_eq!(limbs_to_big(&row[16..32]), &x * BigUint::from(3u32));
        assert_eq!(
            limbs_to_big(&row[32..48]),
            &x * BigUint::from(3u32) * BigUint::from(65541u32)
        );
    }
}

#[test]
fn chunked_generation_gives_the_same_trace() {
    let s = setup(constant(&[40000, 7, 1]));
    let mut traces: Vec<TraceHandle> = Vec::new();
    for chunks in [1usize, 2, 4, 8, 3, 0, 64] {
        let mut handle = s.chip.trace(16).unwrap();
        for i in 0..16usize {
            let x = (BigUint::from(977u32) << (15 * i)) + BigUint::from(i as u32);
            handle.write_field(i, &to_nat(&x), &s.a).unwrap();
        }
        traces.push(s.chip.generate_in_chunks(handle, chunks).unwrap());
    }
    for t in traces.iter().skip(1) {
        assert!(*t == traces[0]);
        for row in 0..16 {
            assert_eq!(t.row_values(row), traces[0].row_values(row));
        }
    }
    assert_eq!(s.chip.check_trace(&traces[0]), Some(true));
}

#[test]
fn two_runs_give_identical_traces() {
    let run = || {
        let s = setup(constant(&[100, 2, 30000]));
        let mut handle = s.chip.trace(4).unwrap();
        for i in 0..4usize {
            let x = BigUint::from(31337u32 * (i as u32 + 1));
            handle.write_field(i, &to_nat(&x), &s.a).unwrap();
        }
        s.chip.generate_trace(handle).unwrap()
    };
    let first = run();
    let second = run();
    assert!(first == second);
    assert_eq!(first.public_values(), second.public_values());
    for row in 0..4 {
        assert_eq!(first.row_values(row), second.row_values(row));
    }
}

#[test]
fn generation_fails_as_a_whole() {
    let s = setup(constant(&[65535; 16]));
    let mut handle = s.chip.trace(4).unwrap();
    let big = modulus() - BigUint::one();
    handle.write_field(2, &to_nat(&big), &s.a).unwrap();
    assert_eq!(
        s.chip.generate_trace(handle).err(),
        Some(WitnessError::ModulusCheck)
    );
}

#[test]
fn circuit_constraints_agree_with_packed_ones() {
    let s = setup(constant(&[100, 2, 30000]));
    let mut handle = s.chip.trace(2).unwrap();
    let a = BigUint::from(7u32);
    handle.write_field(0, &to_nat(&a), &s.a).unwrap();
    handle.write_fpmul_const(0, &to_nat(&a), &s.instruction).unwrap();
    // spoil one cell of the result in row 1, so that some residues are not zero
    handle
        .write_register(&MemorySlice::new(RegionKind::Local, 17, 1), Felt::from_canonical_u32(5), 1)
        .unwrap();

    let mut circuit = RecursiveParser::new(108, 0, 0);
    s.instruction.ext_circuit_constraints(&mut circuit).unwrap();
    assert_eq!(circuit.num_constraints(), 31);

    for row in 0..2usize {
        let mut packed = handle.packed_parser(row).unwrap();
        s.instruction.packed_generic_constraints(&mut packed).unwrap();
        let residues = packed.residues();
        let local: Vec<Felt> = handle
            .row_values(row)
            .unwrap()
            .iter()
            .map(|v| Felt::from_noncanonical_u64(*v))
            .collect();
        let next: Vec<Felt> = handle
            .row_values((row + 1) % 2)
            .unwrap()
            .iter()
            .map(|v| Felt::from_noncanonical_u64(*v))
            .collect();
        for k in 0..31 {
            let e = circuit.constraint_at(k).unwrap();
            let v = e.evaluate(&local, &next, &Vec::new(), &Vec::new()).unwrap();
            assert_eq!(v, residues[k]);
        }
        assert_eq!(packed.all_zero(), row == 0);
    }
    assert!(circuit.constraint_at(31).is_none());

    // a parser for rows that are too narrow
    let mut narrow = RecursiveParser::new(107, 0, 0);
    assert_eq!(
        s.instruction.ext_circuit_constraints(&mut narrow).err(),
        Some(BuildError::InvalidRegister)
    );
    assert_eq!(narrow.num_constraints(), 0);
    let mut short = PackedParser::new(Vec::new(), Vec::new(), Vec::new(), Vec::new());
    assert_eq!(
        s.instruction.packed_generic_constraints(&mut short).err(),
        Some(BuildError::InvalidRegister)
    );
    assert_eq!(short.len_of(RegionKind::Local), 0);
}

#[test]
fn parameter_sets_are_validated() {
    let p = FieldParameters::fp25519();
    assert_eq!(p.nb_limbs(), 16);
    assert_eq!(p.nb_witness_limbs(), 30);
    assert_eq!(p.witness_offset(), 1 << 20);
    assert_eq!(p.modulus_limbs()[0], 65517);
    assert_eq!(p.modulus_limbs()[15], 32767);
    assert_eq!(p.modulus_limbs().len(), 16);
    assert_eq!(MAX_NB_LIMBS, 32);

    let mut m = [0u16; MAX_NB_LIMBS];
    m[0] = 7;
    assert!(FieldParameters::new(m, 1, 0, 5).is_some());
    assert!(FieldParameters::new(m, 0, 0, 5).is_none());
    assert!(FieldParameters::new(m, 33, 64, 5).is_none());
    assert!(FieldParameters::new(m, 2, 3, 5).is_none());
    assert!(FieldParameters::new([0u16; MAX_NB_LIMBS], 4, 6, 5).is_none());
    m[5] = 1;
    assert!(FieldParameters::new(m, 4, 6, 5).is_none());
    assert!(FieldParameters::new(m, 6, 10, 5).is_some());
}

#[test]
fn one_limb_field() {
    // p = 251 in one limb: the vanishing polynomial is a constant and the witness is empty
    let mut m = [0u16; MAX_NB_LIMBS];
    m[0] = 251;
    let params = FieldParameters::new(m, 1, 0, 0).unwrap();
    let mut builder = ChipBuilder::new(AirParameters {
        num_arithmetic_columns: 3,
        num_free_columns: 0,
        extended_columns: 0,
    });
    let a = builder.alloc_local_field(&params).unwrap();
    let result = builder.alloc_local_field(&params).unwrap();
    let ins = builder.fpmul_const(&params, &a, constant(&[200]), &result).unwrap();
    let chip = builder.build();
    assert_eq!(chip.width(), 3);
    let mut handle = chip.trace(1).unwrap();
    let x = BigUint::from(250u32);
    handle.write_field(0, &to_nat(&x), &a).unwrap();
    let res = handle.write_fpmul_const(0, &to_nat(&x), &ins).unwrap();
    assert_eq!(to_big(&res), BigUint::from(250u32 * 200 % 251));
    assert_eq!(handle.row_values(0).unwrap(), vec![250, 250 * 200 % 251, 250 * 200 / 251]);
    assert_eq!(chip.check_row(&handle, 0), Some(true));
}

#[test]
fn parts_filled_apart_give_the_same_trace() {
    let s = setup(constant(&[40000, 7, 1]));
    let fresh = || {
        let mut handle = s.chip.trace(16).unwrap();
        for i in 0..16usize {
            let x = (BigUint::from(977u32) << (15 * i)) + BigUint::from(i as u32);
            handle.write_field(i, &to_nat(&x), &s.a).unwrap();
        }
        handle
    };
    let whole = s.chip.generate_trace(fresh()).unwrap();
    for workers in [1usize, 2, 4, 8, 16] {
        let bounds: Vec<usize> = (1..=workers).map(|w| w * 16 / workers).collect();
        let t = s.chip.generate_in_parts(fresh(), &bounds).unwrap();
        assert!(t == whole);
    }
    // runs of different lengths, an empty run among them
    let t = s.chip.generate_in_parts(fresh(), &vec![0, 3, 3, 4, 15, 16]).unwrap();
    assert!(t == whole);
    assert_eq!(s.chip.check_trace(&t), Some(true));

    // bounds that do not end with the last row, or go back
    assert_eq!(
        s.chip.generate_in_parts(fresh(), &vec![4, 8]).err(),
        Some(WitnessError::OutOfBounds)
    );
    assert_eq!(
        s.chip.generate_in_parts(fresh(), &vec![8, 4, 16]).err(),
        Some(WitnessError::OutOfBounds)
    );
    assert_eq!(s.chip.generate_in_parts(fresh(), &vec![]).err(), Some(WitnessError::OutOfBounds));
    assert_eq!(
        s.chip.generate_in_parts(fresh(), &vec![16, 32]).err(),
        Some(WitnessError::OutOfBounds)
    );

    // a part by itself holds its own rows only
    let base = fresh();
    let part = s.chip.fill_part(&base, 4, 6).unwrap();
    assert_eq!((part.start, part.end), (4, 6));
    for row in 0..16 {
        if (4..6).contains(&row) {
            assert_eq!(part.trace.row_values(row), whole.row_values(row));
        } else {
            assert_eq!(part.trace.row_values(row), base.row_values(row));
        }
    }
    // a failure in one part fails the whole
    let mut bad = fresh();
    bad.write_register(&MemorySlice::new(RegionKind::Local, 2, 1), Felt::from_canonical_u32(70000), 9)
        .unwrap();
    assert_eq!(
        s.chip.generate_in_parts(bad.clone_trace(), &vec![8, 16]).err(),
        Some(WitnessError::OperandRange)
    );
    assert_eq!(s.chip.generate_trace(bad).err(), Some(WitnessError::OperandRange));
}

#[test]
fn extreme_operands_stay_in_range() {
    // the largest limbs everywhere: c = p - 1 and a = p - 1
    let p = modulus();
    let top = &p - BigUint::one();
    let mut c = [0u16; MAX_NB_LIMBS];
    for (i, d) in top.to_u32_digits().iter().enumerate() {
        c[2 * i] = (*d & 0xFFFF) as u16;
        c[2 * i + 1] = (*d >> 16) as u16;
    }
    let s = setup(c);
    let mut handle = s.chip.trace(4).unwrap();
    let operands = [
        top.clone(),
        BigUint::zero(),
        BigUint::one(),
        (BigUint::one() << 255usize) - BigUint::from(20u32),
    ];
    for (row, a) in operands.iter().enumerate() {
        handle.write_field(row, &to_nat(a), &s.a).unwrap();
        let res = handle.write_fpmul_const(row, &to_nat(a), &s.instruction).unwrap();
        assert_eq!(to_big(&res), (a * &top) % &p);
        let cells = handle.row_values(row).unwrap();
        // every cell of the witness is a 16-bit limb
        assert!(cells[48..108].iter().all(|v| *v < 65536));
    }
    assert_eq!(s.chip.check_trace(&handle), Some(true));
}
