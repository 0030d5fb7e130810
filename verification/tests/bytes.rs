use curta::builder::{AirParameters, BytesBuilder};
use curta::bytes::{
    compute_byte_result, decode_digest, in_table, rebuild_operation, ByteOpKind, ByteOperation,
    ByteOperationInstruction,
    OPCODE_AND, OPCODE_NOT, OPCODE_OR, OPCODE_RANGE, OPCODE_ROT, OPCODE_SHR, OPCODE_XOR,
};
use curta::chip::Chip;
use curta::error::{BuildError, WitnessError};
use curta::field::Felt;
use curta::instruction::Instruction;
use curta::parser::{AirParser, RecursiveParser};
use curta::register::{ByteRegister, ElementRegister, MemorySlice, RegionKind, Register};
use curta::trace::TraceHandle;

fn params(columns: usize) -> AirParameters {
    AirParameters {
        num_arithmetic_columns: 0,
        num_free_columns: columns,
        extended_columns: 0,
    }
}

fn byte(kind: RegionKind, offset: usize) -> ByteRegister {
    ByteRegister::from_slice(MemorySlice::new(kind, offset, 1))
}

fn element(kind: RegionKind, offset: usize) -> ElementRegister {
    ElementRegister::from_slice(MemorySlice::new(kind, offset, 1))
}

/// The digest as another implementation derives it: the four bytes, least
/// significant first.
fn independent_digest(opcode: u8, x: u8, y: u8, z: u8) -> u64 {
    u32::from_le_bytes([opcode, x, y, z]) as u64
}

#[test]
fn xor_global_writes_row_zero_only() {
    // operands in the public vector, result and digest in the global vector
    let a = byte(RegionKind::Public, 0);
    let b = byte(RegionKind::Public, 1);
    let c = byte(RegionKind::Global, 0);
    let digest = element(RegionKind::Global, 1);
    let instruction = ByteOperationInstruction::new(ByteOperation::Xor(a, b, c), digest, true);
    assert!(instruction.is_global());

    let mut handle = TraceHandle::new(4, 0, 2, 2).unwrap();
    handle.write(&a.register(), &vec![Felt::from_canonical_u8(0xA5)], None).unwrap();
    handle.write(&b.register(), &vec![Felt::from_canonical_u8(0x3C)], None).unwrap();

    // any row but the first is left alone
    for row in 1..4 {
        instruction.write(&mut handle, row).unwrap();
        assert_eq!(handle.global_values(), vec![0, 0]);
    }
    instruction.write(&mut handle, 0).unwrap();
    let expected = independent_digest(OPCODE_XOR, 0xA5, 0x3C, 0x99);
    assert_eq!(expected, 2570888550);
    assert_eq!(handle.global_values(), vec![0x99, expected]);
    assert_eq!(handle.public_values(), vec![0xA5, 0x3C]);

    // and again after the write: still a no-op at the other rows
    handle.write(&a.register(), &vec![Felt::from_canonical_u8(1)], None).unwrap();
    let before = handle.global_values();
    for row in 1..4 {
        instruction.write(&mut handle, row).unwrap();
        assert_eq!(handle.global_values(), before);
    }
    instruction.write(&mut handle, 0).unwrap();
    assert_eq!(handle.global_values()[0], 1 ^ 0x3C);
}

#[test]
fn write_to_air_through_both_handles() {
    let a = byte(RegionKind::Public, 0);
    let b = byte(RegionKind::Public, 1);
    let c = byte(RegionKind::Global, 0);
    let digest = element(RegionKind::Global, 1);
    let instruction = ByteOperationInstruction::new(ByteOperation::And(a, b, c), digest, true);
    let mut handle = TraceHandle::new(2, 0, 2, 2).unwrap();
    handle.write(&a.register(), &vec![Felt::from_canonical_u8(0xF0)], None).unwrap();
    handle.write(&b.register(), &vec![Felt::from_canonical_u8(0x3C)], None).unwrap();

    {
        let mut writer = handle.window_writer(1);
        assert_eq!(writer.row_index(), Some(1));
        instruction.write_to_air(&mut writer).unwrap();
    }
    assert_eq!(handle.global_values(), vec![0, 0]);
    {
        let mut writer = handle.public_writer();
        assert_eq!(writer.row_index(), None);
        instruction.write_to_air(&mut writer).unwrap();
        assert_eq!(
            writer.read(&c.register()).unwrap()[0].as_canonical_u64(),
            0x30
        );
    }
    assert_eq!(
        handle.global_values(),
        vec![0x30, independent_digest(OPCODE_AND, 0xF0, 0x3C, 0x30)]
    );
}

#[test]
fn digest_agrees_with_an_independent_one() {
    let kinds = [
        (ByteOpKind::And, OPCODE_AND),
        (ByteOpKind::Xor, OPCODE_XOR),
        (ByteOpKind::Or, OPCODE_OR),
        (ByteOpKind::Shr, OPCODE_SHR),
        (ByteOpKind::Rot, OPCODE_ROT),
    ];
    for (kind, opcode) in kinds {
        for (x, y) in [(0u8, 0u8), (0xA5, 0x3C), (255, 255), (1, 7), (0x80, 9), (0x5A, 3)] {
            let z = match kind {
                ByteOpKind::And => x & y,
                ByteOpKind::Xor => x ^ y,
                ByteOpKind::Or => x | y,
                ByteOpKind::Shr => x >> (y % 8),
                _ => x.rotate_right((y % 8) as u32),
            };
            assert_eq!(compute_byte_result(kind, x, y), z);
            let op = rebuild_operation(kind, x, y, z);
            assert!(op.is_consistent());
            assert_eq!(op.lookup_digest_value() as u64, independent_digest(opcode, x, y, z));
            if z != 0 {
                assert!(!rebuild_operation(kind, x, y, 0u8).is_consistent());
            }
        }
    }
    for x in [0u8, 1, 0xA5, 255] {
        let not = ByteOperation::Not(x, !x);
        assert!(not.is_consistent());
        assert_eq!(not.lookup_digest_value() as u64, independent_digest(OPCODE_NOT, x, !x, 0));
        let range = ByteOperation::Range(x);
        assert!(range.is_consistent());
        assert_eq!(range.lookup_digest_value() as u64, independent_digest(OPCODE_RANGE, x, 0, 0));
    }
    assert_eq!(
        [OPCODE_AND, OPCODE_XOR, OPCODE_SHR, OPCODE_ROT, OPCODE_NOT, OPCODE_RANGE, OPCODE_OR],
        [101, 102, 103, 104, 105, 106, 107]
    );
    assert_eq!(ByteOperation::And(1u8, 2u8, 0u8).get_fields(), vec![1, 2, 0]);
    assert_eq!(ByteOperation::Not(1u8, 254u8).get_fields(), vec![1, 254]);
    assert_eq!(ByteOperation::Range(9u8).get_kind(), ByteOpKind::Range);
}

#[test]
fn per_row_operations_fill_and_vanish() {
    let mut builder = BytesBuilder::new(params(64));
    let a = builder.api.alloc_local::<ByteRegister>().unwrap();
    let b = builder.api.alloc_local::<ByteRegister>().unwrap();
    let x = builder.byte_operation(ByteOpKind::Xor, a, b).unwrap();
    let y = builder.byte_operation(ByteOpKind::Rot, x, b).unwrap();
    let z = builder.byte_operation(ByteOpKind::Not, y, y).unwrap();
    builder.set_byte_operation(ByteOperation::Range(z)).unwrap();
    let chip = builder.build();
    assert_eq!(chip.num_instructions(), 4);
    // a, b, then result and digest of three operations, then one digest
    assert_eq!(chip.width(), 2 + 3 * 2 + 1);

    let mut handle = chip.trace(8).unwrap();
    for row in 0..8usize {
        handle
            .write_register(&a.register(), Felt::from_canonical_u8((37 * row + 5) as u8), row)
            .unwrap();
        handle
            .write_register(&b.register(), Felt::from_canonical_u8((91 * row + 200) as u8), row)
            .unwrap();
    }
    let trace = chip.generate_trace(handle).unwrap();
    assert_eq!(chip.check_trace(&trace), Some(true));
    for row in 0..8usize {
        let av = (37 * row + 5) as u8;
        let bv = (91 * row + 200) as u8;
        let xv = av ^ bv;
        let yv = xv.rotate_right((bv % 8) as u32);
        let zv = !yv;
        let cells = trace.row_values(row).unwrap();
        assert_eq!(
            cells,
            vec![
                av as u64,
                bv as u64,
                xv as u64,
                independent_digest(OPCODE_XOR, av, bv, xv),
                yv as u64,
                independent_digest(OPCODE_ROT, xv, bv, yv),
                zv as u64,
                independent_digest(OPCODE_NOT, yv, zv, 0),
                independent_digest(OPCODE_RANGE, zv, 0, 0),
            ]
        );
    }
}

#[test]
fn operand_out_of_range_shows_as_a_failing_constraint() {
    let mut builder = BytesBuilder::new(params(8));
    let a = builder.api.alloc_local::<ByteRegister>().unwrap();
    let b = builder.api.alloc_local::<ByteRegister>().unwrap();
    builder.byte_operation(ByteOpKind::And, a, b).unwrap();
    let chip = builder.build();
    let mut handle = chip.trace(2).unwrap();
    handle.write_register(&a.register(), Felt::from_canonical_u16(0x1F0), 0).unwrap();
    handle.write_register(&b.register(), Felt::from_canonical_u8(0xFF), 0).unwrap();
    // no error is raised by the write
    let trace = chip.generate_trace(handle).unwrap();
    let cells = trace.row_values(0).unwrap();
    assert_eq!(cells[2], 0xF0);
    assert_eq!(cells[3], independent_digest(OPCODE_AND, 0xF0, 0xFF, 0xF0));
    assert_eq!(chip.check_row(&trace, 0), Some(false));
    assert_eq!(chip.check_row(&trace, 1), Some(true));
    assert_eq!(chip.check_trace(&trace), Some(false));
    assert_eq!(chip.check_row(&trace, 2), None);
}

#[test]
fn set_byte_operation_places_the_digest() {
    let mut builder = BytesBuilder::new(params(8));
    let a = builder.api.alloc_public::<ByteRegister>().unwrap();
    let b = builder.api.alloc_global::<ByteRegister>().unwrap();
    let c = builder.api.alloc_global::<ByteRegister>().unwrap();
    let global = builder.set_byte_operation(ByteOperation::Or(a, b, c)).unwrap();
    assert!(global.is_global());
    assert_eq!(global.digest().register(), MemorySlice::new(RegionKind::Global, 2, 1));
    assert_eq!(global.inner(), ByteOperation::Or(a, b, c));

    let d = builder.api.alloc_local::<ByteRegister>().unwrap();
    let e = builder.api.alloc_local::<ByteRegister>().unwrap();
    let local = builder.set_byte_operation(ByteOperation::Shr(d, c, e)).unwrap();
    assert!(!local.is_global());
    assert_eq!(local.digest().register(), MemorySlice::new(RegionKind::Local, 2, 1));

    let chip = builder.build();
    let mut handle = chip.trace(2).unwrap();
    handle.write(&a.register(), &vec![Felt::from_canonical_u8(0x0F)], None).unwrap();
    handle.write(&b.register(), &vec![Felt::from_canonical_u8(0x35)], None).unwrap();
    for row in 0..2 {
        handle.write_register(&d.register(), Felt::from_canonical_u8(0xC4), row).unwrap();
    }
    let trace = chip.generate_trace(handle).unwrap();
    // c = 0x0F | 0x35 = 0x3F, e = 0xC4 >> (0x3F mod 8) = 0xC4 >> 7 = 1
    assert_eq!(
        trace.global_values(),
        vec![0x35, 0x3F, independent_digest(OPCODE_OR, 0x0F, 0x35, 0x3F)]
    );
    for row in 0..2 {
        assert_eq!(
            trace.row_values(row).unwrap(),
            vec![0xC4, 1, independent_digest(OPCODE_SHR, 0xC4, 0x3F, 1)]
        );
    }
    assert_eq!(chip.check_trace(&trace), Some(true));
}

#[test]
fn operations_that_collide_are_refused() {
    let mut builder = BytesBuilder::new(params(8));
    let a = builder.api.alloc_local::<ByteRegister>().unwrap();
    let b = builder.api.alloc_local::<ByteRegister>().unwrap();
    let c = builder.api.alloc_local::<ByteRegister>().unwrap();
    // the result in an operand
    assert_eq!(
        builder.set_byte_operation(ByteOperation::And(a, b, a)).err(),
        Some(BuildError::DuplicateColumnUse)
    );
    builder.set_byte_operation(ByteOperation::And(a, b, c)).unwrap();
    // a second writer of the same result
    assert_eq!(
        builder.set_byte_operation(ByteOperation::Xor(a, b, c)).err(),
        Some(BuildError::DuplicateColumnUse)
    );
    // a later instruction that writes what an earlier one reads
    assert_eq!(
        builder.set_byte_operation(ByteOperation::Not(c, a)).err(),
        Some(BuildError::DuplicateColumnUse)
    );
    // a register that was never allocated
    assert_eq!(
        builder.set_byte_operation(ByteOperation::Range(byte(RegionKind::Local, 100))).err(),
        Some(BuildError::InvalidRegister)
    );
    // a result outside the trace for an instruction of the trace
    let p = builder.api.alloc_public::<ByteRegister>().unwrap();
    assert_eq!(
        builder.set_byte_operation(ByteOperation::Not(a, p)).err(),
        Some(BuildError::InvalidRegister)
    );
    // reading the following row of a column that an instruction writes
    let next_c = ByteRegister::from_slice(c.register().next());
    let d = builder.api.alloc_local::<ByteRegister>().unwrap();
    assert_eq!(
        builder.set_byte_operation(ByteOperation::Not(next_c, d)).err(),
        Some(BuildError::DuplicateColumnUse)
    );
    // reading the following row of an input column is accepted
    let next_a = ByteRegister::from_slice(a.register().next());
    builder.set_byte_operation(ByteOperation::Not(next_a, d)).unwrap();
    // the budget
    assert_eq!(
        builder.set_byte_operation(ByteOperation::Range(a)).err(),
        None
    );
    assert_eq!(builder.api.num_local(), 7);
    builder.api.alloc_local::<ByteRegister>().unwrap();
    assert_eq!(
        builder.set_byte_operation(ByteOperation::Range(b)).err(),
        Some(BuildError::AllocationOverflow)
    );
}

#[test]
fn next_row_reads_wrap_around() {
    let mut builder = BytesBuilder::new(params(8));
    let a = builder.api.alloc_local::<ByteRegister>().unwrap();
    let next_a = ByteRegister::from_slice(a.register().next());
    let r = builder.byte_operation(ByteOpKind::Xor, a, next_a).unwrap();
    let chip = builder.build();
    let mut handle = chip.trace(4).unwrap();
    let values = [0x11u8, 0x22, 0x44, 0x88];
    for (row, v) in values.iter().enumerate() {
        handle.write_register(&a.register(), Felt::from_canonical_u8(*v), row).unwrap();
    }
    let trace = chip.generate_trace(handle).unwrap();
    for row in 0..4 {
        let cells = trace.row_values(row).unwrap();
        assert_eq!(cells[r.register().offset], (values[row] ^ values[(row + 1) % 4]) as u64);
    }
    assert_eq!(chip.check_trace(&trace), Some(true));
}

#[test]
fn write_outside_the_trace_is_refused() {
    let a = byte(RegionKind::Local, 0);
    let c = byte(RegionKind::Local, 1);
    let instruction =
        ByteOperationInstruction::new(ByteOperation::Not(a, c), element(RegionKind::Local, 5), false);
    let mut handle = TraceHandle::new(2, 3, 0, 0).unwrap();
    assert_eq!(instruction.write(&mut handle, 0).err(), Some(WitnessError::OutOfBounds));
    assert_eq!(handle.row_values(0).unwrap(), vec![0, 0, 0]);
    let fits =
        ByteOperationInstruction::new(ByteOperation::Not(a, c), element(RegionKind::Local, 2), false);
    assert_eq!(fits.write(&mut handle, 2).err(), Some(WitnessError::OutOfBounds));
    fits.write(&mut handle, 1).unwrap();
    assert_eq!(
        handle.row_values(1).unwrap(),
        vec![0, 255, independent_digest(OPCODE_NOT, 0, 255, 0)]
    );
    // through a handle on no row, registers of the trace cannot be written
    let mut writer = handle.public_writer();
    assert_eq!(fits.write_to_air(&mut writer).err(), Some(WitnessError::OutOfBounds));
}

#[test]
fn eval_states_one_constraint() {
    let a = byte(RegionKind::Local, 0);
    let b = byte(RegionKind::Next, 0);
    let c = byte(RegionKind::Local, 1);
    let digest = element(RegionKind::Local, 2);
    let instruction = ByteOperationInstruction::new(ByteOperation::Xor(a, b, c), digest, false);

    let mut circuit = RecursiveParser::new(3, 0, 0);
    instruction.eval(&mut circuit).unwrap();
    assert_eq!(circuit.num_constraints(), 1);
    let e = circuit.constraint_at(0).unwrap();
    let felt = |v: u64| Felt::from_noncanonical_u64(v);
    let digest_value = independent_digest(OPCODE_XOR, 3, 5, 6);
    let local = vec![felt(3), felt(6), felt(digest_value)];
    let next = vec![felt(5), felt(0), felt(0)];
    assert_eq!(e.evaluate(&local, &next, &Vec::new(), &Vec::new()).unwrap().as_canonical_u64(), 0);
    // the residue is the digest cell less the digest of the cells, in the field
    let off = vec![felt(3), felt(6), felt(digest_value + 10)];
    assert_eq!(e.evaluate(&off, &next, &Vec::new(), &Vec::new()).unwrap().as_canonical_u64(), 10);
    let under = vec![felt(3), felt(6), felt(digest_value - 1)];
    assert_eq!(
        e.evaluate(&under, &next, &Vec::new(), &Vec::new()).unwrap().as_canonical_u64(),
        0xFFFF_FFFF_0000_0000
    );
    assert!(e.evaluate(&local, &Vec::new(), &Vec::new(), &Vec::new()).is_none());

    let mut narrow = RecursiveParser::new(2, 0, 0);
    assert_eq!(instruction.eval(&mut narrow).err(), Some(BuildError::InvalidRegister));
    assert_eq!(narrow.num_constraints(), 0);
    assert_eq!(narrow.len_of(RegionKind::Local), 2);

    let wide =
        ByteOperationInstruction::new(ByteOperation::Range(a), ElementRegister::from_slice(MemorySlice::new(RegionKind::Local, 1, 2)), false);
    let mut circuit = RecursiveParser::new(3, 0, 0);
    assert_eq!(wide.eval(&mut circuit).err(), Some(BuildError::InvalidRegister));
}

#[test]
fn chip_constraints_are_those_of_its_instructions() {
    let mut builder = BytesBuilder::new(params(16));
    let a = builder.api.alloc_local::<ByteRegister>().unwrap();
    let b = builder.api.alloc_local::<ByteRegister>().unwrap();
    builder.byte_operation(ByteOpKind::Or, a, b).unwrap();
    builder.byte_operation(ByteOpKind::And, a, b).unwrap();
    let chip: Chip = builder.build();
    let circuit = chip.constraints();
    assert_eq!(circuit.num_constraints(), 2);

    let mut handle = chip.trace(1).unwrap();
    handle.write_register(&a.register(), Felt::from_canonical_u8(0x0C), 0).unwrap();
    handle.write_register(&b.register(), Felt::from_canonical_u8(0x0A), 0).unwrap();
    let trace = chip.generate_trace(handle).unwrap();
    let row: Vec<Felt> = trace
        .row_values(0)
        .unwrap()
        .iter()
        .map(|v| Felt::from_noncanonical_u64(*v))
        .collect();
    for k in 0..2 {
        let e = circuit.constraint_at(k).unwrap();
        assert!(e.evaluate(&row, &row, &Vec::new(), &Vec::new()).unwrap().is_zero());
    }
    let mut parser = trace.packed_parser(0).unwrap();
    chip.eval(&mut parser).unwrap();
    assert_eq!(parser.residues().len(), 2);
    assert!(parser.all_zero());
    assert!(trace == chip.generate_in_chunks(trace.clone_trace(), 5).unwrap());

    let i = Instruction::Byte(ByteOperationInstruction::new(
        ByteOperation::Range(a),
        element(RegionKind::Local, 9),
        false,
    ));
    assert_eq!(
        i.memory_footprint(),
        vec![MemorySlice::new(RegionKind::Local, 0, 1), MemorySlice::new(RegionKind::Local, 9, 1)]
    );
    assert!(i.is_well_placed());
    assert!(!i.is_global());
}

#[test]
fn independent_instructions_commute() {
    let a = byte(RegionKind::Local, 0);
    let b = byte(RegionKind::Local, 1);
    let x = Instruction::Byte(ByteOperationInstruction::new(
        ByteOperation::Xor(a, b, byte(RegionKind::Local, 2)),
        element(RegionKind::Local, 3),
        false,
    ));
    let y = Instruction::Byte(ByteOperationInstruction::new(
        ByteOperation::And(a, b, byte(RegionKind::Local, 4)),
        element(RegionKind::Local, 5),
        false,
    ));
    // z reads what x writes
    let z = Instruction::Byte(ByteOperationInstruction::new(
        ByteOperation::Not(byte(RegionKind::Local, 2), byte(RegionKind::Local, 6)),
        element(RegionKind::Local, 7),
        false,
    ));
    let start = || {
        let mut t = TraceHandle::new(2, 8, 0, 0).unwrap();
        t.write_register(&a.register(), Felt::from_canonical_u8(0xC3), 1).unwrap();
        t.write_register(&b.register(), Felt::from_canonical_u8(0x5A), 1).unwrap();
        t
    };
    let run = |order: &[&Instruction]| {
        let mut t = start();
        for i in order {
            i.write_at(&mut t, Some(1)).unwrap();
        }
        t
    };
    assert!(run(&[&x, &y]) == run(&[&y, &x]));
    assert!(run(&[&x, &y, &z]) == run(&[&y, &x, &z]));
    assert!(run(&[&x, &z, &y]) == run(&[&x, &y, &z]));
    // not so for an instruction and one that reads its result
    assert!(run(&[&x, &z]) != run(&[&z, &x]));
    assert_eq!(run(&[&x, &y]).row_values(1).unwrap()[..6].to_vec(), vec![
        0xC3,
        0x5A,
        0x99,
        independent_digest(OPCODE_XOR, 0xC3, 0x5A, 0x99),
        0x42,
        independent_digest(OPCODE_AND, 0xC3, 0x5A, 0x42),
    ]);
    assert_eq!(run(&[&x, &y]).row_values(0).unwrap(), vec![0; 8]);
}

#[test]
fn digests_decode_to_one_operation() {
    assert_eq!(decode_digest(2570888550), Some(ByteOperation::Xor(0xA5, 0x3C, 0x99)));
    assert!(in_table(2570888550));
    // the same operands with another result: an operation, but no entry of the table
    let wrong = ByteOperation::Xor(0xA5u8, 0x3Cu8, 0x98u8).lookup_digest_value();
    assert_eq!(decode_digest(wrong), Some(ByteOperation::Xor(0xA5, 0x3C, 0x98)));
    assert!(!in_table(wrong));
    // no kind has the opcode 5
    assert_eq!(decode_digest(5), None);
    assert!(!in_table(5));
    // a complement has two fields, a range check one
    let not = ByteOperation::Not(0x0Fu8, 0xF0u8).lookup_digest_value();
    assert_eq!(decode_digest(not), Some(ByteOperation::Not(0x0F, 0xF0)));
    assert!(in_table(not));
    assert_eq!(decode_digest(not + (1 << 24)), None);
    let range = ByteOperation::Range(200u8).lookup_digest_value();
    assert_eq!(decode_digest(range), Some(ByteOperation::Range(200)));
    assert!(in_table(range));
    assert_eq!(decode_digest(range + (1 << 16)), None);
    // every operation is found again from its digest
    for kind in [ByteOpKind::And, ByteOpKind::Or, ByteOpKind::Shr, ByteOpKind::Rot] {
        for (x, y) in [(0u8, 0u8), (255, 255), (0x12, 0x34)] {
            let op = rebuild_operation(kind, x, y, compute_byte_result(kind, x, y));
            assert_eq!(decode_digest(op.lookup_digest_value()), Some(op));
            assert!(in_table(op.lookup_digest_value()));
        }
    }
}
