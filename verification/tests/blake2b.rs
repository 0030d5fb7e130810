use curta::blake2b::{
    blake2b_256, blake2b_schedule, compress, initial_state, pad, state_bytes, Blake2bJob,
};
use curta::builder::{AirParameters, BytesBuilder};
use curta::error::BuildError;
use curta::field::Felt;
use curta::register::{
    ArrayRegister, BitRegister, ElementRegister, MemorySlice, RegionKind, Register, U64Register,
};
use curta::trace::TraceHandle;

const MESSAGE: &str = "00f43f3ef4c05d1aca645d7b2b59af99d65661810b8a724818052db75e04afb60ea210002f9cac87493604cb5fff6644ea17c3b1817d243bc5a0aa6f0d11ab3df46f37b9adbf1ff3a446807e7a9ebc77647776b8bbda37dcf2f4f34ca7ba7bf4c7babfbe080642414245b501032c000000b7870a0500000000360b79058f3b331fbbb10d38a2e309517e24cc12094d0a5a7c9faa592884e9621aecff0224bc1a857a0bacadf4455e2c5b39684d2d5879b108c98315f6a14504348846c6deed3addcba24fc3af531d59f31c87bc454bf6f1d73eadaf2d22d60c05424142450101eead41c1266af7bc7becf961dcb93f3691642c9b6d50aeb65b92528b99c675608f2095a296ed52aa433c1bfed56e8546dae03b61cb59643a9cb39f82618f958b00041000000000000000000000000000000000000000000000000000000000000000008101a26cc6796f1025d51bd927351af541d3ab01d7a1b978a65e19c16ae2799b3286ca2401211009421c4e6bd80ef9e07918a26cc6796f1025d51bd927351af541d3ab01d7a1b978a65e19c16ae2799b3286ca2401211009421c4e6bd80ef9e079180400";

fn u64_to_le_field_bytes(x: u64) -> Vec<Felt> {
    x.to_le_bytes().iter().map(|b| Felt::from_canonical_u8(*b)).collect()
}

fn field_bytes(bytes: &[u8]) -> Vec<Felt> {
    bytes.iter().map(|b| Felt::from_canonical_u8(*b)).collect()
}

fn params() -> AirParameters {
    AirParameters {
        num_arithmetic_columns: 0,
        num_free_columns: 1527,
        extended_columns: 708,
    }
}

struct Registers {
    padded_chunks: Vec<ArrayRegister<U64Register>>,
    t_values: ArrayRegister<U64Register>,
    end_bits: ArrayRegister<BitRegister>,
    digest_bits: ArrayRegister<BitRegister>,
    digest_indices: ArrayRegister<ElementRegister>,
    num_messages: ElementRegister,
}

fn allocate(builder: &mut BytesBuilder, num_rounds: usize, num_messages: usize) -> Registers {
    let padded_chunks = (0..num_rounds)
        .map(|_| builder.api.alloc_array_public::<U64Register>(16).unwrap())
        .collect::<Vec<_>>();
    let t_values = builder.api.alloc_array_public::<U64Register>(num_rounds).unwrap();
    let end_bits = builder.api.alloc_array_public::<BitRegister>(num_rounds).unwrap();
    let digest_bits = builder.api.alloc_array_public::<BitRegister>(num_rounds).unwrap();
    let digest_indices = builder
        .api
        .alloc_array_public::<ElementRegister>(num_messages)
        .unwrap();
    let num_messages = builder.api.alloc_public::<ElementRegister>().unwrap();
    Registers { padded_chunks, t_values, end_bits, digest_bits, digest_indices, num_messages }
}

#[test]
pub fn test_blake2b() {
    let mut padded_chunks_values = Vec::new();
    let mut t_values_values = Vec::new();
    let mut end_bits_values = Vec::new();
    let mut digest_bits_values = Vec::new();
    let mut digest_indices_values = Vec::new();
    let num_rows = 512;

    let msgs = [hex::decode(MESSAGE).unwrap()];
    let msg_max_chunk_sizes = [4u64];

    let mut start_index = 0;
    for (msg, msg_max_chunk_size) in msgs.iter().zip(msg_max_chunk_sizes.iter()) {
        let padded = pad(msg, *msg_max_chunk_size as usize).unwrap();
        let msg_padded_chunks: Vec<Vec<u8>> = padded.chunks_exact(128).map(|x| x.to_vec()).collect();

        let msg_len = msg.len();
        let msg_digest_idx = if msg_len == 0 { 0 } else { (msg_len - 1) / 128 };
        assert!(msg_padded_chunks.len() == *msg_max_chunk_size as usize);
        let schedule = blake2b_schedule(msg_len, *msg_max_chunk_size as usize).unwrap();
        assert_eq!(schedule.digest_index, msg_digest_idx);
        for (i, chunk) in msg_padded_chunks.iter().enumerate() {
            padded_chunks_values.push(chunk.clone());

            let at_digest_chunk = i == msg_digest_idx;
            t_values_values.push(schedule.t_values[i]);
            assert_eq!(schedule.digest_bits[i], at_digest_chunk);
            digest_bits_values.push(at_digest_chunk);
            if at_digest_chunk {
                digest_indices_values.push(Felt::from_noncanonical_u64(
                    (start_index + msg_digest_idx) as u64,
                ));
            }
            assert_eq!(schedule.end_bits[i], i == msg_padded_chunks.len() - 1);
            end_bits_values.push(i == msg_padded_chunks.len() - 1);
        }
        start_index += msg_padded_chunks.len();
    }

    let num_messages_value = Felt::from_noncanonical_u64(msgs.len() as u64);

    // Build the chip
    let num_rounds = padded_chunks_values.len();
    let mut builder = BytesBuilder::new(params());
    let regs = allocate(&mut builder, num_rounds, msgs.len());
    let hash_state = builder
        .blake2b(
            &regs.padded_chunks,
            &regs.t_values,
            &regs.end_bits,
            &regs.digest_bits,
            &regs.digest_indices,
            &regs.num_messages,
        )
        .unwrap();
    assert_eq!(hash_state.len(), msgs.len());

    let chip = builder.build();
    assert_eq!(chip.num_jobs(), 1);

    // Write trace.
    let mut handle = chip.trace(num_rows).unwrap();
    let mut writer = handle.public_writer();

    writer.write(&regs.num_messages.register(), &vec![num_messages_value]).unwrap();
    let mut hash_state_iter = hash_state.iter();
    let mut current_state = initial_state();
    let mut digests: Vec<Vec<u8>> = Vec::new();
    for i in 0..num_rounds {
        let padded_chunk = &padded_chunks_values[i];
        writer
            .write(&regs.padded_chunks[i].register(), &field_bytes(padded_chunk))
            .unwrap();
        writer
            .write(
                &regs.end_bits.get(i).unwrap().register(),
                &vec![Felt::from_canonical_u8(end_bits_values[i] as u8)],
            )
            .unwrap();
        writer
            .write(
                &regs.digest_bits.get(i).unwrap().register(),
                &vec![Felt::from_canonical_u8(digest_bits_values[i] as u8)],
            )
            .unwrap();
        writer
            .write(
                &regs.t_values.get(i).unwrap().register(),
                &u64_to_le_field_bytes(t_values_values[i]),
            )
            .unwrap();

        compress(padded_chunk, &mut current_state, t_values_values[i], digest_bits_values[i]);

        if digest_bits_values[i] {
            let bytes = state_bytes(&current_state);
            writer
                .write(&hash_state_iter.next().unwrap().register(), &field_bytes(&bytes))
                .unwrap();
            digests.push(bytes);
        }

        if end_bits_values[i] {
            current_state = initial_state();
        }
    }

    for (i, digest_index) in digest_indices_values.iter().enumerate() {
        writer
            .write(&regs.digest_indices.get(i).unwrap().register(), &vec![*digest_index])
            .unwrap();
    }

    chip.write_global_instructions(&mut handle).unwrap();
    for i in 0..num_rows {
        chip.write_trace_instructions(&mut handle, i).unwrap();
    }

    // in place of a proof: the constraints and the hash chain hold on the trace
    assert_eq!(chip.check_trace(&handle), Some(true));
    assert_eq!(chip.check_hashes(&handle, None), Some(true));
    assert_eq!(digests.len(), 1);
    assert_eq!(digests[0], blake2b_256(&msgs[0]));
    assert_eq!(
        digests[0],
        hex::decode("7c38fc8356aa20394c7f538e3cee3f924e6d9252494c8138d1a6aabfc253118f").unwrap()
    );
}

#[test]
fn blake2b_single_block_schedule() {
    let msg: Vec<u8> = hex::decode(MESSAGE).unwrap()[..213].to_vec();
    assert_eq!(msg.len(), 213);
    let schedule = blake2b_schedule(213, 4).unwrap();
    assert_eq!(schedule.t_values, vec![128, 213, 213, 213]);
    assert_eq!(schedule.digest_index, 1);
    assert_eq!(schedule.digest_bits, vec![false, true, false, false]);
    assert_eq!(schedule.end_bits, vec![false, false, false, true]);

    let padded = pad(&msg, 4).unwrap();
    assert_eq!(padded.len(), 512);
    assert_eq!(&padded[..213], &msg[..]);
    assert!(padded[213..].iter().all(|b| *b == 0));

    // the hash taken inside the trace is the digest of the message
    let mut builder = BytesBuilder::new(params());
    let regs = allocate(&mut builder, 4, 1);
    let hash_state = builder
        .blake2b(
            &regs.padded_chunks,
            &regs.t_values,
            &regs.end_bits,
            &regs.digest_bits,
            &regs.digest_indices,
            &regs.num_messages,
        )
        .unwrap();
    let chip = builder.build();
    let mut handle = chip.trace(1).unwrap();
    let mut state = initial_state();
    for i in 0..4 {
        let chunk = padded[128 * i..128 * (i + 1)].to_vec();
        handle.write(&regs.padded_chunks[i].register(), &field_bytes(&chunk), None).unwrap();
        handle
            .write(
                &regs.t_values.get(i).unwrap().register(),
                &u64_to_le_field_bytes(schedule.t_values[i]),
                None,
            )
            .unwrap();
        handle
            .write(
                &regs.end_bits.get(i).unwrap().register(),
                &vec![Felt::from_canonical_u8(schedule.end_bits[i] as u8)],
                None,
            )
            .unwrap();
        handle
            .write(
                &regs.digest_bits.get(i).unwrap().register(),
                &vec![Felt::from_canonical_u8(schedule.digest_bits[i] as u8)],
                None,
            )
            .unwrap();
        compress(&chunk, &mut state, schedule.t_values[i], schedule.digest_bits[i]);
        if schedule.digest_bits[i] {
            handle
                .write(&hash_state[0].register(), &field_bytes(&state_bytes(&state)), None)
                .unwrap();
        }
    }
    handle
        .write(&regs.digest_indices.register(), &vec![Felt::from_canonical_u8(1)], None)
        .unwrap();
    handle
        .write(&regs.num_messages.register(), &vec![Felt::from_canonical_u8(1)], None)
        .unwrap();
    assert_eq!(chip.check_hashes(&handle, None), Some(true));

    let reference =
        hex::decode("706c7f56a9d9135266279179691fdae42eb3f646519ef20f6b812464438fb600").unwrap();
    assert_eq!(blake2b_256(&msg), reference);
    let written: Vec<u8> = handle.public_values()[hash_state[0].register().offset..][..32]
        .iter()
        .map(|v| *v as u8)
        .collect();
    assert_eq!(written, reference);

    // a digest that is off by one bit is found out
    let mut wrong = reference.clone();
    wrong[31] ^= 1;
    handle.write(&hash_state[0].register(), &field_bytes(&wrong), None).unwrap();
    assert_eq!(chip.check_hashes(&handle, None), Some(false));
    handle.write(&hash_state[0].register(), &field_bytes(&reference), None).unwrap();
    assert_eq!(chip.check_hashes(&handle, None), Some(true));
    // a wrong digest index, a wrong count, a cell that is no byte
    handle
        .write(&regs.digest_indices.register(), &vec![Felt::from_canonical_u8(2)], None)
        .unwrap();
    assert_eq!(chip.check_hashes(&handle, None), Some(false));
    handle
        .write(&regs.digest_indices.register(), &vec![Felt::from_canonical_u8(1)], None)
        .unwrap();
    handle
        .write(&regs.num_messages.register(), &vec![Felt::from_canonical_u8(2)], None)
        .unwrap();
    assert_eq!(chip.check_hashes(&handle, None), Some(false));
    handle
        .write(&regs.num_messages.register(), &vec![Felt::from_canonical_u8(1)], None)
        .unwrap();
    handle
        .write(
            &MemorySlice::new(RegionKind::Public, 5, 1),
            &vec![Felt::from_canonical_u16(256)],
            None,
        )
        .unwrap();
    assert_eq!(chip.check_hashes(&handle, None), Some(false));
}

#[test]
fn blake2b_known_digests() {
    assert_eq!(
        blake2b_256(&b"abc".to_vec()),
        hex::decode("bddd813c634239723171ef3fee98579b94964e3bb1cb3e427262c8c068d52319").unwrap()
    );
    assert_eq!(
        blake2b_256(&Vec::new()),
        hex::decode("0e5751c026e543b2e8ab2eb06099daa1d1e5df47778f7787faab45cdf12fe3a8").unwrap()
    );
    let long: Vec<u8> = (0..200u8).chain(0..200u8).collect();
    assert_eq!(
        blake2b_256(&long),
        hex::decode("db2dd12f7ec99e6546c4518fb48b08a43e87e9ede4ff0bb3504a07e819f72e16").unwrap()
    );
    // a message that ends with its block, and one byte more
    assert_eq!(
        blake2b_256(&vec![7u8; 128]),
        hex::decode("332f1f712b03a6a6f6c28db7d96c62f170744119ab0f831b9e0d80f800e3aad7").unwrap()
    );
    assert_eq!(
        blake2b_256(&vec![7u8; 129]),
        hex::decode("a04de7247309966b2b2afc367838071ea523f897e6a405286f2b5627032a8dea").unwrap()
    );
}

#[test]
fn blake2b_schedule_edges() {
    // the empty message has one block, with counter zero
    let s = blake2b_schedule(0, 1).unwrap();
    assert_eq!(s.t_values, vec![0]);
    assert_eq!(s.digest_bits, vec![true]);
    assert_eq!(s.end_bits, vec![true]);
    assert_eq!(s.digest_index, 0);
    assert!(blake2b_schedule(0, 0).is_none());
    // a message that ends with a block
    let s = blake2b_schedule(256, 3).unwrap();
    assert_eq!(s.t_values, vec![128, 256, 256]);
    assert_eq!(s.digest_index, 1);
    assert!(blake2b_schedule(257, 2).is_none());
    assert_eq!(blake2b_schedule(257, 3).unwrap().t_values, vec![128, 256, 257]);

    assert!(pad(&vec![1u8; 129], 1).is_none());
    assert!(pad(&Vec::new(), 0).is_none());
    assert_eq!(pad(&Vec::new(), 1).unwrap(), vec![0u8; 128]);
    assert_eq!(pad(&vec![9u8; 128], 1).unwrap(), vec![9u8; 128]);
}

#[test]
fn blake2b_registers_must_have_the_shape_of_a_job() {
    let mut builder = BytesBuilder::new(params());
    let regs = allocate(&mut builder, 2, 1);
    let public_before = builder.api.num_public();
    // one counter too few
    let short = ArrayRegister::<U64Register>::from_slice(
        MemorySlice::new(RegionKind::Public, regs.t_values.register().offset, 8),
        1,
    )
    .unwrap();
    assert_eq!(
        builder
            .blake2b(
                &regs.padded_chunks,
                &short,
                &regs.end_bits,
                &regs.digest_bits,
                &regs.digest_indices,
                &regs.num_messages,
            )
            .err(),
        Some(BuildError::InvalidRegister)
    );
    assert_eq!(builder.api.num_public(), public_before);
    assert_eq!(builder.jobs.len(), 0);

    let hash_state = builder
        .blake2b(
            &regs.padded_chunks,
            &regs.t_values,
            &regs.end_bits,
            &regs.digest_bits,
            &regs.digest_indices,
            &regs.num_messages,
        )
        .unwrap();
    assert_eq!(hash_state.len(), 1);
    assert_eq!(hash_state[0].len(), 4);
    assert_eq!(
        hash_state[0].register(),
        MemorySlice::new(RegionKind::Public, public_before, 32)
    );
    assert_eq!(builder.api.num_public(), public_before + 32);
    assert_eq!(builder.jobs.len(), 1);
    assert_eq!(U64Register::width(), 8);

    // a trace that has not the registers gives no answer
    let job: &Blake2bJob = &builder.jobs[0];
    let handle = TraceHandle::new(1, 0, 10, 0).unwrap();
    assert_eq!(job.check(&handle, None), None);
}
