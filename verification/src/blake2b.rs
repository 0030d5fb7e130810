//! BLAKE2b with a digest of 32 bytes.
//!
//! The compression function works on a state of eight 64-bit words and a
//! block of 128 bytes. A message is hashed block by block; the counter `t` is
//! the number of message bytes taken so far, and the last block is flagged.

use crate::field::Felt;
use crate::register::{
    ArrayRegister, BitRegister, ElementRegister, MemorySlice, Register, U64Register,
};
use crate::trace::{felts, RowView, TraceHandle, TraceView};
use vstd::prelude::*;

verus! {

/// The number of bytes of a block.
pub const BLOCK_BYTES: usize = 128;

/// The number of bytes of a digest.
pub const DIGEST_BYTES: usize = 32;

/// The initialisation vector of the compression function.
pub open spec fn spec_iv() -> Seq<u64> {
    seq![
        0x6a09e667f3bcc908u64,
        0xbb67ae8584caa73b,
        0x3c6ef372fe94f82b,
        0xa54ff53a5f1d36f1,
        0x510e527fade682d1,
        0x9b05688c2b3e6c1f,
        0x1f83d9abfb41bd6b,
        0x5be0cd19137e2179,
    ]
}

/// The state that hashing starts from: the initialisation vector with the
/// parameter block of a 32-byte digest without key folded into its first
/// word.
pub open spec fn spec_initial_state() -> Seq<u64> {
    spec_iv().update(0, 0x6a09e667f2bdc928u64)
}

/// The message schedule: for each of the ten round patterns, the order in
/// which the words of the block are taken.
pub open spec fn spec_sigma() -> Seq<Seq<int>> {
    seq![
        seq![0, 1, 2, 3, 4, 5, 6, 7, 8, 9, 10, 11, 12, 13, 14, 15],
        seq![14, 10, 4, 8, 9, 15, 13, 6, 1, 12, 0, 2, 11, 7, 5, 3],
        seq![11, 8, 12, 0, 5, 2, 15, 13, 10, 14, 3, 6, 7, 1, 9, 4],
        seq![7, 9, 3, 1, 13, 12, 11, 14, 2, 6, 5, 10, 4, 0, 15, 8],
        seq![9, 0, 5, 7, 2, 4, 10, 15, 14, 1, 11, 12, 6, 8, 3, 13],
        seq![2, 12, 6, 10, 0, 11, 8, 3, 4, 13, 7, 5, 15, 14, 1, 9],
        seq![12, 5, 1, 15, 14, 13, 4, 10, 0, 7, 6, 3, 9, 2, 8, 11],
        seq![13, 11, 7, 14, 12, 1, 3, 9, 5, 0, 15, 4, 8, 6, 2, 10],
        seq![6, 15, 14, 9, 11, 3, 0, 8, 12, 2, 13, 7, 1, 4, 10, 5],
        seq![10, 2, 8, 4, 7, 6, 1, 5, 15, 11, 9, 14, 3, 12, 13, 0],
    ]
}

/// A word rotated to the right by `n` bits, for `0 < n < 64`.
pub open spec fn rotr(x: u64, n: u64) -> u64 {
    (x >> n) | (x << ((64 - n) as u64))
}

/// The mixing function: the words `a`, `b`, `c`, `d` of the working vector
/// mixed with two words of the block.
#[verifier::opaque]
pub open spec fn spec_mix(v: Seq<u64>, a: int, b: int, c: int, d: int, x: u64, y: u64) -> Seq<u64> {
    let va = v[a].wrapping_add(v[b]).wrapping_add(x);
    let vd = rotr(v[d] ^ va, 32);
    let vc = v[c].wrapping_add(vd);
    let vb = rotr(v[b] ^ vc, 24);
    let va2 = va.wrapping_add(vb).wrapping_add(y);
    let vd2 = rotr(vd ^ va2, 16);
    let vc2 = vc.wrapping_add(vd2);
    let vb2 = rotr(vb ^ vc2, 63);
    v.update(a, va2).update(b, vb2).update(c, vc2).update(d, vd2)
}

/// One round: the columns of the working vector are mixed, then its
/// diagonals, with the words of the block in the order `s`.
#[verifier::opaque]
pub open spec fn spec_round(v: Seq<u64>, m: Seq<u64>, s: Seq<int>) -> Seq<u64> {
    let v1 = spec_mix(v, 0, 4, 8, 12, m[s[0]], m[s[1]]);
    let v2 = spec_mix(v1, 1, 5, 9, 13, m[s[2]], m[s[3]]);
    let v3 = spec_mix(v2, 2, 6, 10, 14, m[s[4]], m[s[5]]);
    let v4 = spec_mix(v3, 3, 7, 11, 15, m[s[6]], m[s[7]]);
    let v5 = spec_mix(v4, 0, 5, 10, 15, m[s[8]], m[s[9]]);
    let v6 = spec_mix(v5, 1, 6, 11, 12, m[s[10]], m[s[11]]);
    let v7 = spec_mix(v6, 2, 7, 8, 13, m[s[12]], m[s[13]]);
    spec_mix(v7, 3, 4, 9, 14, m[s[14]], m[s[15]])
}

/// The working vector after the first `n` rounds; round `r` takes the words
/// of the block in the order of pattern `r mod 10`.
pub open spec fn spec_rounds(v: Seq<u64>, m: Seq<u64>, n: nat) -> Seq<u64>
    decreases n,
{
    if n == 0 {
        v
    } else {
        spec_round(spec_rounds(v, m, (n - 1) as nat), m, spec_sigma()[(n - 1) % 10])
    }
}

/// The working vector that a compression starts from: the state, then the
/// initialisation vector with the counter and the last-block flag folded in.
pub open spec fn spec_working_vector(h: Seq<u64>, t: u64, last: bool) -> Seq<u64> {
    let iv = spec_iv();
    h.add(
        seq![
            iv[0],
            iv[1],
            iv[2],
            iv[3],
            iv[4] ^ t,
            iv[5],
            if last {
                !iv[6]
            } else {
                iv[6]
            },
            iv[7],
        ],
    )
}

/// The state after the block of words `m` was compressed into the state `h`.
#[verifier::opaque]
pub open spec fn spec_compress(h: Seq<u64>, m: Seq<u64>, t: u64, last: bool) -> Seq<u64> {
    let v = spec_rounds(spec_working_vector(h, t, last), m, 12);
    Seq::new(8, |i: int| h[i] ^ v[i] ^ v[i + 8])
}

/// The 64-bit word that eight bytes spell, least significant byte first.
pub open spec fn spec_word(bytes: Seq<u8>, i: int) -> u64 {
    (bytes[8 * i] as int + 0x100 * bytes[8 * i + 1] as int + 0x1_0000 * bytes[8 * i + 2] as int
        + 0x100_0000 * bytes[8 * i + 3] as int + 0x1_0000_0000 * bytes[8 * i + 4] as int
        + 0x100_0000_0000 * bytes[8 * i + 5] as int + 0x1_0000_0000_0000 * bytes[8 * i + 6] as int
        + 0x100_0000_0000_0000 * bytes[8 * i + 7] as int) as u64
}

/// The sixteen words of a block of 128 bytes.
pub open spec fn spec_words(block: Seq<u8>) -> Seq<u64> {
    Seq::new(16, |i: int| spec_word(block, i))
}

/// The initialisation vector of the compression function.
pub fn iv() -> (r: [u64; 8])
    ensures
        r@ == spec_iv(),
{
    let r: [u64; 8] = [
        0x6a09e667f3bcc908,
        0xbb67ae8584caa73b,
        0x3c6ef372fe94f82b,
        0xa54ff53a5f1d36f1,
        0x510e527fade682d1,
        0x9b05688c2b3e6c1f,
        0x1f83d9abfb41bd6b,
        0x5be0cd19137e2179,
    ];
    assert(r@ =~= spec_iv());
    r
}

/// The state that hashing starts from.
pub fn initial_state() -> (r: [u64; 8])
    ensures
        r@ == spec_initial_state(),
{
    let r: [u64; 8] = [
        0x6a09e667f2bdc928,
        0xbb67ae8584caa73b,
        0x3c6ef372fe94f82b,
        0xa54ff53a5f1d36f1,
        0x510e527fade682d1,
        0x9b05688c2b3e6c1f,
        0x1f83d9abfb41bd6b,
        0x5be0cd19137e2179,
    ];
    assert(r@ =~= spec_initial_state());
    r
}

/// The order in which round pattern `r` takes the words of a block.
fn sigma(r: usize) -> (s: [usize; 16])
    requires
        r < 10,
    ensures
        s@.len() == 16,
        forall|i: int| 0 <= i < 16
            ==> (#[trigger] s@[i]) < 16 && s@[i] as int == spec_sigma()[r as int][i],
{
    let table: [[usize; 16]; 10] = [
        [0, 1, 2, 3, 4, 5, 6, 7, 8, 9, 10, 11, 12, 13, 14, 15],
        [14, 10, 4, 8, 9, 15, 13, 6, 1, 12, 0, 2, 11, 7, 5, 3],
        [11, 8, 12, 0, 5, 2, 15, 13, 10, 14, 3, 6, 7, 1, 9, 4],
        [7, 9, 3, 1, 13, 12, 11, 14, 2, 6, 5, 10, 4, 0, 15, 8],
        [9, 0, 5, 7, 2, 4, 10, 15, 14, 1, 11, 12, 6, 8, 3, 13],
        [2, 12, 6, 10, 0, 11, 8, 3, 4, 13, 7, 5, 15, 14, 1, 9],
        [12, 5, 1, 15, 14, 13, 4, 10, 0, 7, 6, 3, 9, 2, 8, 11],
        [13, 11, 7, 14, 12, 1, 3, 9, 5, 0, 15, 4, 8, 6, 2, 10],
        [6, 15, 14, 9, 11, 3, 0, 8, 12, 2, 13, 7, 1, 4, 10, 5],
        [10, 2, 8, 4, 7, 6, 1, 5, 15, 11, 9, 14, 3, 12, 13, 0],
    ];
    table[r]
}

/// Executable form of `rotr`.
fn rotate(x: u64, n: u64) -> (r: u64)
    requires
        0 < n < 64,
    ensures
        r == rotr(x, n),
{
    (x >> n) | (x << (64 - n))
}

/// Executable form of `spec_mix`.
fn mix(v: &mut [u64; 16], a: usize, b: usize, c: usize, d: usize, x: u64, y: u64)
    requires
        a < 16,
        b < 16,
        c < 16,
        d < 16,
    ensures
        final(v)@ == spec_mix(old(v)@, a as int, b as int, c as int, d as int, x, y),
{
    reveal(spec_mix);
    let va: u64 = v[a].wrapping_add(v[b]).wrapping_add(x);
    let vd: u64 = rotate(v[d] ^ va, 32);
    let vc: u64 = v[c].wrapping_add(vd);
    let vb: u64 = rotate(v[b] ^ vc, 24);
    let va2: u64 = va.wrapping_add(vb).wrapping_add(y);
    let vd2: u64 = rotate(vd ^ va2, 16);
    let vc2: u64 = vc.wrapping_add(vd2);
    let vb2: u64 = rotate(vb ^ vc2, 63);
    v[a] = va2;
    v[b] = vb2;
    v[c] = vc2;
    v[d] = vd2;
}

/// Executable form of `spec_round`.
fn round(v: &mut [u64; 16], m: &[u64; 16], s: &[usize; 16])
    requires
        forall|i: int| 0 <= i < 16 ==> (#[trigger] s@[i]) < 16,
    ensures
        final(v)@ == spec_round(old(v)@, m@, Seq::new(16, |i: int| s@[i] as int)),
{
    reveal(spec_round);
    mix(v, 0, 4, 8, 12, m[s[0]], m[s[1]]);
    mix(v, 1, 5, 9, 13, m[s[2]], m[s[3]]);
    mix(v, 2, 6, 10, 14, m[s[4]], m[s[5]]);
    mix(v, 3, 7, 11, 15, m[s[6]], m[s[7]]);
    mix(v, 0, 5, 10, 15, m[s[8]], m[s[9]]);
    mix(v, 1, 6, 11, 12, m[s[10]], m[s[11]]);
    mix(v, 2, 7, 8, 13, m[s[12]], m[s[13]]);
    mix(v, 3, 4, 9, 14, m[s[14]], m[s[15]]);
}

/// The 64-bit word that eight bytes of a block spell, least significant byte
/// first.
fn word(block: &Vec<u8>, i: usize) -> (r: u64)
    requires
        8 * i + 8 <= block.len(),
    ensures
        r == spec_word(block@, i as int),
{
    let b0: u64 = block[8 * i] as u64;
    let b1: u64 = block[8 * i + 1] as u64;
    let b2: u64 = block[8 * i + 2] as u64;
    let b3: u64 = block[8 * i + 3] as u64;
    let b4: u64 = block[8 * i + 4] as u64;
    let b5: u64 = block[8 * i + 5] as u64;
    let b6: u64 = block[8 * i + 6] as u64;
    let b7: u64 = block[8 * i + 7] as u64;
    b0 + 0x100 * b1 + 0x1_0000 * b2 + 0x100_0000 * b3 + 0x1_0000_0000 * b4 + 0x100_0000_0000 * b5
        + 0x1_0000_0000_0000 * b6 + 0x100_0000_0000_0000 * b7
}

/// Compresses a block of 128 bytes into the state. `t` counts the bytes of
/// the message taken so far, the block included; `last` flags the last block
/// of a message.
pub fn compress(block: &Vec<u8>, state: &mut [u64; 8], t: u64, last: bool)
    requires
        block@.len() == 128,
    ensures
        final(state)@ == spec_compress(old(state)@, spec_words(block@), t, last),
{
    reveal(spec_compress);
    let mut m: [u64; 16] = [0;16];
    let mut i: usize = 0;
    while i < 16
        invariant
            i <= 16,
            block@.len() == 128,
            forall|j: int| 0 <= j < i ==> (#[trigger] m@[j]) == spec_word(block@, j),
        decreases 16 - i,
    {
        m[i] = word(block, i);
        i += 1;
    }
    assert(m@ =~= spec_words(block@));
    let c = iv();
    let mut v: [u64; 16] = [
        state[0],
        state[1],
        state[2],
        state[3],
        state[4],
        state[5],
        state[6],
        state[7],
        c[0],
        c[1],
        c[2],
        c[3],
        c[4] ^ t,
        c[5],
        if last {
            !c[6]
        } else {
            c[6]
        },
        c[7],
    ];
    assert(v@ =~= spec_working_vector(state@, t, last));
    let ghost v0 = v@;
    let mut r: usize = 0;
    while r < 12
        invariant
            r <= 12,
            v@ == spec_rounds(v0, m@, r as nat),
        decreases 12 - r,
    {
        let s = sigma(r % 10);
        assert(Seq::new(16, |i: int| s@[i] as int) =~= spec_sigma()[(r % 10) as int]);
        round(&mut v, &m, &s);
        r += 1;
    }
    let ghost h0 = state@;
    let mut k: usize = 0;
    while k < 8
        invariant
            k <= 8,
            state@.len() == 8,
            forall|j: int| 0 <= j < k ==> (#[trigger] state@[j]) == h0[j] ^ v@[j] ^ v@[j + 8],
            forall|j: int| k <= j < 8 ==> (#[trigger] state@[j]) == h0[j],
        decreases 8 - k,
    {
        state[k] = state[k] ^ v[k] ^ v[k + 8];
        k += 1;
    }
    assert(state@ =~= spec_compress(h0, m@, t, last));
}

/// The number of blocks of a message of `len` bytes: at least one.
pub open spec fn spec_num_blocks(len: int) -> int {
    if len == 0 {
        1
    } else {
        (len + 127) / 128
    }
}

/// Block `i` of a message: its bytes from `128·i` on, with zeros after its
/// end.
pub open spec fn spec_block(msg: Seq<u8>, i: int) -> Seq<u8> {
    Seq::new(
        128,
        |j: int|
            if 128 * i + j < msg.len() {
                msg[128 * i + j]
            } else {
                0u8
            },
    )
}

/// The counter of block `i` of a message of `len` bytes: the number of
/// message bytes up to the end of the block.
pub open spec fn spec_counter(len: int, i: int) -> int {
    if 128 * (i + 1) < len {
        128 * (i + 1)
    } else {
        len
    }
}

/// The state after the first `k` blocks of a message were compressed.
pub open spec fn spec_chain(msg: Seq<u8>, k: nat) -> Seq<u64>
    decreases k,
{
    if k == 0 {
        spec_initial_state()
    } else {
        spec_compress(
            spec_chain(msg, (k - 1) as nat),
            spec_words(spec_block(msg, k - 1)),
            spec_counter(msg.len() as int, k - 1) as u64,
            k == spec_num_blocks(msg.len() as int),
        )
    }
}

/// Byte `k` of a state, its words taken least significant byte first.
pub open spec fn spec_state_byte(h: Seq<u64>, k: int) -> u8 {
    ((h[k / 8] >> ((8 * (k % 8)) as u64)) & 0xff) as u8
}

/// The first 32 bytes of a state.
pub open spec fn spec_state_bytes(h: Seq<u64>) -> Seq<u8> {
    Seq::new(32, |k: int| spec_state_byte(h, k))
}

/// The digest of a message: 32 bytes.
pub open spec fn spec_digest(msg: Seq<u8>) -> Seq<u8> {
    spec_state_bytes(spec_chain(msg, spec_num_blocks(msg.len() as int) as nat))
}

/// The first 32 bytes of a state.
pub fn state_bytes(h: &[u64; 8]) -> (r: Vec<u8>)
    ensures
        r@ == spec_state_bytes(h@),
{
    let mut out: Vec<u8> = Vec::new();
    let mut k: usize = 0;
    while k < 32
        invariant
            k <= 32,
            out@.len() == k,
            forall|j: int| 0 <= j < k ==> (#[trigger] out@[j]) == spec_state_byte(h@, j),
        decreases 32 - k,
    {
        let w: u64 = h[k / 8];
        let shift: u64 = (8 * (k % 8)) as u64;
        out.push(((w >> shift) & 0xff) as u8);
        k += 1;
    }
    assert(out@ =~= spec_state_bytes(h@));
    out
}

/// Block `i` of a message.
fn block_of(msg: &Vec<u8>, i: usize) -> (r: Vec<u8>)
    requires
        128 * i <= msg@.len(),
    ensures
        r@ == spec_block(msg@, i as int),
{
    let n: usize = msg.len();
    let start: usize = 128 * i;
    let mut out: Vec<u8> = Vec::new();
    let mut j: usize = 0;
    while j < 128
        invariant
            j <= 128,
            n == msg@.len(),
            start == 128 * i,
            start <= n,
            out@.len() == j,
            forall|k: int| 0 <= k < j ==> (#[trigger] out@[k]) == spec_block(msg@, i as int)[k],
        decreases 128 - j,
    {
        let b: u8 = if j < n - start {
            msg[start + j]
        } else {
            0
        };
        out.push(b);
        j += 1;
    }
    assert(out@ =~= spec_block(msg@, i as int));
    out
}

/// The BLAKE2b digest of 32 bytes of a message.
pub fn blake2b_256(msg: &Vec<u8>) -> (r: Vec<u8>)
    ensures
        r@ == spec_digest(msg@),
        r@.len() == 32,
{
    let n: usize = msg.len();
    let blocks: usize = if n == 0 {
        1
    } else {
        (n - 1) / 128 + 1
    };
    assert(blocks == spec_num_blocks(n as int));
    let mut state = initial_state();
    let mut k: usize = 0;
    while k < blocks
        invariant
            k <= blocks,
            n == msg@.len(),
            blocks == spec_num_blocks(n as int),
            state@ == spec_chain(msg@, k as nat),
        decreases blocks - k,
    {
        let block = block_of(msg, k);
        let t: u64 = if k + 1 == blocks {
            n as u64
        } else {
            (128 * (k + 1)) as u64
        };
        assert(t == spec_counter(n as int, k as int));
        compress(&block, &mut state, t, k + 1 == blocks);
        k += 1;
    }
    state_bytes(&state)
}

/// A message with zeros after it, as long as `max_chunks` blocks, if it has no
/// more blocks than that.
pub fn pad(msg: &Vec<u8>, max_chunks: usize) -> (r: Option<Vec<u8>>)
    ensures
        r is Some <==> spec_num_blocks(msg@.len() as int) <= max_chunks && 128 * max_chunks
            <= usize::MAX,
        r matches Some(p) ==> {
            &&& p@.len() == 128 * max_chunks
            &&& forall|i: int|
                0 <= i < p@.len() ==> (#[trigger] p@[i]) == (if i < msg@.len() {
                    msg@[i]
                } else {
                    0u8
                })
        },
{
    let n: usize = msg.len();
    if max_chunks == 0 || max_chunks > usize::MAX / 128 {
        return None;
    }
    let total: usize = 128 * max_chunks;
    if n > total {
        return None;
    }
    let mut out: Vec<u8> = Vec::new();
    let mut i: usize = 0;
    while i < total
        invariant
            i <= total,
            n == msg@.len(),
            n <= total,
            out@.len() == i,
            forall|j: int|
                0 <= j < i ==> (#[trigger] out@[j]) == (if j < msg@.len() {
                    msg@[j]
                } else {
                    0u8
                }),
        decreases total - i,
    {
        let b: u8 = if i < n {
            msg[i]
        } else {
            0
        };
        out.push(b);
        i += 1;
    }
    Some(out)
}

/// What goes with each block of a padded message: its counter, whether the
/// digest is taken after it, and whether it is the last block.
#[derive(Debug, PartialEq, Eq)]
pub struct Blake2bSchedule {
    pub t_values: Vec<u64>,
    pub digest_bits: Vec<bool>,
    pub end_bits: Vec<bool>,
    pub digest_index: usize,
}

/// The schedule of a message of `msg_len` bytes padded to `max_chunks`
/// blocks, if it has no more blocks than that.
///
/// The digest is taken after block `(msg_len - 1) / 128`, or after block zero
/// for the empty message. The counter of a block is the number of message
/// bytes up to its end. The last of the `max_chunks` blocks ends the message.
pub fn blake2b_schedule(msg_len: usize, max_chunks: usize) -> (r: Option<Blake2bSchedule>)
    ensures
        r is Some <==> spec_num_blocks(msg_len as int) <= max_chunks,
        r matches Some(s) ==> {
            &&& s.digest_index == spec_num_blocks(msg_len as int) - 1
            &&& s.t_values@.len() == max_chunks
            &&& s.digest_bits@.len() == max_chunks
            &&& s.end_bits@.len() == max_chunks
            &&& forall|i: int|
                0 <= i < max_chunks ==> (#[trigger] s.t_values@[i]) as int == spec_counter(
                    msg_len as int,
                    i,
                )
            &&& forall|i: int|
                0 <= i < max_chunks ==> (#[trigger] s.digest_bits@[i]) == (i == s.digest_index)
            &&& forall|i: int|
                0 <= i < max_chunks ==> (#[trigger] s.end_bits@[i]) == (i == max_chunks - 1)
        },
{
    let digest_index: usize = if msg_len == 0 {
        0
    } else {
        (msg_len - 1) / 128
    };
    if digest_index >= max_chunks {
        return None;
    }
    let mut t_values: Vec<u64> = Vec::new();
    let mut digest_bits: Vec<bool> = Vec::new();
    let mut end_bits: Vec<bool> = Vec::new();
    let mut i: usize = 0;
    while i < max_chunks
        invariant
            i <= max_chunks,
            digest_index == spec_num_blocks(msg_len as int) - 1,
            t_values@.len() == i,
            digest_bits@.len() == i,
            end_bits@.len() == i,
            forall|j: int|
                0 <= j < i ==> (#[trigger] t_values@[j]) as int == spec_counter(msg_len as int, j),
            forall|j: int| 0 <= j < i ==> (#[trigger] digest_bits@[j]) == (j == digest_index),
            forall|j: int| 0 <= j < i ==> (#[trigger] end_bits@[j]) == (j == max_chunks - 1),
        decreases max_chunks - i,
    {
        let t: u64 = if i < digest_index {
            (128 * (i + 1)) as u64
        } else {
            msg_len as u64
        };
        t_values.push(t);
        digest_bits.push(i == digest_index);
        end_bits.push(i + 1 == max_chunks);
        i += 1;
    }
    Some(Blake2bSchedule { t_values, digest_bits, end_bits, digest_index })
}

/// The cells of a slice as bytes; each cell must be a byte for this to be
/// what the cells hold.
pub open spec fn cell_bytes(w: RowView, s: MemorySlice) -> Seq<u8> {
    Seq::new(s.len as nat, |j: int| w.cell(s, j) as u8)
}

/// Whether every cell of a slice is a byte.
pub open spec fn all_bytes(w: RowView, s: MemorySlice) -> bool {
    forall|j: int| 0 <= j < s.len ==> 0 <= #[trigger] w.cell(s, j) < 256
}

/// Whether every cell of a slice is zero or one.
pub open spec fn all_bits(w: RowView, s: MemorySlice) -> bool {
    forall|j: int| 0 <= j < s.len ==> 0 <= #[trigger] w.cell(s, j) < 2
}

/// The registers of a run of BLAKE2b compressions: for each round a block, a
/// counter, a bit that ends a message and a bit that takes the digest; for
/// each digest the round that it is taken after and the state it is taken
/// from; and the number of digests.
#[derive(Debug)]
pub struct Blake2bJob {
    pub padded_chunks: Vec<ArrayRegister<U64Register>>,
    pub t_values: ArrayRegister<U64Register>,
    pub end_bits: ArrayRegister<BitRegister>,
    pub digest_bits: ArrayRegister<BitRegister>,
    pub digest_indices: ArrayRegister<ElementRegister>,
    pub num_messages: ElementRegister,
    pub hash_state: Vec<ArrayRegister<U64Register>>,
}

impl Blake2bJob {
    /// The number of rounds.
    pub open spec fn rounds(&self) -> int {
        self.padded_chunks@.len() as int
    }

    /// The number of digests.
    pub open spec fn digests(&self) -> int {
        self.hash_state@.len() as int
    }

    /// Whether the registers have the shape of a job: sixteen words for each
    /// block, a counter and two bits for each round, four words for each
    /// digest and an index for each digest.
    pub open spec fn shaped(&self) -> bool {
        &&& forall|i: int|
            0 <= i < self.rounds() ==> (#[trigger] self.padded_chunks@[i]).wf()
                && self.padded_chunks@[i].length == 16
        &&& self.t_values.wf()
        &&& self.t_values.length == self.rounds()
        &&& self.end_bits.wf()
        &&& self.end_bits.length == self.rounds()
        &&& self.digest_bits.wf()
        &&& self.digest_bits.length == self.rounds()
        &&& self.digest_indices.wf()
        &&& self.digest_indices.length == self.digests()
        &&& self.num_messages.slice.len == 1
        &&& forall|j: int|
            0 <= j < self.digests() ==> (#[trigger] self.hash_state@[j]).wf()
                && self.hash_state@[j].length == 4
    }

    /// Whether the trace has, at `row`, every register of the job.
    pub open spec fn admitted(&self, t: TraceView, row: Option<usize>) -> bool {
        &&& forall|i: int|
            0 <= i < self.rounds() ==> t.admits((#[trigger] self.padded_chunks@[i]).slice, row)
        &&& t.admits(self.t_values.slice, row)
        &&& t.admits(self.end_bits.slice, row)
        &&& t.admits(self.digest_bits.slice, row)
        &&& t.admits(self.digest_indices.slice, row)
        &&& t.admits(self.num_messages.slice, row)
        &&& forall|j: int|
            0 <= j < self.digests() ==> t.admits((#[trigger] self.hash_state@[j]).slice, row)
    }

    /// Whether the cells of the job are in range: bytes in blocks, counters
    /// and states, bits in the two arrays of bits.
    pub open spec fn in_range(&self, w: RowView) -> bool {
        &&& forall|i: int|
            0 <= i < self.rounds() ==> all_bytes(w, (#[trigger] self.padded_chunks@[i]).slice)
        &&& all_bytes(w, self.t_values.slice)
        &&& all_bits(w, self.end_bits.slice)
        &&& all_bits(w, self.digest_bits.slice)
        &&& forall|j: int|
            0 <= j < self.digests() ==> all_bytes(w, (#[trigger] self.hash_state@[j]).slice)
    }

    /// Whether the digest is taken after round `i`.
    pub open spec fn digest_bit(&self, w: RowView, i: int) -> bool {
        w.cell(self.digest_bits.slice, i) == 1
    }

    /// Whether round `i` ends a message.
    pub open spec fn end_bit(&self, w: RowView, i: int) -> bool {
        w.cell(self.end_bits.slice, i) == 1
    }

    /// The counter of round `i`.
    pub open spec fn counter(&self, w: RowView, i: int) -> u64 {
        spec_word(cell_bytes(w, self.t_values.slice), i)
    }

    /// The state after round `i`: the block of the round compressed into the
    /// state after the round before, or into the initial state if the round
    /// is the first of a message.
    pub open spec fn state_after(&self, w: RowView, i: int) -> Seq<u64>
        decreases i,
    {
        if i < 0 {
            spec_initial_state()
        } else {
            spec_compress(
                if i == 0 || self.end_bit(w, i - 1) {
                    spec_initial_state()
                } else {
                    self.state_after(w, i - 1)
                },
                spec_words(cell_bytes(w, self.padded_chunks@[i].slice)),
                self.counter(w, i),
                self.digest_bit(w, i),
            )
        }
    }

    /// The number of digests taken before round `i`.
    pub open spec fn digests_before(&self, w: RowView, i: int) -> int
        decreases i,
    {
        if i <= 0 {
            0
        } else {
            self.digests_before(w, i - 1) + if self.digest_bit(w, i - 1) {
                1int
            } else {
                0int
            }
        }
    }

    /// Whether round `i` agrees with the digests: if the digest is taken
    /// after it, the next digest register holds the state after the round,
    /// and the index of that digest is `i`.
    pub open spec fn round_agrees(&self, w: RowView, i: int) -> bool {
        self.digest_bit(w, i) ==> {
            let d = self.digests_before(w, i);
            &&& d < self.digests()
            &&& cell_bytes(w, self.hash_state@[d].slice) == spec_state_bytes(self.state_after(w, i))
            &&& w.cell(self.digest_indices.slice, d) == i
        }
    }

    /// Whether the cells of the job are consistent: they are in range, every
    /// round agrees with the digests, and the number of digests taken is the
    /// number of digest registers and the number of messages.
    pub open spec fn consistent(&self, w: RowView) -> bool {
        &&& self.in_range(w)
        &&& forall|i: int| 0 <= i < self.rounds() ==> #[trigger] self.round_agrees(w, i)
        &&& self.digests_before(w, self.rounds()) == self.digests()
        &&& w.cell(self.num_messages.slice, 0) == self.digests()
    }
}

/// The cells of a slice as bytes, if the trace has them; within that, the
/// bytes if every cell is a byte.
pub fn read_bytes(handle: &TraceHandle, s: &MemorySlice, row: Option<usize>) -> (r: Option<
    Option<Vec<u8>>,
>)
    requires
        handle.wf(),
    ensures
        r is Some <==> handle@.admits(*s, row),
        r matches Some(inner) ==> {
            &&& inner is Some <==> all_bytes(handle@.view_at(row), *s)
            &&& inner matches Some(b) ==> b@ == cell_bytes(handle@.view_at(row), *s)
        },
{
    let cells = match handle.read(s, row) {
        Some(c) => c,
        None => {
            return None;
        },
    };
    let ghost w = handle@.view_at(row);
    assert(felts(cells@).len() == cells@.len());
    assert(w.values(*s).len() == s.len);
    let mut out: Vec<u8> = Vec::new();
    let mut j: usize = 0;
    while j < cells.len()
        invariant
            j <= cells@.len(),
            cells@.len() == s.len,
            handle@.admits(*s, row),
            w == handle@.view_at(row),
            felts(cells@) == w.values(*s),
            out@.len() == j,
            forall|k: int| 0 <= k < j ==> 0 <= #[trigger] w.cell(*s, k) < 256,
            forall|k: int| 0 <= k < j ==> (#[trigger] out@[k]) == w.cell(*s, k) as u8,
        decreases cells.len() - j,
    {
        let v: u64 = cells[j].as_canonical_u64();
        assert(felts(cells@)[j as int] == cells@[j as int]@);
        assert(w.values(*s)[j as int] == w.cell(*s, j as int));
        if v >= 256 {
            assert(!(0 <= w.cell(*s, j as int) < 256));
            return Some(None);
        }
        out.push(v as u8);
        j += 1;
    }
    assert(out@ =~= cell_bytes(w, *s));
    Some(Some(out))
}

/// Whether two runs of bytes are the same.
fn bytes_equal(a: &Vec<u8>, b: &Vec<u8>) -> (r: bool)
    ensures
        r == (a@ == b@),
{
    if a.len() != b.len() {
        return false;
    }
    let mut i: usize = 0;
    while i < a.len()
        invariant
            i <= a@.len(),
            a@.len() == b@.len(),
            forall|j: int| 0 <= j < i ==> a@[j] == b@[j],
        decreases a.len() - i,
    {
        if a[i] != b[i] {
            return false;
        }
        i += 1;
    }
    assert(a@ =~= b@);
    true
}

/// The cells of a slice as bits, if the trace has them; within that, the bits
/// if every cell is zero or one.
fn read_bits(handle: &TraceHandle, s: &MemorySlice, row: Option<usize>) -> (r: Option<
    Option<Vec<bool>>,
>)
    requires
        handle.wf(),
    ensures
        r is Some <==> handle@.admits(*s, row),
        r matches Some(inner) ==> {
            &&& inner is Some <==> all_bits(handle@.view_at(row), *s)
            &&& inner matches Some(b) ==> b@.len() == s.len && forall|j: int|
                0 <= j < s.len ==> (#[trigger] b@[j]) == (handle@.view_at(row).cell(*s, j) == 1)
        },
{
    let cells = match handle.read(s, row) {
        Some(c) => c,
        None => {
            return None;
        },
    };
    let ghost w = handle@.view_at(row);
    assert(felts(cells@).len() == cells@.len());
    assert(w.values(*s).len() == s.len);
    let mut out: Vec<bool> = Vec::new();
    let mut j: usize = 0;
    while j < cells.len()
        invariant
            j <= cells@.len(),
            cells@.len() == s.len,
            handle@.admits(*s, row),
            w == handle@.view_at(row),
            felts(cells@) == w.values(*s),
            out@.len() == j,
            forall|k: int| 0 <= k < j ==> 0 <= #[trigger] w.cell(*s, k) < 2,
            forall|k: int| 0 <= k < j ==> (#[trigger] out@[k]) == (w.cell(*s, k) == 1),
        decreases cells.len() - j,
    {
        let v: u64 = cells[j].as_canonical_u64();
        assert(felts(cells@)[j as int] == cells@[j as int]@);
        assert(w.values(*s)[j as int] == w.cell(*s, j as int));
        if v >= 2 {
            assert(!(0 <= w.cell(*s, j as int) < 2));
            return Some(None);
        }
        out.push(v == 1);
        j += 1;
    }
    Some(Some(out))
}

impl Blake2bJob {
    /// Executable form of `shaped`.
    pub fn is_shaped(&self) -> (r: bool)
        ensures
            r == self.shaped(),
    {
        let n: usize = self.padded_chunks.len();
        let d: usize = self.hash_state.len();
        let mut i: usize = 0;
        while i < n
            invariant
                i <= n,
                n == self.rounds(),
                forall|k: int|
                    0 <= k < i ==> (#[trigger] self.padded_chunks@[k]).wf()
                        && self.padded_chunks@[k].length == 16,
            decreases n - i,
        {
            if !array_is_valid(&self.padded_chunks[i]) || self.padded_chunks[i].length != 16 {
                return false;
            }
            i += 1;
        }
        let mut j: usize = 0;
        while j < d
            invariant
                j <= d,
                d == self.digests(),
                forall|k: int|
                    0 <= k < j ==> (#[trigger] self.hash_state@[k]).wf()
                        && self.hash_state@[k].length
                        == 4,
            decreases d - j,
        {
            if !array_is_valid(&self.hash_state[j]) || self.hash_state[j].length != 4 {
                return false;
            }
            j += 1;
        }
        array_is_valid(&self.t_values) && self.t_values.length == n && array_is_valid(
            &self.end_bits,
        ) && self.end_bits.length == n && array_is_valid(&self.digest_bits)
            && self.digest_bits.length == n && array_is_valid(&self.digest_indices)
            && self.digest_indices.length == d && self.num_messages.slice.len == 1
    }

    /// Executable form of `admitted`.
    pub fn is_admitted(&self, handle: &TraceHandle, row: Option<usize>) -> (r: bool)
        requires
            handle.wf(),
        ensures
            r == self.admitted(handle@, row),
    {
        let n: usize = self.padded_chunks.len();
        let d: usize = self.hash_state.len();
        let mut i: usize = 0;
        while i < n
            invariant
                i <= n,
                n == self.rounds(),
                handle.wf(),
                forall|k: int|
                    0 <= k < i ==> handle@.admits((#[trigger] self.padded_chunks@[k]).slice, row),
            decreases n - i,
        {
            if !handle.admits(&self.padded_chunks[i].slice, row) {
                return false;
            }
            i += 1;
        }
        let mut j: usize = 0;
        while j < d
            invariant
                j <= d,
                d == self.digests(),
                handle.wf(),
                forall|k: int|
                    0 <= k < j ==> handle@.admits((#[trigger] self.hash_state@[k]).slice, row),
            decreases d - j,
        {
            if !handle.admits(&self.hash_state[j].slice, row) {
                return false;
            }
            j += 1;
        }
        handle.admits(&self.t_values.slice, row) && handle.admits(&self.end_bits.slice, row)
            && handle.admits(&self.digest_bits.slice, row) && handle.admits(
            &self.digest_indices.slice,
            row,
        ) && handle.admits(&self.num_messages.slice, row)
    }

    /// Whether the cells of the job, taken at `row`, are consistent: every
    /// digest register holds the state of the hash after the round that it is
    /// taken after. There is no answer if the registers have not the shape of
    /// a job or the trace has them not.
    pub fn check(&self, handle: &TraceHandle, row: Option<usize>) -> (r: Option<bool>)
        requires
            handle.wf(),
        ensures
            r is Some <==> self.shaped() && self.admitted(handle@, row),
            r matches Some(b) ==> b == self.consistent(handle@.view_at(row)),
    {
        if !self.is_shaped() || !self.is_admitted(handle, row) {
            return None;
        }
        let ghost w = handle@.view_at(row);
        let n: usize = self.padded_chunks.len();
        let d: usize = self.hash_state.len();
        let t_bytes: Vec<u8> = match read_bytes(handle, &self.t_values.slice, row) {
            Some(Some(b)) => b,
            _ => {
                return Some(false);
            },
        };
        let end_bits: Vec<bool> = match read_bits(handle, &self.end_bits.slice, row) {
            Some(Some(b)) => b,
            _ => {
                return Some(false);
            },
        };
        let digest_bits: Vec<bool> = match read_bits(handle, &self.digest_bits.slice, row) {
            Some(Some(b)) => b,
            _ => {
                return Some(false);
            },
        };
        let indices: Vec<Felt> = match handle.read(&self.digest_indices.slice, row) {
            Some(c) => c,
            None => {
                return None;
            },
        };
        let count_cell: Vec<Felt> = match handle.read(&self.num_messages.slice, row) {
            Some(c) => c,
            None => {
                return None;
            },
        };
        assert(felts(indices@).len() == indices@.len());
        assert(felts(count_cell@).len() == count_cell@.len());
        assert(U64Register::spec_width() == 8);
        assert(BitRegister::spec_width() == 1);
        assert(ElementRegister::spec_width() == 1);
        let mut state: [u64; 8] = initial_state();
        let mut count: usize = 0;
        let mut i: usize = 0;
        while i < n
            invariant
                i <= n,
                n == self.rounds(),
                d == self.digests(),
                handle.wf(),
                self.shaped(),
                self.admitted(handle@, row),
                w == handle@.view_at(row),
                t_bytes@ == cell_bytes(w, self.t_values.slice),
                all_bytes(w, self.t_values.slice),
                all_bits(w, self.end_bits.slice),
                all_bits(w, self.digest_bits.slice),
                end_bits@.len() == n,
                digest_bits@.len() == n,
                forall|k: int| 0 <= k < n ==> (#[trigger] end_bits@[k]) == self.end_bit(w, k),
                forall|k: int| 0 <= k < n ==> (#[trigger] digest_bits@[k]) == self.digest_bit(w, k),
                felts(indices@) == w.values(self.digest_indices.slice),
                indices@.len() == d,
                count == self.digests_before(w, i as int),
                count <= d,
                count <= i,
                i > 0 ==> state@ == self.state_after(w, i - 1),
                i == 0 ==> state@ == spec_initial_state(),
                forall|k: int| 0 <= k < i ==> #[trigger] self.round_agrees(w, k),
                forall|k: int|
                    0 <= k < i ==> all_bytes(w, (#[trigger] self.padded_chunks@[k]).slice),
                forall|j: int|
                    0 <= j < count ==> all_bytes(w, (#[trigger] self.hash_state@[j]).slice),
            decreases n - i,
        {
            assert(self.padded_chunks@[i as int].wf());
            assert(self.padded_chunks@[i as int].slice.len == 128) by (nonlinear_arith)
                requires
                    self.padded_chunks@[i as int].slice.len == self.padded_chunks@[i as int].length
                        * 8,
                    self.padded_chunks@[i as int].length == 16,
            ;
            let block: Vec<u8> = match read_bytes(handle, &self.padded_chunks[i].slice, row) {
                Some(Some(b)) => b,
                _ => {
                    assert(!all_bytes(w, self.padded_chunks@[i as int].slice));
                    return Some(false);
                },
            };
            assert(t_bytes@.len() == 8 * n) by (nonlinear_arith)
                requires
                    t_bytes@.len() == self.t_values.slice.len,
                    self.t_values.slice.len == self.t_values.length * 8,
                    self.t_values.length == n,
            ;
            let t: u64 = word(&t_bytes, i);
            if i > 0 && end_bits[i - 1] {
                state = initial_state();
            }
            compress(&block, &mut state, t, digest_bits[i]);
            assert(state@ == self.state_after(w, i as int));
            if digest_bits[i] {
                if count >= d {
                    assert(!self.round_agrees(w, i as int));
                    return Some(false);
                }
                assert(self.hash_state@[count as int].wf());
                let digest: Vec<u8> = match read_bytes(handle, &self.hash_state[count].slice, row) {
                    Some(Some(b)) => b,
                    _ => {
                        assert(!all_bytes(w, self.hash_state@[count as int].slice));
                        return Some(false);
                    },
                };
                let want: Vec<u8> = state_bytes(&state);
                if !bytes_equal(&digest, &want) {
                    assert(!self.round_agrees(w, i as int));
                    return Some(false);
                }
                let index: u64 = indices[count].as_canonical_u64();
                assert(felts(indices@)[count as int] == indices@[count as int]@);
                assert(w.values(self.digest_indices.slice)[count as int] == w.cell(
                    self.digest_indices.slice,
                    count as int,
                ));
                if index != i as u64 {
                    assert(!self.round_agrees(w, i as int));
                    return Some(false);
                }
                count += 1;
            }
            i += 1;
        }
        let messages: u64 = count_cell[0].as_canonical_u64();
        assert(felts(count_cell@)[0] == count_cell@[0]@);
        assert(w.values(self.num_messages.slice)[0] == w.cell(self.num_messages.slice, 0));
        let done: bool = count == d && messages == d as u64;
        proof {
            if done {
                assert(self.in_range(w));
            }
        }
        Some(done)
    }
}

/// Executable form of the validity of an array of registers.
pub fn array_is_valid<T: Register>(a: &ArrayRegister<T>) -> (r: bool)
    ensures
        r == a.wf(),
{
    let fits: bool = a.slice.offset <= usize::MAX - a.slice.len;
    let exact: bool = match a.length.checked_mul(T::width()) {
        Some(total) => total == a.slice.len,
        None => false,
    };
    fits && exact
}

} // verus!
