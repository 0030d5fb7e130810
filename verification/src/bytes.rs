//! Operations on bytes, and the instruction that writes one of them with the
//! digest that a lookup argument takes up.
//!
//! An operation names its operands and its result. Its digest packs the
//! opcode, the operands and the result into 32 bits, least significant byte
//! first: `opcode + 2^8·x + 2^16·y + 2^24·z`, where `x`, `y`, `z` are the
//! fields of the operation in order and a missing field counts as zero.

use crate::error::{BuildError, WitnessError};
use crate::field::{
    fsub, lemma_fadd_congruent, lemma_fsub_congruent, lemma_mod_congruent, order, Felt,
};
use crate::parser::{read_cell, AirParser};
use crate::register::{ByteRegister, ElementRegister, MemorySlice, RegionKind};
use crate::trace::{
    all_single, check_all_single, check_none_overlap, check_pairwise_apart, felts, felts_all,
    lemma_write_all_other, lemma_write_all_same, none_overlap, pairwise_apart, RowView,
    TraceHandle, TraceView,
};
use vstd::prelude::*;

verus! {

/// The opcode of a bitwise and.
pub const OPCODE_AND: u8 = 101;

/// The opcode of a bitwise exclusive or.
pub const OPCODE_XOR: u8 = 102;

/// The opcode of a shift to the right.
pub const OPCODE_SHR: u8 = 103;

/// The opcode of a rotation to the right.
pub const OPCODE_ROT: u8 = 104;

/// The opcode of a bitwise complement.
pub const OPCODE_NOT: u8 = 105;

/// The opcode of a range check.
pub const OPCODE_RANGE: u8 = 106;

/// The opcode of a bitwise or.
pub const OPCODE_OR: u8 = 107;

/// The kinds of operation on bytes.
#[derive(Clone, Copy, Debug, PartialEq, Eq, Structural)]
pub enum ByteOpKind {
    And,
    Xor,
    Or,
    Not,
    Shr,
    Rot,
    Range,
}

/// An operation on bytes: its operands, then its result if it has one.
#[derive(Debug, PartialEq, Eq)]
pub enum ByteOperation<T> {
    /// `c = a & b`.
    And(T, T, T),
    /// `c = a ^ b`.
    Xor(T, T, T),
    /// `c = a | b`.
    Or(T, T, T),
    /// `c = !a`.
    Not(T, T),
    /// `c = a >> (b mod 8)`.
    Shr(T, T, T),
    /// `c` is `a` rotated to the right by `b mod 8` bits.
    Rot(T, T, T),
    /// `a` is a byte.
    Range(T),
}

impl<T: Copy> Clone for ByteOperation<T> {
    fn clone(&self) -> (r: Self)
        ensures
            r == *self,
    {
        *self
    }
}

impl<T: Copy> Copy for ByteOperation<T> {

}

/// A byte rotated to the right by one bit.
pub open spec fn rotate_one(a: u8) -> u8 {
    (a / 2 + (a % 2) * 128) as u8
}

/// A byte rotated to the right by `n` bits.
pub open spec fn rotate_right(a: u8, n: nat) -> u8
    decreases n,
{
    if n == 0 {
        a
    } else {
        rotate_one(rotate_right(a, (n - 1) as nat))
    }
}

/// The result of an operation of the given kind on `a` and `b`; a kind with
/// one operand ignores `b`, and a range check has no result.
pub open spec fn byte_result(kind: ByteOpKind, a: u8, b: u8) -> u8 {
    match kind {
        ByteOpKind::And => a & b,
        ByteOpKind::Xor => a ^ b,
        ByteOpKind::Or => a | b,
        ByteOpKind::Not => !a,
        ByteOpKind::Shr => a >> (b % 8),
        ByteOpKind::Rot => rotate_right(a, (b % 8) as nat),
        ByteOpKind::Range => 0,
    }
}

/// The opcode of a kind of operation.
pub open spec fn opcode_of(kind: ByteOpKind) -> int {
    match kind {
        ByteOpKind::And => 101,
        ByteOpKind::Xor => 102,
        ByteOpKind::Shr => 103,
        ByteOpKind::Rot => 104,
        ByteOpKind::Not => 105,
        ByteOpKind::Range => 106,
        ByteOpKind::Or => 107,
    }
}

/// The digest of an operation with the given opcode and fields.
pub open spec fn digest_of(opcode: int, x: int, y: int, z: int) -> int {
    opcode + 256 * x + 65536 * y + 16777216 * z
}

/// Executable form of `byte_result`.
pub fn compute_byte_result(kind: ByteOpKind, a: u8, b: u8) -> (r: u8)
    ensures
        r == byte_result(kind, a, b),
{
    match kind {
        ByteOpKind::And => a & b,
        ByteOpKind::Xor => a ^ b,
        ByteOpKind::Or => a | b,
        ByteOpKind::Not => !a,
        ByteOpKind::Shr => a >> (b % 8),
        ByteOpKind::Rot => {
            let n: u8 = b % 8;
            let mut r: u8 = a;
            let mut i: u8 = 0;
            while i < n
                invariant
                    i <= n < 8,
                    r == rotate_right(a, i as nat),
                decreases n - i,
            {
                r = r / 2 + (r % 2) * 128;
                i += 1;
            }
            r
        },
        ByteOpKind::Range => 0,
    }
}

impl ByteOpKind {
    /// The opcode of the kind.
    pub fn opcode(&self) -> (r: u8)
        ensures
            r == opcode_of(*self),
    {
        match self {
            ByteOpKind::And => OPCODE_AND,
            ByteOpKind::Xor => OPCODE_XOR,
            ByteOpKind::Shr => OPCODE_SHR,
            ByteOpKind::Rot => OPCODE_ROT,
            ByteOpKind::Not => OPCODE_NOT,
            ByteOpKind::Range => OPCODE_RANGE,
            ByteOpKind::Or => OPCODE_OR,
        }
    }

    /// Whether operations of the kind take a second operand.
    pub open spec fn binary(self) -> bool {
        !(self is Not || self is Range)
    }

    /// Whether operations of the kind have a result.
    pub open spec fn has_result(self) -> bool {
        !(self is Range)
    }
}

impl<T: Copy> ByteOperation<T> {
    /// The kind of the operation.
    pub open spec fn kind(self) -> ByteOpKind {
        match self {
            ByteOperation::And(_, _, _) => ByteOpKind::And,
            ByteOperation::Xor(_, _, _) => ByteOpKind::Xor,
            ByteOperation::Or(_, _, _) => ByteOpKind::Or,
            ByteOperation::Not(_, _) => ByteOpKind::Not,
            ByteOperation::Shr(_, _, _) => ByteOpKind::Shr,
            ByteOperation::Rot(_, _, _) => ByteOpKind::Rot,
            ByteOperation::Range(_) => ByteOpKind::Range,
        }
    }

    /// The first operand.
    pub open spec fn first(self) -> T {
        match self {
            ByteOperation::And(a, _, _) => a,
            ByteOperation::Xor(a, _, _) => a,
            ByteOperation::Or(a, _, _) => a,
            ByteOperation::Not(a, _) => a,
            ByteOperation::Shr(a, _, _) => a,
            ByteOperation::Rot(a, _, _) => a,
            ByteOperation::Range(a) => a,
        }
    }

    /// The second operand, if the operation has one.
    pub open spec fn second(self) -> Option<T> {
        match self {
            ByteOperation::And(_, b, _) => Some(b),
            ByteOperation::Xor(_, b, _) => Some(b),
            ByteOperation::Or(_, b, _) => Some(b),
            ByteOperation::Not(_, _) => None,
            ByteOperation::Shr(_, b, _) => Some(b),
            ByteOperation::Rot(_, b, _) => Some(b),
            ByteOperation::Range(_) => None,
        }
    }

    /// The result, if the operation has one.
    pub open spec fn output(self) -> Option<T> {
        match self {
            ByteOperation::And(_, _, c) => Some(c),
            ByteOperation::Xor(_, _, c) => Some(c),
            ByteOperation::Or(_, _, c) => Some(c),
            ByteOperation::Not(_, c) => Some(c),
            ByteOperation::Shr(_, _, c) => Some(c),
            ByteOperation::Rot(_, _, c) => Some(c),
            ByteOperation::Range(_) => None,
        }
    }

    /// The fields of the operation in order: operands, then result.
    pub open spec fn fields(self) -> Seq<T> {
        match self {
            ByteOperation::And(a, b, c) => seq![a, b, c],
            ByteOperation::Xor(a, b, c) => seq![a, b, c],
            ByteOperation::Or(a, b, c) => seq![a, b, c],
            ByteOperation::Not(a, c) => seq![a, c],
            ByteOperation::Shr(a, b, c) => seq![a, b, c],
            ByteOperation::Rot(a, b, c) => seq![a, b, c],
            ByteOperation::Range(a) => seq![a],
        }
    }

    /// The kind of the operation.
    pub fn get_kind(&self) -> (r: ByteOpKind)
        ensures
            r == self.kind(),
    {
        match self {
            ByteOperation::And(_, _, _) => ByteOpKind::And,
            ByteOperation::Xor(_, _, _) => ByteOpKind::Xor,
            ByteOperation::Or(_, _, _) => ByteOpKind::Or,
            ByteOperation::Not(_, _) => ByteOpKind::Not,
            ByteOperation::Shr(_, _, _) => ByteOpKind::Shr,
            ByteOperation::Rot(_, _, _) => ByteOpKind::Rot,
            ByteOperation::Range(_) => ByteOpKind::Range,
        }
    }

    /// The fields of the operation in order: operands, then result.
    pub fn get_fields(&self) -> (r: Vec<T>)
        ensures
            r@ == self.fields(),
    {
        let mut out: Vec<T> = Vec::new();
        match self {
            ByteOperation::And(a, b, c) => {
                out.push(*a);
                out.push(*b);
                out.push(*c);
            },
            ByteOperation::Xor(a, b, c) => {
                out.push(*a);
                out.push(*b);
                out.push(*c);
            },
            ByteOperation::Or(a, b, c) => {
                out.push(*a);
                out.push(*b);
                out.push(*c);
            },
            ByteOperation::Not(a, c) => {
                out.push(*a);
                out.push(*c);
            },
            ByteOperation::Shr(a, b, c) => {
                out.push(*a);
                out.push(*b);
                out.push(*c);
            },
            ByteOperation::Rot(a, b, c) => {
                out.push(*a);
                out.push(*b);
                out.push(*c);
            },
            ByteOperation::Range(a) => {
                out.push(*a);
            },
        }
        assert(out@ =~= self.fields());
        out
    }
}

/// The field `i` of an operation on bytes, or zero where it has none.
pub open spec fn field_or_zero(f: Seq<u8>, i: int) -> int {
    if 0 <= i < f.len() {
        f[i] as int
    } else {
        0
    }
}

impl ByteOperation<u8> {
    /// The digest of the operation.
    pub open spec fn digest(self) -> int {
        digest_of(
            opcode_of(self.kind()),
            field_or_zero(self.fields(), 0),
            field_or_zero(self.fields(), 1),
            field_or_zero(self.fields(), 2),
        )
    }

    /// Whether the result that the operation names is the result of its kind
    /// on its operands.
    pub open spec fn consistent(self) -> bool {
        match self.output() {
            Some(c) => c == byte_result(
                self.kind(),
                self.first(),
                match self.second() {
                    Some(b) => b,
                    None => 0u8,
                },
            ),
            None => true,
        }
    }

    /// The digest of the operation, which fits in 32 bits.
    pub fn lookup_digest_value(&self) -> (r: u32)
        ensures
            r == self.digest(),
    {
        let kind = self.get_kind();
        let f = self.get_fields();
        let x: u32 = f[0] as u32;
        let y: u32 = if f.len() > 1 {
            f[1] as u32
        } else {
            0
        };
        let z: u32 = if f.len() > 2 {
            f[2] as u32
        } else {
            0
        };
        kind.opcode() as u32 + 256 * x + 65536 * y + 16777216 * z
    }

    /// Executable form of `consistent`.
    pub fn is_consistent(&self) -> (r: bool)
        ensures
            r == self.consistent(),
    {
        match self {
            ByteOperation::And(a, b, c) => *c == compute_byte_result(ByteOpKind::And, *a, *b),
            ByteOperation::Xor(a, b, c) => *c == compute_byte_result(ByteOpKind::Xor, *a, *b),
            ByteOperation::Or(a, b, c) => *c == compute_byte_result(ByteOpKind::Or, *a, *b),
            ByteOperation::Not(a, c) => *c == compute_byte_result(ByteOpKind::Not, *a, 0),
            ByteOperation::Shr(a, b, c) => *c == compute_byte_result(ByteOpKind::Shr, *a, *b),
            ByteOperation::Rot(a, b, c) => *c == compute_byte_result(ByteOpKind::Rot, *a, *b),
            ByteOperation::Range(_) => true,
        }
    }
}

/// The digest of an operation of the given kind with first operand `a`,
/// second operand `b` and result `c`; an operand or result that the kind has
/// not is left out.
pub open spec fn packed_digest(kind: ByteOpKind, a: int, b: int, c: int) -> int {
    match kind {
        ByteOpKind::Not => digest_of(opcode_of(kind), a, c, 0),
        ByteOpKind::Range => digest_of(opcode_of(kind), a, 0, 0),
        _ => digest_of(opcode_of(kind), a, b, c),
    }
}

/// The digest of an operation on bytes, from its operands and result.
pub proof fn lemma_digest_packed(op: ByteOperation<u8>)
    ensures
        op.digest() == packed_digest(
            op.kind(),
            op.first() as int,
            match op.second() {
                Some(b) => b as int,
                None => 0,
            },
            match op.output() {
                Some(c) => c as int,
                None => 0,
            },
        ),
        0 <= op.digest() < 0x1_0000_0000,
{
}

/// The digest is a fingerprint: two operations on bytes with one digest are
/// the same operation on the same bytes.
pub proof fn lemma_digest_injective(x: ByteOperation<u8>, y: ByteOperation<u8>)
    requires
        x.digest() == y.digest(),
    ensures
        x == y,
{
    let dx = x.digest();
    let fx = x.fields();
    let fy = y.fields();
    // the opcode is the lowest byte of the digest, the fields are the others
    assert(dx % 256 == opcode_of(x.kind()));
    assert(dx % 256 == opcode_of(y.kind()));
    assert(x.kind() == y.kind());
    assert((dx / 256) % 256 == field_or_zero(fx, 0));
    assert((dx / 256) % 256 == field_or_zero(fy, 0));
    assert((dx / 65536) % 256 == field_or_zero(fx, 1));
    assert((dx / 65536) % 256 == field_or_zero(fy, 1));
    assert(dx / 16777216 == field_or_zero(fx, 2));
    assert(dx / 16777216 == field_or_zero(fy, 2));
}

/// The bytes of a digest: the opcode is the lowest, the fields are the others.
pub proof fn lemma_digest_bytes(op: ByteOperation<u8>)
    ensures
        0 <= op.digest() < 0x1_0000_0000,
        op.digest() % 256 == opcode_of(op.kind()),
        (op.digest() / 256) % 256 == field_or_zero(op.fields(), 0),
        (op.digest() / 65536) % 256 == field_or_zero(op.fields(), 1),
        op.digest() / 16777216 == field_or_zero(op.fields(), 2),
{
}

/// The operation of the kind with the given opcode on the given bytes, if
/// there is such a kind.
fn operation_with(opcode: u8, x: u8, y: u8, z: u8) -> (r: Option<ByteOperation<u8>>)
    ensures
        r matches Some(op) ==> {
            &&& opcode_of(op.kind()) == opcode
            &&& op.first() == x
            &&& op.fields().len() > 1 ==> op.fields()[1] == y
            &&& op.fields().len() > 2 ==> op.fields()[2] == z
        },
        r is None ==> forall|kind: ByteOpKind| opcode_of(kind) != opcode,
{
    if opcode == OPCODE_AND {
        Some(ByteOperation::And(x, y, z))
    } else if opcode == OPCODE_XOR {
        Some(ByteOperation::Xor(x, y, z))
    } else if opcode == OPCODE_OR {
        Some(ByteOperation::Or(x, y, z))
    } else if opcode == OPCODE_SHR {
        Some(ByteOperation::Shr(x, y, z))
    } else if opcode == OPCODE_ROT {
        Some(ByteOperation::Rot(x, y, z))
    } else if opcode == OPCODE_NOT {
        Some(ByteOperation::Not(x, y))
    } else if opcode == OPCODE_RANGE {
        Some(ByteOperation::Range(x))
    } else {
        None
    }
}

/// The operation on bytes that has the digest `d`, if there is one.
pub fn decode_digest(d: u32) -> (r: Option<ByteOperation<u8>>)
    ensures
        r matches Some(op) ==> op.digest() == d,
        r is None ==> forall|op: ByteOperation<u8>| #[trigger] op.digest() != d,
{
    let opcode: u8 = (d % 256) as u8;
    let x: u8 = ((d / 256) % 256) as u8;
    let y: u8 = ((d / 65536) % 256) as u8;
    let z: u8 = (d / 16777216) as u8;
    let candidate = operation_with(opcode, x, y, z);
    let r = match candidate {
        Some(op) => if op.lookup_digest_value() == d {
            Some(op)
        } else {
            None
        },
        None => None,
    };
    proof {
        if r is None {
            assert forall|op: ByteOperation<u8>| #[trigger] op.digest() != d by {
                if op.digest() == d {
                    lemma_digest_bytes(op);
                    assert(opcode_of(op.kind()) == opcode);
                    let c = candidate->Some_0;
                    assert(c.kind() == op.kind());
                    assert(c == op);
                }
            }
        }
    }
    r
}

/// Whether `d` is the digest of an entry of the table of operations: of an
/// operation on bytes with the result of its kind on its operands.
pub fn in_table(d: u32) -> (r: bool)
    ensures
        r == exists|op: ByteOperation<u8>| op.consistent() && #[trigger] op.digest() == d,
{
    match decode_digest(d) {
        Some(op) => {
            let ok = op.is_consistent();
            proof {
                if !ok {
                    assert forall|other: ByteOperation<u8>|
                        other.consistent() implies #[trigger] other.digest() != d by {
                        if other.digest() == d {
                            lemma_digest_injective(other, op);
                        }
                    }
                }
            }
            ok
        },
        None => false,
    }
}

/// The one cell of a register of one column.
pub open spec fn cell_of(w: RowView, s: MemorySlice) -> int {
    w.cell(s, 0)
}

impl ByteOperation<ByteRegister> {
    /// The columns of the operands.
    pub open spec fn inputs(self) -> Seq<MemorySlice> {
        match self.second() {
            Some(b) => seq![self.first().slice, b.slice],
            None => seq![self.first().slice],
        }
    }

    /// The columns of the result, if the operation has one.
    pub open spec fn outputs(self) -> Seq<MemorySlice> {
        match self.output() {
            Some(c) => seq![c.slice],
            None => Seq::empty(),
        }
    }

    /// The first operand that a row holds, as a byte.
    pub open spec fn a_byte(self, w: RowView) -> u8 {
        (cell_of(w, self.first().slice) % 256) as u8
    }

    /// The second operand that a row holds, as a byte, or zero if the
    /// operation has none.
    pub open spec fn b_byte(self, w: RowView) -> u8 {
        match self.second() {
            Some(b) => (cell_of(w, b.slice) % 256) as u8,
            None => 0,
        }
    }

    /// The result of the operation on the operands that a row holds.
    pub open spec fn result_at(self, w: RowView) -> u8 {
        byte_result(self.kind(), self.a_byte(w), self.b_byte(w))
    }

    /// The digest of the operation on the operands that a row holds, with its
    /// result.
    pub open spec fn digest_at(self, w: RowView) -> int {
        packed_digest(
            self.kind(),
            self.a_byte(w) as int,
            self.b_byte(w) as int,
            self.result_at(w) as int,
        )
    }

    /// The cell that a row holds for field `i`, or zero where the operation
    /// has no such field.
    pub open spec fn cell_or_zero(self, w: RowView, i: int) -> int {
        if 0 <= i < self.fields().len() {
            cell_of(w, self.fields()[i].slice)
        } else {
            0
        }
    }

    /// The digest that the cells of a row spell, as they are.
    pub open spec fn digest_of_cells(self, w: RowView) -> int {
        digest_of(
            opcode_of(self.kind()),
            self.cell_or_zero(w, 0),
            self.cell_or_zero(w, 1),
            self.cell_or_zero(w, 2),
        )
    }

    /// The columns of the fields, in order.
    pub open spec fn slices(self) -> Seq<MemorySlice> {
        Seq::new(self.fields().len(), |i: int| self.fields()[i].slice)
    }

    /// Whether every operand that a row holds is a byte.
    pub open spec fn operands_in_range(self, w: RowView) -> bool {
        &&& 0 <= cell_of(w, self.first().slice) < 256
        &&& match self.second() {
            Some(b) => 0 <= cell_of(w, b.slice) < 256,
            None => true,
        }
    }

    /// Whether each operand is one cell that the trace has at `row`.
    pub open spec fn inputs_admitted(self, t: TraceView, row: Option<usize>) -> bool {
        forall|i: int|
            0 <= i < self.inputs().len() ==> t.admits(#[trigger] self.inputs()[i], row)
                && self.inputs()[i].len == 1
    }

    /// The columns of the operands.
    pub fn input_slices(&self) -> (r: Vec<MemorySlice>)
        ensures
            r@ == self.inputs(),
    {
        let f = self.get_fields();
        let kind = self.get_kind();
        let mut out: Vec<MemorySlice> = Vec::new();
        out.push(f[0].slice);
        match kind {
            ByteOpKind::Not | ByteOpKind::Range => {},
            _ => {
                out.push(f[1].slice);
            },
        }
        assert(out@ =~= self.inputs());
        out
    }

    /// The columns of the result, if the operation has one.
    pub fn output_slices(&self) -> (r: Vec<MemorySlice>)
        ensures
            r@ == self.outputs(),
    {
        let f = self.get_fields();
        let kind = self.get_kind();
        let mut out: Vec<MemorySlice> = Vec::new();
        match kind {
            ByteOpKind::Range => {},
            ByteOpKind::Not => {
                out.push(f[1].slice);
            },
            _ => {
                out.push(f[2].slice);
            },
        }
        assert(out@ =~= self.outputs());
        out
    }

    /// The operation on the bytes that the trace holds at `row`, with the
    /// result computed from them. A cell that is no byte counts by its
    /// remainder modulo 256. Fails if an operand is not one cell of the trace.
    pub fn read_value(&self, handle: &TraceHandle, row: Option<usize>) -> (r: Result<
        ByteOperation<u8>,
        WitnessError,
    >)
        requires
            handle.wf(),
        ensures
            r is Ok <==> self.inputs_admitted(handle@, row),
            r is Err ==> r == Err::<ByteOperation<u8>, WitnessError>(WitnessError::OutOfBounds),
            r matches Ok(v) ==> {
                let w = handle@.view_at(row);
                &&& v.kind() == self.kind()
                &&& v.first() == self.a_byte(w)
                &&& (v.second() matches Some(b) ==> b == self.b_byte(w))
                &&& v.second() is Some == self.second() is Some
                &&& (v.output() matches Some(c) ==> c == self.result_at(w))
                &&& v.output() is Some == self.output() is Some
                &&& v.consistent()
                &&& v.digest() == self.digest_at(w)
            },
    {
        let ins = self.input_slices();
        let kind = self.get_kind();
        let ghost w = handle@.view_at(row);
        let mut bytes: Vec<u8> = Vec::new();
        let mut i: usize = 0;
        while i < ins.len()
            invariant
                i <= ins@.len(),
                ins@ == self.inputs(),
                handle.wf(),
                w == handle@.view_at(row),
                bytes@.len() == i,
                forall|j: int|
                    0 <= j < i ==> handle@.admits(#[trigger] ins@[j], row) && ins@[j].len == 1,
                forall|j: int|
                    0 <= j < i ==> (#[trigger] bytes@[j]) as int == cell_of(w, ins@[j]) % 256,
            decreases ins.len() - i,
        {
            if ins[i].len != 1 {
                return Err(WitnessError::OutOfBounds);
            }
            let cells = match handle.read(&ins[i], row) {
                Some(c) => c,
                None => {
                    return Err(WitnessError::OutOfBounds);
                },
            };
            assert(w.values(ins@[i as int]).len() == 1);
            assert(felts(cells@).len() == cells@.len());
            let v: u64 = cells[0].as_canonical_u64();
            assert(w.values(ins@[i as int])[0] == cell_of(w, ins@[i as int]));
            assert(felts(cells@)[0] == cells@[0]@);
            bytes.push((v % 256) as u8);
            i += 1;
        }
        let a: u8 = bytes[0];
        let b: u8 = if bytes.len() > 1 {
            bytes[1]
        } else {
            0
        };
        let c: u8 = compute_byte_result(kind, a, b);
        let v = rebuild_operation(kind, a, b, c);
        proof {
            lemma_digest_packed(v);
        }
        Ok(v)
    }
}

/// The operation of the given kind on `a`, on `b` where the kind takes a
/// second operand, with result `c` where the kind has one.
pub fn rebuild_operation<U: Copy>(kind: ByteOpKind, a: U, b: U, c: U) -> (r: ByteOperation<U>)
    ensures
        r == (match kind {
            ByteOpKind::And => ByteOperation::And(a, b, c),
            ByteOpKind::Xor => ByteOperation::Xor(a, b, c),
            ByteOpKind::Or => ByteOperation::Or(a, b, c),
            ByteOpKind::Not => ByteOperation::Not(a, c),
            ByteOpKind::Shr => ByteOperation::Shr(a, b, c),
            ByteOpKind::Rot => ByteOperation::Rot(a, b, c),
            ByteOpKind::Range => ByteOperation::Range(a),
        }),
        r.kind() == kind,
        r.first() == a,
        r.second() == (if kind.binary() {
            Some(b)
        } else {
            None
        }),
        r.output() == (if kind.has_result() {
            Some(c)
        } else {
            None
        }),
{
    match kind {
        ByteOpKind::And => ByteOperation::And(a, b, c),
        ByteOpKind::Xor => ByteOperation::Xor(a, b, c),
        ByteOpKind::Or => ByteOperation::Or(a, b, c),
        ByteOpKind::Not => ByteOperation::Not(a, c),
        ByteOpKind::Shr => ByteOperation::Shr(a, b, c),
        ByteOpKind::Rot => ByteOperation::Rot(a, b, c),
        ByteOpKind::Range => ByteOperation::Range(a),
    }
}

/// A handle on a trace that writes at one row, or at no row: then only the
/// public and the global vector can be written.
pub struct AirWriter<'a> {
    pub handle: &'a mut TraceHandle,
    pub row: Option<usize>,
}

impl TraceHandle {
    /// A handle that writes at row `i`.
    pub fn window_writer(&mut self, i: usize) -> (w: AirWriter<'_>)
        ensures
            w.row == Some(i),
            *w.handle == *old(self),
            *final(self) == *final(w.handle),
    {
        AirWriter { handle: self, row: Some(i) }
    }

    /// A handle that writes the public and the global vector.
    pub fn public_writer(&mut self) -> (w: AirWriter<'_>)
        ensures
            w.row == None::<usize>,
            *w.handle == *old(self),
            *final(self) == *final(w.handle),
    {
        AirWriter { handle: self, row: None }
    }

    /// Writes one value to a register of one column at a row.
    pub fn write_register(&mut self, register: &MemorySlice, value: Felt, row_index: usize) -> (r:
        Result<(), WitnessError>)
        requires
            old(self).wf(),
        ensures
            final(self).wf(),
            r is Ok <==> old(self)@.admits(*register, Some(row_index)) && register.len == 1,
            r is Ok ==> final(self)@ == old(self)@.write(*register, Some(row_index), seq![value@]),
            r is Err ==> r == Err::<(), WitnessError>(WitnessError::OutOfBounds) && final(self)@
                == old(self)@,
    {
        let mut values: Vec<Felt> = Vec::new();
        values.push(value);
        assert(felts(values@) =~= seq![value@]);
        self.write(register, &values, Some(row_index))
    }

    /// Writes the values of an array of registers at a row.
    pub fn write_array(&mut self, array: &MemorySlice, values: &Vec<Felt>, row_index: usize) -> (r:
        Result<(), WitnessError>)
        requires
            old(self).wf(),
        ensures
            final(self).wf(),
            r is Ok <==> old(self)@.admits(*array, Some(row_index)) && values@.len() == array.len,
            r is Ok ==> final(self)@ == old(self)@.write(*array, Some(row_index), felts(values@)),
            r is Err ==> r == Err::<(), WitnessError>(WitnessError::OutOfBounds) && final(self)@
                == old(self)@,
    {
        self.write(array, values, Some(row_index))
    }
}

impl<'a> AirWriter<'a> {
    /// The row that the handle writes at, if it writes at one.
    pub fn row_index(&self) -> (r: Option<usize>)
        ensures
            r == self.row,
    {
        self.row
    }

    /// The cells of a slice, taken at the row of the handle.
    pub fn read(&self, s: &MemorySlice) -> (r: Option<Vec<Felt>>)
        requires
            self.handle.wf(),
        ensures
            r is Some <==> old(self.handle)@.admits(*s, self.row),
            r matches Some(v) ==> felts(v@) == old(self.handle)@.view_at(self.row).values(*s),
    {
        self.handle.read(s, self.row)
    }

    /// Writes values to the cells of a slice, taken at the row of the handle.
    pub fn write(&mut self, s: &MemorySlice, values: &Vec<Felt>) -> (r: Result<(), WitnessError>)
        requires
            old(self).handle.wf(),
        ensures
            final(self).handle.wf(),
            final(self).row == old(self).row,
            r is Ok <==> old(self).handle@.admits(*s, old(self).row) && values@.len() == s.len,
            r is Ok ==> final(self).handle@ == old(self).handle@.write(
                *s,
                old(self).row,
                felts(values@),
            ),
            r is Err ==> r == Err::<(), WitnessError>(WitnessError::OutOfBounds)
                && final(self).handle@ == old(self).handle@,
    {
        let row = self.row;
        self.handle.write(s, values, row)
    }
}

/// The instruction that writes the result of one operation on bytes and the
/// digest of the operation.
#[derive(Debug)]
pub struct ByteOperationInstruction {
    inner: ByteOperation<ByteRegister>,
    digest: ElementRegister,
    global: bool,
}

impl ByteOperationInstruction {
    /// The operation.
    pub closed spec fn spec_inner(&self) -> ByteOperation<ByteRegister> {
        self.inner
    }

    /// The register that takes the digest.
    pub closed spec fn spec_digest(&self) -> ElementRegister {
        self.digest
    }

    /// Whether the instruction is written at row zero only.
    pub closed spec fn spec_global(&self) -> bool {
        self.global
    }

    /// The instruction made of the given parts.
    pub closed spec fn assemble(
        inner: ByteOperation<ByteRegister>,
        digest: ElementRegister,
        global: bool,
    ) -> ByteOperationInstruction {
        ByteOperationInstruction { inner, digest, global }
    }

    /// The instruction for an operation, with the register that takes its
    /// digest; a global instruction is written at row zero only.
    pub fn new(inner: ByteOperation<ByteRegister>, digest: ElementRegister, global: bool) -> (r:
        ByteOperationInstruction)
        ensures
            r == Self::assemble(inner, digest, global),
            r.spec_inner() == inner,
            r.spec_digest() == digest,
            r.spec_global() == global,
    {
        ByteOperationInstruction { inner, digest, global }
    }

    /// The operation.
    pub fn inner(&self) -> (r: ByteOperation<ByteRegister>)
        ensures
            r == self.spec_inner(),
    {
        self.inner
    }

    /// The register that takes the digest.
    pub fn digest(&self) -> (r: ElementRegister)
        ensures
            r == self.spec_digest(),
    {
        self.digest
    }

    /// Whether the instruction is written at row zero only.
    pub fn is_global(&self) -> (r: bool)
        ensures
            r == self.spec_global(),
    {
        self.global
    }

    /// A copy of the instruction.
    pub fn duplicate(&self) -> (r: ByteOperationInstruction)
        ensures
            r == *self,
    {
        ByteOperationInstruction { inner: self.inner, digest: self.digest, global: self.global }
    }

    /// The registers that the instruction reads: the operands.
    pub open spec fn reads(&self) -> Seq<MemorySlice> {
        self.spec_inner().inputs()
    }

    /// The registers that the instruction writes: the result, if the
    /// operation has one, and the digest.
    pub open spec fn writes(&self) -> Seq<MemorySlice> {
        self.spec_inner().outputs().push(self.spec_digest().slice)
    }

    /// What the instruction writes on a row, register by register.
    pub open spec fn outputs_at(&self, w: RowView) -> Seq<Seq<int>> {
        let d = seq![self.spec_inner().digest_at(w)];
        match self.spec_inner().output() {
            Some(_) => seq![seq![self.spec_inner().result_at(w) as int], d],
            None => seq![d],
        }
    }

    /// Whether the instruction leaves `row` alone: it is global and the row is
    /// not the first.
    pub open spec fn skips(&self, row: Option<usize>) -> bool {
        self.spec_global() && match row {
            Some(r) => r != 0,
            None => false,
        }
    }

    /// The trace after the instruction was written at `row`, or why it cannot
    /// be.
    pub open spec fn step(&self, t: TraceView, row: Option<usize>) -> Result<
        TraceView,
        WitnessError,
    > {
        if self.skips(row) {
            Ok(t)
        } else if !self.spec_inner().inputs_admitted(t, row) {
            Err(WitnessError::OutOfBounds)
        } else if !t.admits_all(self.writes(), row, self.outputs_at(t.view_at(row))) {
            Err(WitnessError::OutOfBounds)
        } else {
            Ok(t.write_all(self.writes(), row, self.outputs_at(t.view_at(row))))
        }
    }

    /// The value of the constraint at a row: the digest cell less the digest
    /// that the cells of the operation spell, in the field.
    pub open spec fn residue(&self, w: RowView) -> int {
        fsub(cell_of(w, self.spec_digest().slice), self.spec_inner().digest_of_cells(w))
    }

    /// Whether every register of the instruction is one cell within regions of
    /// the given lengths.
    pub open spec fn within(&self, len_of: spec_fn(RegionKind) -> nat) -> bool {
        &&& self.spec_digest().slice.len == 1
        &&& self.spec_digest().slice.end() <= len_of(self.spec_digest().slice.kind)
        &&& forall|i: int|
            0 <= i < self.spec_inner().slices().len()
                ==> (#[trigger] self.spec_inner().slices()[i]).len
                == 1 && self.spec_inner().slices()[i].end() <= len_of(
                self.spec_inner().slices()[i].kind,
            )
    }

    /// Whether every register of the instruction is one cell that the parser
    /// offers.
    pub open spec fn readable<AP: AirParser>(&self, parser: &AP) -> bool {
        self.within(|kind: RegionKind| parser.region_len(kind))
    }

    /// The registers that the instruction reads.
    pub fn input_slices(&self) -> (r: Vec<MemorySlice>)
        ensures
            r@ == self.reads(),
    {
        self.inner.input_slices()
    }

    /// Executable form of `well_placed`.
    pub fn is_well_placed(&self) -> (r: bool)
        ensures
            r == self.well_placed(),
    {
        let rd = self.input_slices();
        let wr = self.output_slices();
        let r = check_pairwise_apart(&wr) && check_none_overlap(&wr, &rd) && check_all_single(&wr)
            && check_all_single(&rd);
        proof {
            if r {
                assert(self.well_placed());
            }
            if self.well_placed() {
                assert(none_overlap(wr@, rd@));
                assert(all_single(wr@));
                assert(all_single(rd@));
            }
        }
        r
    }

    /// The registers that the instruction writes.
    pub fn output_slices(&self) -> (r: Vec<MemorySlice>)
        ensures
            r@ == self.writes(),
    {
        let mut out = self.inner.output_slices();
        out.push(self.digest.slice);
        out
    }

    /// States the constraint of the instruction against a parser: the digest
    /// register equals the digest that the registers of the operation spell.
    /// Fails, and leaves the parser as it was, if a register is not one cell
    /// that the parser offers.
    pub fn eval<AP: AirParser>(&self, parser: &mut AP) -> (r: Result<(), BuildError>)
        ensures
            r is Ok <==> self.readable(old(parser)),
            r is Err ==> r == Err::<(), BuildError>(BuildError::InvalidRegister) && *final(parser)
                == *old(parser),
            forall|w: RowView| final(parser).binds(w) == old(parser).binds(w),
            forall|kind: RegionKind| final(parser).region_len(kind) == old(parser).region_len(kind),
            r is Ok ==> forall|w: RowView|
                #[trigger] old(parser).binds(w)
                    ==> final(parser).residues(w) == old(parser).residues(w).push(self.residue(w)),
    {
        let fields = self.inner.get_fields();
        let kind = self.inner.get_kind();
        let d = self.digest.slice;
        if d.len != 1 || !d.fits(parser.len_of(d.kind)) {
            return Err(BuildError::InvalidRegister);
        }
        let ghost slices = self.inner.slices();
        let mut i: usize = 0;
        while i < fields.len()
            invariant
                i <= fields@.len(),
                fields@ == self.inner.fields(),
                slices == self.inner.slices(),
                *parser == *old(parser),
                forall|j: int|
                    0 <= j < i ==> (#[trigger] slices[j]).len == 1 && slices[j].end()
                        <= parser.region_len(slices[j].kind),
            decreases fields.len() - i,
        {
            let s = fields[i].slice;
            assert(slices[i as int] == s);
            if s.len != 1 || !s.fits(parser.len_of(s.kind)) {
                return Err(BuildError::InvalidRegister);
            }
            i += 1;
        }
        assert(self.readable(parser));
        // opcode + 2^8·x + 2^16·y + 2^24·z, field by field
        let mut acc = parser.constant(Felt::from_canonical_u8(kind.opcode()));
        let mut weight: u32 = 256;
        let mut k: usize = 0;
        while k < fields.len()
            invariant
                k <= fields@.len() <= 3,
                fields@ == self.inner.fields(),
                slices == self.inner.slices(),
                *parser == *old(parser),
                self.readable(parser),
                weight == (if k == 0 {
                    256int
                } else if k == 1 {
                    65536
                } else if k == 2 {
                    16777216
                } else {
                    1
                }),
                forall|w: RowView|
                    #[trigger] parser.binds(w) ==> crate::field::congruent(
                        AP::denote(acc, w),
                        digest_of(
                            opcode_of(self.inner.kind()),
                            if k > 0 {
                                self.inner.cell_or_zero(w, 0)
                            } else {
                                0
                            },
                            if k > 1 {
                                self.inner.cell_or_zero(w, 1)
                            } else {
                                0
                            },
                            if k > 2 {
                                self.inner.cell_or_zero(w, 2)
                            } else {
                                0
                            },
                        ),
                    ),
            decreases fields.len() - k,
        {
            let s = fields[k].slice;
            assert(slices[k as int] == s);
            let cell = read_cell(&*parser, &s, 0);
            let factor = parser.constant(Felt::from_canonical_u32(weight));
            let term = parser.mul(&factor, &cell);
            let sum = parser.add(&acc, &term);
            assert forall|w: RowView| #[trigger] parser.binds(w) implies crate::field::congruent(
                AP::denote(sum, w),
                digest_of(
                    opcode_of(self.inner.kind()),
                    if k + 1 > 0 {
                        self.inner.cell_or_zero(w, 0)
                    } else {
                        0
                    },
                    if k + 1 > 1 {
                        self.inner.cell_or_zero(w, 1)
                    } else {
                        0
                    },
                    if k + 1 > 2 {
                        self.inner.cell_or_zero(w, 2)
                    } else {
                        0
                    },
                ),
            ) by {
                let c = self.inner.cell_or_zero(w, k as int);
                assert(AP::denote(cell, w) == c);
                let before = digest_of(
                    opcode_of(self.inner.kind()),
                    if k > 0 {
                        self.inner.cell_or_zero(w, 0)
                    } else {
                        0
                    },
                    if k > 1 {
                        self.inner.cell_or_zero(w, 1)
                    } else {
                        0
                    },
                    if k > 2 {
                        self.inner.cell_or_zero(w, 2)
                    } else {
                        0
                    },
                );
                lemma_mod_congruent(weight * c);
                lemma_fadd_congruent(
                    AP::denote(acc, w),
                    before,
                    crate::field::fmul(weight as int, c),
                    weight * c,
                );
                lemma_mod_congruent(before + weight * c);
            }
            acc = sum;
            if k < 2 {
                weight = weight * 256;
            } else {
                weight = 1;
            }
            k += 1;
        }
        let dv = read_cell(&*parser, &d, 0);
        let res = parser.sub(&dv, &acc);
        assert forall|w: RowView| #[trigger] parser.binds(w) implies AP::denote(res, w)
            == self.residue(w) by {
            let x = cell_of(w, self.digest.slice);
            lemma_fsub_congruent(x, x, AP::denote(acc, w), self.inner.digest_of_cells(w));
        }
        parser.constraint(&res);
        Ok(())
    }

    /// Writes the instruction at `row`: the result of the operation on the
    /// operands that the trace holds there, and the digest of the operation.
    /// A global instruction leaves every row but the first as it is. Fails,
    /// and leaves the trace as it was, if a register is not one cell of the
    /// trace.
    pub fn write_at(&self, handle: &mut TraceHandle, row: Option<usize>) -> (r: Result<
        (),
        WitnessError,
    >)
        requires
            old(handle).wf(),
        ensures
            final(handle).wf(),
            match r {
                Ok(_) => self.step(old(handle)@, row) == Ok::<TraceView, WitnessError>(
                    final(handle)@,
                ),
                Err(e) => {
                    &&& self.step(old(handle)@, row) == Err::<TraceView, WitnessError>(e)
                    &&& final(handle)@ == old(handle)@
                },
            },
    {
        if self.global {
            match row {
                Some(r) => {
                    if r != 0 {
                        return Ok(());
                    }
                },
                None => {},
            }
        }
        let value = match self.inner.read_value(&*handle, row) {
            Ok(v) => v,
            Err(e) => {
                return Err(e);
            },
        };
        let digest = Felt::from_canonical_u32(value.lookup_digest_value());
        let slices = self.output_slices();
        let mut values: Vec<Vec<Felt>> = Vec::new();
        match value {
            ByteOperation::And(_, _, c) | ByteOperation::Xor(_, _, c) | ByteOperation::Or(_, _, c)
            | ByteOperation::Shr(_, _, c) | ByteOperation::Rot(_, _, c) | ByteOperation::Not(
                _,
                c,
            ) => {
                let mut one: Vec<Felt> = Vec::new();
                one.push(Felt::from_canonical_u8(c));
                values.push(one);
            },
            ByteOperation::Range(_) => {},
        }
        let mut last: Vec<Felt> = Vec::new();
        last.push(digest);
        values.push(last);
        proof {
            let w = handle@.view_at(row);
            let want = self.outputs_at(w);
            let got = felts_all(values@);
            assert(got.len() == want.len());
            assert forall|i: int| 0 <= i < got.len() implies got[i] =~= want[i] by {}
            assert(got =~= want);
        }
        handle.write_all(&slices, &values, row)
    }

    /// Writes the instruction at a row. A global instruction leaves every row
    /// but the first as it is.
    pub fn write(&self, writer: &mut TraceHandle, row_index: usize) -> (r: Result<
        (),
        WitnessError,
    >)
        requires
            old(writer).wf(),
        ensures
            final(writer).wf(),
            match r {
                Ok(_) => self.step(old(writer)@, Some(row_index)) == Ok::<TraceView, WitnessError>(
                    final(writer)@,
                ),
                Err(e) => {
                    &&& self.step(old(writer)@, Some(row_index)) == Err::<TraceView, WitnessError>(
                        e,
                    )
                    &&& final(writer)@ == old(writer)@
                },
            },
    {
        self.write_at(writer, Some(row_index))
    }

    /// Writes the instruction at the row of a handle, or, through a handle on
    /// no row, to the public and global vectors.
    pub fn write_to_air(&self, writer: &mut AirWriter) -> (r: Result<(), WitnessError>)
        requires
            old(writer).handle.wf(),
        ensures
            final(writer).handle.wf(),
            final(writer).row == old(writer).row,
            match r {
                Ok(_) => self.step(old(writer).handle@, old(writer).row) == Ok::<
                    TraceView,
                    WitnessError,
                >(final(writer).handle@),
                Err(e) => {
                    &&& self.step(old(writer).handle@, old(writer).row) == Err::<
                        TraceView,
                        WitnessError,
                    >(e)
                    &&& final(writer).handle@ == old(writer).handle@
                },
            },
    {
        let row = writer.row;
        self.write_at(writer.handle, row)
    }

    /// What the instruction writes at `row`, register by register.
    pub open spec fn computed(&self, t: TraceView, row: Option<usize>) -> Seq<Seq<int>> {
        self.outputs_at(t.view_at(row))
    }

    /// Whether every register of the instruction is one cell, and no register
    /// that the instruction writes has a cell in common with another register
    /// of the instruction.
    pub open spec fn well_placed(&self) -> bool {
        &&& pairwise_apart(self.writes())
        &&& forall|i: int, j: int|
            #![trigger self.writes()[i], self.reads()[j]]
            0 <= i < self.writes().len() && 0 <= j < self.reads().len()
                ==> !self.writes()[i].overlaps(&self.reads()[j])
        &&& forall|i: int| 0 <= i < self.writes().len() ==> (#[trigger] self.writes()[i]).len == 1
        &&& forall|j: int| 0 <= j < self.reads().len() ==> (#[trigger] self.reads()[j]).len == 1
    }

    /// The value of the constraint at a row depends only on the registers of
    /// the instruction.
    pub proof fn lemma_residue_frame(&self, w: RowView, w2: RowView)
        requires
            self.well_placed(),
            forall|j: int|
                0 <= j < self.reads().len() ==> w.values(#[trigger] self.reads()[j]) == w2.values(
                    self.reads()[j],
                ),
            forall|i: int|
                0 <= i < self.writes().len() ==> w.values(#[trigger] self.writes()[i])
                    == w2.values(self.writes()[i]),
        ensures
            self.residue(w) == self.residue(w2),
            self.spec_inner().operands_in_range(w) == self.spec_inner().operands_in_range(w2),
    {
        let op = self.spec_inner();
        let rd = self.reads();
        let wr = self.writes();
        assert forall|j: int| 0 <= j < rd.len() implies cell_of(w, #[trigger] rd[j]) == cell_of(
            w2,
            rd[j],
        ) by {
            assert(rd[j].len == 1);
            assert(w.values(rd[j])[0] == w2.values(rd[j])[0]);
        }
        assert forall|i: int| 0 <= i < wr.len() implies cell_of(w, #[trigger] wr[i]) == cell_of(
            w2,
            wr[i],
        ) by {
            assert(wr[i].len == 1);
            assert(w.values(wr[i])[0] == w2.values(wr[i])[0]);
        }
        assert(cell_of(w, rd[0]) == cell_of(w2, rd[0]));
        assert(cell_of(w, wr[wr.len() - 1]) == cell_of(w2, wr[wr.len() - 1]));
        if op.second() is Some {
            assert(cell_of(w, rd[1]) == cell_of(w2, rd[1]));
        }
        if op.output() is Some {
            assert(cell_of(w, wr[0]) == cell_of(w2, wr[0]));
        }
    }

    /// Whether the operands are bytes depends only on the registers that the
    /// instruction reads.
    pub proof fn lemma_ready_frame(&self, w: RowView, w2: RowView)
        requires
            self.well_placed(),
            forall|j: int|
                0 <= j < self.reads().len() ==> w.values(#[trigger] self.reads()[j]) == w2.values(
                    self.reads()[j],
                ),
        ensures
            self.spec_inner().operands_in_range(w) == self.spec_inner().operands_in_range(w2),
    {
        let op = self.spec_inner();
        let rd = self.reads();
        assert forall|j: int| 0 <= j < rd.len() implies cell_of(w, #[trigger] rd[j]) == cell_of(
            w2,
            rd[j],
        ) by {
            assert(rd[j].len == 1);
            assert(w.values(rd[j])[0] == w2.values(rd[j])[0]);
        }
        assert(cell_of(w, rd[0]) == cell_of(w2, rd[0]));
        if op.second() is Some {
            assert(cell_of(w, rd[1]) == cell_of(w2, rd[1]));
        }
    }

    /// What a successful write is, unless the row is left alone: the computed
    /// values, written to the registers that the instruction writes.
    pub proof fn lemma_step_writes(&self, t: TraceView, row: Option<usize>)
        requires
            self.step(t, row) is Ok,
            !self.skips(row),
        ensures
            self.spec_inner().inputs_admitted(t, row),
            t.admits_all(self.writes(), row, self.computed(t, row)),
            self.step(t, row) == Ok::<TraceView, WitnessError>(
                t.write_all(self.writes(), row, self.computed(t, row)),
            ),
    {
    }

    /// Constraint vanishing after a write: once the instruction was written at
    /// a row whose operands are bytes, its constraint is zero there.
    pub proof fn lemma_step_sound(&self, t: TraceView, row: Option<usize>)
        requires
            t.wf(),
            self.well_placed(),
            self.step(t, row) is Ok,
            !self.skips(row),
            self.spec_inner().operands_in_range(t.view_at(row)),
        ensures
            self.residue(self.step(t, row).unwrap().view_at(row)) == 0,
    {
        self.lemma_step_writes(t, row);
        let op = self.spec_inner();
        let w = t.view_at(row);
        let rd = self.reads();
        let wr = self.writes();
        let outs = self.computed(t, row);
        let t2 = t.write_all(wr, row, outs);
        let w2 = t2.view_at(row);
        assert forall|j: int| 0 <= j < rd.len() implies cell_of(w2, #[trigger] rd[j]) == cell_of(
            w,
            rd[j],
        ) by {
            assert forall|i: int| 0 <= i < wr.len() implies t.apart(
                #[trigger] wr[i],
                row,
                rd[j],
                row,
            ) by {
                assert(!wr[i].overlaps(&rd[j]));
            }
            assert(t.admits(rd[j], row));
            lemma_write_all_other(t, wr, row, outs, rd[j], row);
            assert(rd[j].len == 1);
            assert(w2.values(rd[j])[0] == w.values(rd[j])[0]);
        }
        assert(cell_of(w2, rd[0]) == cell_of(w, rd[0]));
        if op.second() is Some {
            assert(cell_of(w2, rd[1]) == cell_of(w, rd[1]));
        }
        assert forall|i: int| 0 <= i < wr.len() implies cell_of(w2, #[trigger] wr[i])
            == outs[i][0] by {
            lemma_write_all_same(t, wr, row, outs, i);
            assert(wr[i].len == 1);
            assert(w2.values(wr[i])[0] == cell_of(w2, wr[i]));
        }
        assert(cell_of(w2, wr[wr.len() - 1]) == outs[wr.len() - 1][0]);
        if op.output() is Some {
            assert(cell_of(w2, wr[0]) == outs[0][0]);
        }
        assert(op.a_byte(w2) == op.a_byte(w));
        assert(op.b_byte(w2) == op.b_byte(w));
        self.lemma_constraint_vanishes(w2);
    }

    /// Lookup agreement: once the instruction was written at a row, the digest
    /// cell holds the digest of the operation on the bytes of its operands,
    /// with the result of its kind on them, and the result cell holds that
    /// result.
    pub proof fn lemma_digest_written(&self, t: TraceView, row: Option<usize>)
        requires
            t.wf(),
            self.well_placed(),
            self.step(t, row) is Ok,
            !self.skips(row),
        ensures
            ({
                let op = self.spec_inner();
                let w = t.view_at(row);
                let w2 = self.step(t, row).unwrap().view_at(row);
                let a = (cell_of(w, op.first().slice) % 256) as u8;
                let b = match op.second() {
                    Some(r) => (cell_of(w, r.slice) % 256) as u8,
                    None => 0u8,
                };
                let c = byte_result(op.kind(), a, b);
                &&& cell_of(w2, self.spec_digest().slice) == packed_digest(
                    op.kind(),
                    a as int,
                    b as int,
                    c as int,
                )
                &&& op.output() matches Some(r) ==> cell_of(w2, r.slice) == c
            }),
    {
        self.lemma_step_writes(t, row);
        let op = self.spec_inner();
        let wr = self.writes();
        let outs = self.computed(t, row);
        let t2 = t.write_all(wr, row, outs);
        let w2 = t2.view_at(row);
        assert forall|i: int| 0 <= i < wr.len() implies cell_of(w2, #[trigger] wr[i])
            == outs[i][0] by {
            lemma_write_all_same(t, wr, row, outs, i);
            assert(wr[i].len == 1);
            assert(w2.values(wr[i])[0] == cell_of(w2, wr[i]));
        }
        assert(cell_of(w2, wr[wr.len() - 1]) == outs[wr.len() - 1][0]);
        if op.output() is Some {
            assert(cell_of(w2, wr[0]) == outs[0][0]);
        }
    }

    /// What a write does depends only on the shape of the trace and on the
    /// operands that it holds.
    pub proof fn lemma_step_congruent(&self, t: TraceView, t2: TraceView, row: Option<usize>)
        requires
            t.wf(),
            t2.wf(),
            t.same_shape(t2),
            forall|j: int|
                0 <= j < self.reads().len() && t.admits(#[trigger] self.reads()[j], row)
                    && self.reads()[j].len == 1 ==> t.view_at(row).values(self.reads()[j])
                    == t2.view_at(row).values(self.reads()[j]),
        ensures
            self.step(t, row) is Ok <==> self.step(t2, row) is Ok,
            self.step(t, row) matches Err(e) ==> self.step(t2, row) == Err::<
                TraceView,
                WitnessError,
            >(e),
            self.step(t, row) is Ok && !self.skips(row) ==> self.computed(t, row) == self.computed(
                t2,
                row,
            ),
    {
        let op = self.spec_inner();
        let rd = self.reads();
        let w = t.view_at(row);
        let w2 = t2.view_at(row);
        if !self.skips(row) {
            assert forall|j: int| 0 <= j < rd.len() implies t.admits(#[trigger] rd[j], row)
                == t2.admits(rd[j], row) by {}
            assert(op.inputs_admitted(t, row) == op.inputs_admitted(t2, row));
            if op.inputs_admitted(t, row) {
                assert forall|j: int| 0 <= j < rd.len() implies cell_of(w, #[trigger] rd[j])
                    == cell_of(w2, rd[j]) by {
                    assert(t.admits(rd[j], row) && rd[j].len == 1);
                    assert(w.values(rd[j])[0] == w2.values(rd[j])[0]);
                }
                assert(cell_of(w, rd[0]) == cell_of(w2, rd[0]));
                if op.second() is Some {
                    assert(cell_of(w, rd[1]) == cell_of(w2, rd[1]));
                }
                assert(self.outputs_at(w) == self.outputs_at(w2));
                let outs = self.outputs_at(w);
                assert forall|i: int| 0 <= i < self.writes().len() implies t.admits(
                    #[trigger] self.writes()[i],
                    row,
                ) == t2.admits(self.writes()[i], row) by {}
                assert(t.admits_all(self.writes(), row, outs) == t2.admits_all(
                    self.writes(),
                    row,
                    outs,
                ));
            }
        }
    }

    /// Lookup soundness: on a row whose cells of the operation are bytes and
    /// whose constraint is zero, if the digest cell holds the digest of an
    /// entry of the table of operations, that is, of an operation on bytes
    /// with the result of its kind, then the entry is the operation on the
    /// cells of the row, and the result cell holds the result of the kind on
    /// the operand cells.
    pub proof fn lemma_lookup_sound(&self, w: RowView, entry: ByteOperation<u8>)
        requires
            self.residue(w) == 0,
            forall|i: int|
                0 <= i < self.spec_inner().fields().len() ==> 0 <= #[trigger] self.spec_inner().cell_or_zero(
                    w,
                    i,
                ) < 256,
            entry.consistent(),
            cell_of(w, self.spec_digest().slice) == entry.digest(),
        ensures
            entry.kind() == self.spec_inner().kind(),
            self.spec_inner().output() matches Some(c) ==> cell_of(w, c.slice) == byte_result(
                self.spec_inner().kind(),
                cell_of(w, self.spec_inner().first().slice) as u8,
                match self.spec_inner().second() {
                    Some(b) => cell_of(w, b.slice) as u8,
                    None => 0u8,
                },
            ),
    {
        let op = self.spec_inner();
        let d = cell_of(w, self.spec_digest().slice);
        let e = op.digest_of_cells(w);
        lemma_digest_packed(entry);
        assert(0 <= op.cell_or_zero(w, 0) < 256);
        assert(0 <= op.cell_or_zero(w, 1) < 256) by {
            if op.fields().len() > 1 {
                assert(0 <= op.cell_or_zero(w, 1) < 256);
            }
        }
        assert(0 <= op.cell_or_zero(w, 2) < 256) by {
            if op.fields().len() > 2 {
                assert(0 <= op.cell_or_zero(w, 2) < 256);
            }
        }
        assert(0 <= e < 0x1_0000_0000);
        // both sides of the constraint are below the order of the field
        assert(d == e) by {
            assert((d - e) % order() == 0);
            assert(-order() < d - e < order());
            if d - e > 0 {
                vstd::arithmetic::div_mod::lemma_small_mod((d - e) as nat, order() as nat);
            } else if d - e < 0 {
                vstd::arithmetic::div_mod::lemma_mod_add_multiples_vanish(d - e, order());
                vstd::arithmetic::div_mod::lemma_small_mod(
                    (d - e + order()) as nat,
                    order() as nat,
                );
            }
        }
        // the cells spell an operation on bytes with the digest of the entry
        let x = op.cell_or_zero(w, 0) as u8;
        let y = op.cell_or_zero(w, 1) as u8;
        let z = op.cell_or_zero(w, 2) as u8;
        let cells: ByteOperation<u8> = match op.kind() {
            ByteOpKind::And => ByteOperation::And(x, y, z),
            ByteOpKind::Xor => ByteOperation::Xor(x, y, z),
            ByteOpKind::Or => ByteOperation::Or(x, y, z),
            ByteOpKind::Not => ByteOperation::Not(x, y),
            ByteOpKind::Shr => ByteOperation::Shr(x, y, z),
            ByteOpKind::Rot => ByteOperation::Rot(x, y, z),
            ByteOpKind::Range => ByteOperation::Range(x),
        };
        assert(cells.digest() == e);
        lemma_digest_injective(cells, entry);
    }

    /// Global-row idempotence: a global instruction changes nothing at any row
    /// but the first.
    pub proof fn lemma_global_noop(&self, t: TraceView, row: usize)
        requires
            self.spec_global(),
            row > 0,
        ensures
            self.step(t, Some(row)) == Ok::<TraceView, WitnessError>(t),
    {
    }

    /// Constraint vanishing: on a row whose operands are bytes, whose result
    /// cell holds the result of the operation and whose digest cell holds the
    /// digest, the constraint of the instruction is zero.
    pub proof fn lemma_constraint_vanishes(&self, w: RowView)
        requires
            self.spec_inner().operands_in_range(w),
            self.spec_inner().output() matches Some(c) ==> cell_of(w, c.slice)
                == self.spec_inner().result_at(w),
            cell_of(w, self.spec_digest().slice) == self.spec_inner().digest_at(w),
        ensures
            self.residue(w) == 0,
    {
        let op = self.spec_inner();
        assert(op.digest_of_cells(w) == op.digest_at(w));
    }
}

} // verus!
