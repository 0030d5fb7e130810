//! Registers: typed names for runs of columns.
//!
//! A `MemorySlice` is a run of columns in one of four regions. A register wraps
//! a slice and fixes how its cells are read: as one field element, a bit, a
//! byte, a 16-bit limb, a little-endian group of bytes, or an array of these.

use core::marker::PhantomData;
use vstd::prelude::*;

verus! {

/// The region that a slice of columns lies in.
#[derive(Clone, Copy, Debug, PartialEq, Eq, Structural)]
pub enum RegionKind {
    /// Columns of the trace, read at the current row.
    Local,
    /// The same columns of the trace, read at the following row.
    Next,
    /// Cells of the public vector, which is no part of the trace.
    Public,
    /// Cells written once and constant over all rows.
    Global,
}

impl RegionKind {
    /// Whether cells of the two regions can coincide: `Local` and `Next` name
    /// the same columns of the trace.
    pub open spec fn same_storage(self, other: RegionKind) -> bool {
        match self {
            RegionKind::Local | RegionKind::Next => other is Local || other is Next,
            RegionKind::Public => other is Public,
            RegionKind::Global => other is Global,
        }
    }

    /// Whether cells of the region belong to a row of the trace.
    pub open spec fn in_trace(self) -> bool {
        self is Local || self is Next
    }

    /// Executable form of `in_trace`.
    pub fn is_trace(&self) -> (r: bool)
        ensures
            r == self.in_trace(),
    {
        match self {
            RegionKind::Local | RegionKind::Next => true,
            _ => false,
        }
    }

    /// Executable form of `same_storage`.
    pub fn shares_storage(&self, other: &RegionKind) -> (r: bool)
        ensures
            r == self.same_storage(*other),
    {
        match self {
            RegionKind::Local | RegionKind::Next => other.is_trace(),
            RegionKind::Public => match other {
                RegionKind::Public => true,
                _ => false,
            },
            RegionKind::Global => match other {
                RegionKind::Global => true,
                _ => false,
            },
        }
    }
}

/// A run of `len` columns from `offset` on, in one region.
#[derive(Clone, Copy, Debug, PartialEq, Eq, Structural)]
pub struct MemorySlice {
    pub kind: RegionKind,
    pub offset: usize,
    pub len: usize,
}

impl MemorySlice {
    /// The slice of `len` columns from `offset` on in region `kind`.
    pub fn new(kind: RegionKind, offset: usize, len: usize) -> (r: MemorySlice)
        ensures
            r == (MemorySlice { kind, offset, len }),
    {
        MemorySlice { kind, offset, len }
    }

    /// One past the last column of the slice.
    pub open spec fn end(&self) -> int {
        self.offset + self.len
    }

    /// Whether the two slices have a cell in common.
    pub open spec fn overlaps(&self, other: &MemorySlice) -> bool {
        &&& self.kind.same_storage(other.kind)
        &&& self.offset < other.end()
        &&& other.offset < self.end()
        &&& self.len > 0
        &&& other.len > 0
    }

    /// Whether the slice lies within the first `width` columns.
    pub open spec fn within(&self, width: int) -> bool {
        self.end() <= width
    }

    /// The same columns, read at the following row. A slice outside the trace
    /// has no following row and is returned as it is.
    pub fn next(&self) -> (r: MemorySlice)
        ensures
            r.offset == self.offset,
            r.len == self.len,
            r.kind == (if self.kind.in_trace() {
                RegionKind::Next
            } else {
                self.kind
            }),
    {
        let kind = match self.kind {
            RegionKind::Local | RegionKind::Next => RegionKind::Next,
            RegionKind::Public => RegionKind::Public,
            RegionKind::Global => RegionKind::Global,
        };
        MemorySlice { kind, offset: self.offset, len: self.len }
    }

    /// Executable form of `overlaps`.
    pub fn intersects(&self, other: &MemorySlice) -> (r: bool)
        ensures
            r == self.overlaps(other),
    {
        if !self.kind.shares_storage(&other.kind) || self.len == 0 || other.len == 0 {
            return false;
        }
        // `a.offset < b.offset + b.len` without forming the sum
        let before_other_end: bool = self.offset < other.offset || self.offset - other.offset
            < other.len;
        let before_self_end: bool = other.offset < self.offset || other.offset - self.offset
            < self.len;
        before_other_end && before_self_end
    }

    /// Executable form of `within`.
    pub fn fits(&self, width: usize) -> (r: bool)
        ensures
            r == self.within(width as int),
    {
        self.offset <= width && self.len <= width - self.offset
    }

    /// The part of the slice made of `len` columns from its `start`-th on.
    pub fn sub_slice(&self, start: usize, len: usize) -> (r: MemorySlice)
        requires
            start + len <= self.len,
            self.offset + self.len <= usize::MAX,
        ensures
            r == (MemorySlice { kind: self.kind, offset: (self.offset + start) as usize, len }),
    {
        MemorySlice { kind: self.kind, offset: self.offset + start, len }
    }
}

/// A typed register of a fixed number of columns.
pub trait Register: Sized {
    /// The number of columns of a register of this type.
    spec fn spec_width() -> nat;

    /// The columns of the register.
    spec fn slice(&self) -> MemorySlice;

    /// The number of columns of a register of this type, which is at least one.
    fn width() -> (w: usize)
        ensures
            w == Self::spec_width(),
            w >= 1,
    ;

    /// The columns of the register.
    fn register(&self) -> (r: MemorySlice)
        ensures
            r == self.slice(),
    ;

    /// The register over the given columns.
    fn from_slice(slice: MemorySlice) -> (r: Self)
        requires
            slice.len == Self::spec_width(),
        ensures
            r.slice() == slice,
    ;
}

/// The register over the same columns, read at the following row. A register
/// outside the trace has no following row and is returned as it is.
pub fn next_register<T: Register>(register: &T) -> (r: Option<T>)
    ensures
        r is Some <==> register.slice().len == T::spec_width(),
        r matches Some(t) ==> t.slice() == (MemorySlice {
            kind: if register.slice().kind.in_trace() {
                RegionKind::Next
            } else {
                register.slice().kind
            },
            offset: register.slice().offset,
            len: register.slice().len,
        }),
{
    let s = register.register();
    if s.len == T::width() {
        Some(T::from_slice(s.next()))
    } else {
        None
    }
}

/// One field element.
#[derive(Clone, Copy, Debug, PartialEq, Eq, Structural)]
pub struct ElementRegister {
    pub slice: MemorySlice,
}

/// One field element constrained to be zero or one.
#[derive(Clone, Copy, Debug, PartialEq, Eq, Structural)]
pub struct BitRegister {
    pub slice: MemorySlice,
}

/// One field element constrained to be below 256.
#[derive(Clone, Copy, Debug, PartialEq, Eq, Structural)]
pub struct ByteRegister {
    pub slice: MemorySlice,
}

/// One field element constrained to be below 65536.
#[derive(Clone, Copy, Debug, PartialEq, Eq, Structural)]
pub struct U16Register {
    pub slice: MemorySlice,
}

/// Four bytes, least significant first.
#[derive(Clone, Copy, Debug, PartialEq, Eq, Structural)]
pub struct U32Register {
    pub slice: MemorySlice,
}

/// Eight bytes, least significant first.
#[derive(Clone, Copy, Debug, PartialEq, Eq, Structural)]
pub struct U64Register {
    pub slice: MemorySlice,
}

impl Register for ElementRegister {
    open spec fn spec_width() -> nat {
        1
    }

    open spec fn slice(&self) -> MemorySlice {
        self.slice
    }

    fn width() -> (w: usize) {
        1
    }

    fn register(&self) -> (r: MemorySlice) {
        self.slice
    }

    fn from_slice(slice: MemorySlice) -> (r: Self) {
        ElementRegister { slice }
    }
}

impl Register for BitRegister {
    open spec fn spec_width() -> nat {
        1
    }

    open spec fn slice(&self) -> MemorySlice {
        self.slice
    }

    fn width() -> (w: usize) {
        1
    }

    fn register(&self) -> (r: MemorySlice) {
        self.slice
    }

    fn from_slice(slice: MemorySlice) -> (r: Self) {
        BitRegister { slice }
    }
}

impl Register for ByteRegister {
    open spec fn spec_width() -> nat {
        1
    }

    open spec fn slice(&self) -> MemorySlice {
        self.slice
    }

    fn width() -> (w: usize) {
        1
    }

    fn register(&self) -> (r: MemorySlice) {
        self.slice
    }

    fn from_slice(slice: MemorySlice) -> (r: Self) {
        ByteRegister { slice }
    }
}

impl Register for U16Register {
    open spec fn spec_width() -> nat {
        1
    }

    open spec fn slice(&self) -> MemorySlice {
        self.slice
    }

    fn width() -> (w: usize) {
        1
    }

    fn register(&self) -> (r: MemorySlice) {
        self.slice
    }

    fn from_slice(slice: MemorySlice) -> (r: Self) {
        U16Register { slice }
    }
}

impl Register for U32Register {
    open spec fn spec_width() -> nat {
        4
    }

    open spec fn slice(&self) -> MemorySlice {
        self.slice
    }

    fn width() -> (w: usize) {
        4
    }

    fn register(&self) -> (r: MemorySlice) {
        self.slice
    }

    fn from_slice(slice: MemorySlice) -> (r: Self) {
        U32Register { slice }
    }
}

impl Register for U64Register {
    open spec fn spec_width() -> nat {
        8
    }

    open spec fn slice(&self) -> MemorySlice {
        self.slice
    }

    fn width() -> (w: usize) {
        8
    }

    fn register(&self) -> (r: MemorySlice) {
        self.slice
    }

    fn from_slice(slice: MemorySlice) -> (r: Self) {
        U64Register { slice }
    }
}

impl U32Register {
    /// The byte of weight `256^i`.
    pub fn byte(&self, i: usize) -> (r: Option<ByteRegister>)
        ensures
            r is Some <==> i < 4 && self.slice.len == 4 && self.slice.end() <= usize::MAX,
            r matches Some(b) ==> b.slice == (MemorySlice {
                kind: self.slice.kind,
                offset: (self.slice.offset + i) as usize,
                len: 1,
            }),
    {
        if i < 4 && self.slice.len == 4 && self.slice.offset <= usize::MAX - 4 {
            Some(ByteRegister { slice: self.slice.sub_slice(i, 1) })
        } else {
            None
        }
    }
}

impl U64Register {
    /// The byte of weight `256^i`.
    pub fn byte(&self, i: usize) -> (r: Option<ByteRegister>)
        ensures
            r is Some <==> i < 8 && self.slice.len == 8 && self.slice.end() <= usize::MAX,
            r matches Some(b) ==> b.slice == (MemorySlice {
                kind: self.slice.kind,
                offset: (self.slice.offset + i) as usize,
                len: 1,
            }),
    {
        if i < 8 && self.slice.len == 8 && self.slice.offset <= usize::MAX - 8 {
            Some(ByteRegister { slice: self.slice.sub_slice(i, 1) })
        } else {
            None
        }
    }
}

/// The limbs of a number below the modulus of a limbed field, least
/// significant first: as many columns as the parameter set has limbs.
#[derive(Clone, Copy, Debug, PartialEq, Eq, Structural)]
pub struct FieldRegister {
    pub slice: MemorySlice,
}

impl FieldRegister {
    /// The register over the given columns.
    pub fn from_slice(slice: MemorySlice) -> (r: FieldRegister)
        ensures
            r.slice == slice,
    {
        FieldRegister { slice }
    }

    /// The columns of the register.
    pub fn register(&self) -> (r: MemorySlice)
        ensures
            r == self.slice,
    {
        self.slice
    }
}

/// `length` registers of one type, side by side.
#[derive(Debug)]
pub struct ArrayRegister<T: Register> {
    pub slice: MemorySlice,
    pub length: usize,
    pub marker: PhantomData<T>,
}

impl<T: Register> ArrayRegister<T> {
    /// Validity of an array: its columns are exactly those of its elements.
    pub open spec fn wf(&self) -> bool {
        &&& self.slice.len == self.length * T::spec_width()
        &&& self.slice.end() <= usize::MAX
    }

    /// The array of `length` registers over the given columns, if the slice
    /// has exactly the columns of that many registers and ends within the
    /// range of column numbers.
    pub fn from_slice(slice: MemorySlice, length: usize) -> (r: Option<ArrayRegister<T>>)
        ensures
            r is Some <==> slice.len == length * T::spec_width() && slice.end() <= usize::MAX,
            r matches Some(a) ==> a.slice == slice && a.length == length && a.wf(),
    {
        let w: usize = T::width();
        let fits: bool = slice.offset <= usize::MAX - slice.len;
        let exact: bool = match length.checked_mul(w) {
            Some(total) => total == slice.len,
            None => {
                proof {
                    assert(length * T::spec_width() > usize::MAX);
                }
                false
            },
        };
        if fits && exact {
            Some(ArrayRegister { slice, length, marker: PhantomData })
        } else {
            None
        }
    }

    /// The columns of the array.
    pub fn register(&self) -> (r: MemorySlice)
        ensures
            r == self.slice,
    {
        self.slice
    }

    /// A copy of the array.
    pub fn duplicate(&self) -> (r: ArrayRegister<T>)
        ensures
            r.slice == self.slice,
            r.length == self.length,
    {
        ArrayRegister { slice: self.slice, length: self.length, marker: PhantomData }
    }

    /// The number of registers in the array.
    pub fn len(&self) -> (r: usize)
        ensures
            r == self.length,
    {
        self.length
    }

    /// The columns of the `i`-th register.
    pub open spec fn element_slice(&self, i: int) -> MemorySlice {
        MemorySlice {
            kind: self.slice.kind,
            offset: (self.slice.offset + i * T::spec_width()) as usize,
            len: T::spec_width() as usize,
        }
    }

    /// The `i`-th register of a valid array, if there is one.
    pub fn get(&self, i: usize) -> (r: Option<T>)
        requires
            self.wf(),
        ensures
            r is Some <==> i < self.length,
            r matches Some(t) ==> t.slice() == self.element_slice(i as int),
    {
        if i >= self.length {
            return None;
        }
        let w: usize = T::width();
        proof {
            assert(i * w + w <= self.length * w) by (nonlinear_arith)
                requires
                    i < self.length,
                    w >= 0,
            ;
            assert(0 <= i * w) by (nonlinear_arith)
                requires
                    i >= 0,
                    w >= 0,
            ;
        }
        Some(T::from_slice(self.slice.sub_slice(i * w, w)))
    }
}

} // verus!
