//! Parsers: the surface against which an instruction states its constraints.
//!
//! A parser hands out variables that stand for cells of the current row, of
//! the following row, of the public vector and of the global vector; it
//! combines variables with the field operations; and it takes the variables
//! that must be zero. An instruction states its constraints once, against any
//! parser. `PackedParser` computes with the field elements of one row and
//! records residues; `RecursiveParser` builds expressions and records them,
//! for a circuit that checks them later.

use crate::field::{fadd, fmul, fsub, Felt};
use crate::register::{MemorySlice, RegionKind};
use crate::trace::{copy_felts, felts, RowView, TraceHandle};
use vstd::prelude::*;

verus! {

/// The surface that constraints are stated against.
pub trait AirParser: Sized {
    /// What the parser computes with.
    type Var;

    /// Whether the parser's variables may stand for the cells of `w`.
    spec fn binds(&self, w: RowView) -> bool;

    /// The number of cells that the parser offers in a region.
    spec fn region_len(&self, kind: RegionKind) -> nat;

    /// The value of a variable when the cells are those of `w`.
    spec fn denote(v: Self::Var, w: RowView) -> int;

    /// The values of the constraints taken so far when the cells are those of
    /// `w`: each must be zero.
    spec fn residues(&self, w: RowView) -> Seq<int>;

    /// The rows that a parser binds have the lengths that it offers.
    proof fn lemma_binds(&self, w: RowView)
        requires
            self.binds(w),
        ensures
            w.local.len() == self.region_len(RegionKind::Local),
            w.next.len() == self.region_len(RegionKind::Next),
            w.public.len() == self.region_len(RegionKind::Public),
            w.global.len() == self.region_len(RegionKind::Global),
    ;

    /// The number of cells that the parser offers in a region.
    fn len_of(&self, kind: RegionKind) -> (r: usize)
        ensures
            r == self.region_len(kind),
    ;

    /// The cell in column `col` of the current row.
    fn local(&self, col: usize) -> (v: Self::Var)
        requires
            col < self.region_len(RegionKind::Local),
        ensures
            forall|w: RowView| #[trigger] self.binds(w)
                ==> Self::denote(v, w) == w.local[col as int],
    ;

    /// The cell in column `col` of the following row.
    fn next(&self, col: usize) -> (v: Self::Var)
        requires
            col < self.region_len(RegionKind::Next),
        ensures
            forall|w: RowView| #[trigger] self.binds(w)
                ==> Self::denote(v, w) == w.next[col as int],
    ;

    /// The cell `col` of the public vector.
    fn public(&self, col: usize) -> (v: Self::Var)
        requires
            col < self.region_len(RegionKind::Public),
        ensures
            forall|w: RowView|
                #[trigger] self.binds(w) ==> Self::denote(v, w) == w.public[col as int],
    ;

    /// The cell `col` of the global vector.
    fn global(&self, col: usize) -> (v: Self::Var)
        requires
            col < self.region_len(RegionKind::Global),
        ensures
            forall|w: RowView|
                #[trigger] self.binds(w) ==> Self::denote(v, w) == w.global[col as int],
    ;

    /// A constant.
    fn constant(&self, c: Felt) -> (v: Self::Var)
        ensures
            forall|w: RowView| #[trigger] self.binds(w) ==> Self::denote(v, w) == c@,
    ;

    /// The sum of two variables.
    fn add(&self, a: &Self::Var, b: &Self::Var) -> (v: Self::Var)
        ensures
            forall|w: RowView|
                #[trigger] self.binds(w) ==> Self::denote(v, w) == fadd(
                    Self::denote(*a, w),
                    Self::denote(*b, w),
                ),
    ;

    /// The difference of two variables.
    fn sub(&self, a: &Self::Var, b: &Self::Var) -> (v: Self::Var)
        ensures
            forall|w: RowView|
                #[trigger] self.binds(w) ==> Self::denote(v, w) == fsub(
                    Self::denote(*a, w),
                    Self::denote(*b, w),
                ),
    ;

    /// The product of two variables.
    fn mul(&self, a: &Self::Var, b: &Self::Var) -> (v: Self::Var)
        ensures
            forall|w: RowView|
                #[trigger] self.binds(w) ==> Self::denote(v, w) == fmul(
                    Self::denote(*a, w),
                    Self::denote(*b, w),
                ),
    ;

    /// Takes the constraint that `v` is zero.
    fn constraint(&mut self, v: &Self::Var)
        ensures
            forall|w: RowView| final(self).binds(w) == old(self).binds(w),
            forall|kind: RegionKind| final(self).region_len(kind) == old(self).region_len(kind),
            forall|w: RowView|
                #[trigger] old(self).binds(w) ==> final(self).residues(w) == old(self).residues(
                    w,
                ).push(Self::denote(*v, w)),
    ;
}

/// The `i`-th cell of a slice, read through a parser.
pub fn read_cell<AP: AirParser>(parser: &AP, s: &MemorySlice, i: usize) -> (v: AP::Var)
    requires
        i < s.len,
        s.end() <= parser.region_len(s.kind),
    ensures
        forall|w: RowView| #[trigger] parser.binds(w) ==> AP::denote(v, w) == w.cell(*s, i as int),
{
    let limit: usize = parser.len_of(s.kind);
    assert(s.offset + i < limit);
    let col: usize = s.offset + i;
    match s.kind {
        RegionKind::Local => parser.local(col),
        RegionKind::Next => parser.next(col),
        RegionKind::Public => parser.public(col),
        RegionKind::Global => parser.global(col),
    }
}

/// The values of a run of variables when the cells are those of `w`.
pub open spec fn denote_all<AP: AirParser>(vars: Seq<AP::Var>, w: RowView) -> Seq<int> {
    Seq::new(vars.len(), |i: int| AP::denote(vars[i], w))
}

/// The cells of a slice, read through a parser.
pub fn read_slice<AP: AirParser>(parser: &AP, s: &MemorySlice) -> (vars: Vec<AP::Var>)
    requires
        s.end() <= parser.region_len(s.kind),
    ensures
        vars@.len() == s.len,
        forall|w: RowView|
            #[trigger] parser.binds(w) ==> denote_all::<AP>(vars@, w) == w.values(*s),
{
    let mut out: Vec<AP::Var> = Vec::new();
    let mut i: usize = 0;
    while i < s.len
        invariant
            i <= s.len,
            s.end() <= parser.region_len(s.kind),
            out@.len() == i,
            forall|w: RowView, j: int|
                #![trigger parser.binds(w), w.cell(*s, j)]
                parser.binds(w) && 0 <= j < i ==> AP::denote(out@[j], w) == w.cell(*s, j),
        decreases s.len - i,
    {
        let v = read_cell(parser, s, i);
        out.push(v);
        i += 1;
    }
    assert forall|w: RowView| #[trigger] parser.binds(w) implies denote_all::<AP>(out@, w)
        == w.values(*s) by {
        assert forall|j: int| 0 <= j < s.len implies denote_all::<AP>(out@, w)[j] == w.values(
            *s,
        )[j] by {
            assert(AP::denote(out@[j], w) == w.cell(*s, j));
        }
        assert(denote_all::<AP>(out@, w) =~= w.values(*s));
    }
    out
}

/// A parser over the field elements of one row.
#[derive(Debug)]
pub struct PackedParser {
    local: Vec<Felt>,
    next: Vec<Felt>,
    public: Vec<Felt>,
    global: Vec<Felt>,
    residues: Vec<Felt>,
}

impl PackedParser {
    /// The cells that the parser reads.
    pub closed spec fn window(&self) -> RowView {
        RowView {
            local: felts(self.local@),
            next: felts(self.next@),
            public: felts(self.public@),
            global: felts(self.global@),
        }
    }

    /// The residues recorded so far.
    pub closed spec fn recorded(&self) -> Seq<int> {
        felts(self.residues@)
    }

    /// A parser over the given cells, with no residue recorded.
    pub fn new(local: Vec<Felt>, next: Vec<Felt>, public: Vec<Felt>, global: Vec<Felt>) -> (r:
        PackedParser)
        ensures
            r.window() == (RowView {
                local: felts(local@),
                next: felts(next@),
                public: felts(public@),
                global: felts(global@),
            }),
            r.recorded() == Seq::<int>::empty(),
    {
        let p = PackedParser { local, next, public, global, residues: Vec::new() };
        assert(p.recorded() =~= Seq::<int>::empty());
        p
    }

    /// The residues recorded so far.
    pub fn residues(&self) -> (r: Vec<Felt>)
        ensures
            felts(r@) == self.recorded(),
    {
        copy_felts(&self.residues)
    }

    /// Whether every residue recorded so far is zero.
    pub fn all_zero(&self) -> (r: bool)
        ensures
            r == (forall|i: int| 0 <= i < self.recorded().len() ==> self.recorded()[i] == 0),
    {
        let mut i: usize = 0;
        while i < self.residues.len()
            invariant
                i <= self.residues.len(),
                forall|j: int| 0 <= j < i ==> self.recorded()[j] == 0,
            decreases self.residues.len() - i,
        {
            if !self.residues[i].is_zero() {
                assert(self.recorded()[i as int] != 0);
                return false;
            }
            i += 1;
        }
        true
    }
}

impl AirParser for PackedParser {
    type Var = Felt;

    open spec fn binds(&self, w: RowView) -> bool {
        w == self.window()
    }

    open spec fn region_len(&self, kind: RegionKind) -> nat {
        self.window().region(kind).len()
    }

    open spec fn denote(v: Felt, w: RowView) -> int {
        v@
    }

    open spec fn residues(&self, w: RowView) -> Seq<int> {
        self.recorded()
    }

    proof fn lemma_binds(&self, w: RowView) {
    }

    fn len_of(&self, kind: RegionKind) -> (r: usize) {
        match kind {
            RegionKind::Local => self.local.len(),
            RegionKind::Next => self.next.len(),
            RegionKind::Public => self.public.len(),
            RegionKind::Global => self.global.len(),
        }
    }

    fn local(&self, col: usize) -> (v: Felt) {
        self.local[col]
    }

    fn next(&self, col: usize) -> (v: Felt) {
        self.next[col]
    }

    fn public(&self, col: usize) -> (v: Felt) {
        self.public[col]
    }

    fn global(&self, col: usize) -> (v: Felt) {
        self.global[col]
    }

    fn constant(&self, c: Felt) -> (v: Felt) {
        c
    }

    fn add(&self, a: &Felt, b: &Felt) -> (v: Felt) {
        a.add(*b)
    }

    fn sub(&self, a: &Felt, b: &Felt) -> (v: Felt) {
        a.sub(*b)
    }

    fn mul(&self, a: &Felt, b: &Felt) -> (v: Felt) {
        a.mul(*b)
    }

    fn constraint(&mut self, v: &Felt) {
        self.residues.push(*v);
        assert(self.recorded() =~= old(self).recorded().push(v@));
    }
}

/// An expression over the cells of a row, built from constants and cells with
/// the field operations.
#[derive(Debug)]
pub enum Expr {
    /// A constant.
    Constant(Felt),
    /// The cell in the given column of the current row.
    Local(usize),
    /// The cell in the given column of the following row.
    Next(usize),
    /// The given cell of the public vector.
    Public(usize),
    /// The given cell of the global vector.
    Global(usize),
    /// A sum.
    Add(Box<Expr>, Box<Expr>),
    /// A difference.
    Sub(Box<Expr>, Box<Expr>),
    /// A product.
    Mul(Box<Expr>, Box<Expr>),
}

impl Expr {
    /// The value of the expression when the cells are those of `w`.
    pub open spec fn value(self, w: RowView) -> int
        decreases self,
    {
        match self {
            Expr::Constant(c) => c@,
            Expr::Local(col) => w.local[col as int],
            Expr::Next(col) => w.next[col as int],
            Expr::Public(col) => w.public[col as int],
            Expr::Global(col) => w.global[col as int],
            Expr::Add(a, b) => fadd(a.value(w), b.value(w)),
            Expr::Sub(a, b) => fsub(a.value(w), b.value(w)),
            Expr::Mul(a, b) => fmul(a.value(w), b.value(w)),
        }
    }

    /// A copy of the expression.
    pub fn duplicate(&self) -> (r: Expr)
        ensures
            r == *self,
        decreases self,
    {
        match self {
            Expr::Constant(c) => Expr::Constant(*c),
            Expr::Local(col) => Expr::Local(*col),
            Expr::Next(col) => Expr::Next(*col),
            Expr::Public(col) => Expr::Public(*col),
            Expr::Global(col) => Expr::Global(*col),
            Expr::Add(a, b) => Expr::Add(Box::new(a.duplicate()), Box::new(b.duplicate())),
            Expr::Sub(a, b) => Expr::Sub(Box::new(a.duplicate()), Box::new(b.duplicate())),
            Expr::Mul(a, b) => Expr::Mul(Box::new(a.duplicate()), Box::new(b.duplicate())),
        }
    }

    /// The value of the expression on the field elements of one row, if every
    /// cell that it names exists.
    pub fn evaluate(
        &self,
        local: &Vec<Felt>,
        next: &Vec<Felt>,
        public: &Vec<Felt>,
        global: &Vec<Felt>,
    ) -> (r: Option<Felt>)
        ensures
            r is Some <==> self.within(local@.len(), next@.len(), public@.len(), global@.len()),
            r matches Some(v) ==> v@ == self.value(
                RowView {
                    local: felts(local@),
                    next: felts(next@),
                    public: felts(public@),
                    global: felts(global@),
                },
            ),
        decreases self,
    {
        match self {
            Expr::Constant(c) => Some(*c),
            Expr::Local(col) => if *col < local.len() {
                Some(local[*col])
            } else {
                None
            },
            Expr::Next(col) => if *col < next.len() {
                Some(next[*col])
            } else {
                None
            },
            Expr::Public(col) => if *col < public.len() {
                Some(public[*col])
            } else {
                None
            },
            Expr::Global(col) => if *col < global.len() {
                Some(global[*col])
            } else {
                None
            },
            Expr::Add(a, b) => match (
                a.evaluate(local, next, public, global),
                b.evaluate(local, next, public, global),
            ) {
                (Some(x), Some(y)) => Some(x.add(y)),
                _ => None,
            },
            Expr::Sub(a, b) => match (
                a.evaluate(local, next, public, global),
                b.evaluate(local, next, public, global),
            ) {
                (Some(x), Some(y)) => Some(x.sub(y)),
                _ => None,
            },
            Expr::Mul(a, b) => match (
                a.evaluate(local, next, public, global),
                b.evaluate(local, next, public, global),
            ) {
                (Some(x), Some(y)) => Some(x.mul(y)),
                _ => None,
            },
        }
    }

    /// Whether every cell that the expression names exists in regions of the
    /// given lengths.
    pub open spec fn within(self, local: nat, next: nat, public: nat, global: nat) -> bool
        decreases self,
    {
        match self {
            Expr::Constant(c) => true,
            Expr::Local(col) => col < local,
            Expr::Next(col) => col < next,
            Expr::Public(col) => col < public,
            Expr::Global(col) => col < global,
            Expr::Add(a, b) => a.within(local, next, public, global) && b.within(
                local,
                next,
                public,
                global,
            ),
            Expr::Sub(a, b) => a.within(local, next, public, global) && b.within(
                local,
                next,
                public,
                global,
            ),
            Expr::Mul(a, b) => a.within(local, next, public, global) && b.within(
                local,
                next,
                public,
                global,
            ),
        }
    }
}

/// A parser that builds the expression of each constraint, for rows of the
/// given width and vectors of the given lengths.
#[derive(Debug)]
pub struct RecursiveParser {
    width: usize,
    num_public: usize,
    num_global: usize,
    constraints: Vec<Expr>,
}

impl RecursiveParser {
    /// The expressions recorded so far.
    pub closed spec fn recorded(&self) -> Seq<Expr> {
        self.constraints@
    }

    /// The width of the rows that the parser is for.
    pub closed spec fn spec_width(&self) -> nat {
        self.width as nat
    }

    /// The length of the public vector that the parser is for.
    pub closed spec fn spec_num_public(&self) -> nat {
        self.num_public as nat
    }

    /// The length of the global vector that the parser is for.
    pub closed spec fn spec_num_global(&self) -> nat {
        self.num_global as nat
    }

    /// A parser for rows of the given width and vectors of the given lengths,
    /// with no expression recorded.
    pub fn new(width: usize, num_public: usize, num_global: usize) -> (r: RecursiveParser)
        ensures
            r.spec_width() == width,
            r.spec_num_public() == num_public,
            r.spec_num_global() == num_global,
            r.recorded() == Seq::<Expr>::empty(),
    {
        RecursiveParser { width, num_public, num_global, constraints: Vec::new() }
    }

    /// The number of expressions recorded so far.
    pub fn num_constraints(&self) -> (r: usize)
        ensures
            r == self.recorded().len(),
    {
        self.constraints.len()
    }

    /// The `i`-th expression recorded.
    pub fn constraint_at(&self, i: usize) -> (r: Option<Expr>)
        ensures
            r is Some <==> i < self.recorded().len(),
            r matches Some(e) ==> e == self.recorded()[i as int],
    {
        if i < self.constraints.len() {
            Some(self.constraints[i].duplicate())
        } else {
            None
        }
    }
}

impl AirParser for RecursiveParser {
    type Var = Expr;

    open spec fn binds(&self, w: RowView) -> bool {
        &&& w.local.len() == self.spec_width()
        &&& w.next.len() == self.spec_width()
        &&& w.public.len() == self.spec_num_public()
        &&& w.global.len() == self.spec_num_global()
    }

    open spec fn region_len(&self, kind: RegionKind) -> nat {
        match kind {
            RegionKind::Local | RegionKind::Next => self.spec_width(),
            RegionKind::Public => self.spec_num_public(),
            RegionKind::Global => self.spec_num_global(),
        }
    }

    open spec fn denote(v: Expr, w: RowView) -> int {
        v.value(w)
    }

    open spec fn residues(&self, w: RowView) -> Seq<int> {
        Seq::new(self.recorded().len(), |i: int| self.recorded()[i].value(w))
    }

    proof fn lemma_binds(&self, w: RowView) {
    }

    fn len_of(&self, kind: RegionKind) -> (r: usize) {
        match kind {
            RegionKind::Local | RegionKind::Next => self.width,
            RegionKind::Public => self.num_public,
            RegionKind::Global => self.num_global,
        }
    }

    fn local(&self, col: usize) -> (v: Expr) {
        Expr::Local(col)
    }

    fn next(&self, col: usize) -> (v: Expr) {
        Expr::Next(col)
    }

    fn public(&self, col: usize) -> (v: Expr) {
        Expr::Public(col)
    }

    fn global(&self, col: usize) -> (v: Expr) {
        Expr::Global(col)
    }

    fn constant(&self, c: Felt) -> (v: Expr) {
        Expr::Constant(c)
    }

    fn add(&self, a: &Expr, b: &Expr) -> (v: Expr) {
        Expr::Add(Box::new(a.duplicate()), Box::new(b.duplicate()))
    }

    fn sub(&self, a: &Expr, b: &Expr) -> (v: Expr) {
        Expr::Sub(Box::new(a.duplicate()), Box::new(b.duplicate()))
    }

    fn mul(&self, a: &Expr, b: &Expr) -> (v: Expr) {
        Expr::Mul(Box::new(a.duplicate()), Box::new(b.duplicate()))
    }

    fn constraint(&mut self, v: &Expr) {
        self.constraints.push(v.duplicate());
        assert forall|w: RowView| #[trigger] old(self).binds(w) implies self.residues(w)
            == old(self).residues(w).push(Self::denote(*v, w)) by {
            assert(self.residues(w) =~= old(self).residues(w).push(Self::denote(*v, w)));
        }
    }
}

impl TraceHandle {
    /// A parser over the cells that a trace holds at a row, if the trace has
    /// the row.
    pub fn packed_parser(&self, row: usize) -> (r: Option<PackedParser>)
        requires
            self.wf(),
        ensures
            r is Some <==> row < self@.num_rows(),
            r matches Some(p) ==> p.window() == self@.window(row as int) && p.recorded()
                == Seq::<int>::empty(),
    {
        proof {
            self.lemma_wf();
        }
        if row >= self.num_rows() {
            return None;
        }
        let width: usize = self.width();
        let local_slice = MemorySlice { kind: RegionKind::Local, offset: 0, len: width };
        let next_slice = MemorySlice { kind: RegionKind::Next, offset: 0, len: width };
        let public_slice = MemorySlice {
            kind: RegionKind::Public,
            offset: 0,
            len: self.num_public(),
        };
        let global_slice = MemorySlice {
            kind: RegionKind::Global,
            offset: 0,
            len: self.num_global(),
        };
        let local = self.read(&local_slice, Some(row));
        let next = self.read(&next_slice, Some(row));
        let public = self.read(&public_slice, Some(row));
        let global = self.read(&global_slice, Some(row));
        match (local, next, public, global) {
            (Some(l), Some(n), Some(p), Some(g)) => {
                proof {
                    let w = self@.window(row as int);
                    assert(self@.rows[self@.next_row(row as int)].len() == width);
                    assert(self@.rows[row as int].len() == width);
                    assert(w.values(local_slice) =~= w.local);
                    assert(w.values(next_slice) =~= w.next);
                    assert(w.values(public_slice) =~= w.public);
                    assert(w.values(global_slice) =~= w.global);
                }
                Some(PackedParser::new(l, n, p, g))
            },
            _ => None,
        }
    }
}

} // verus!
