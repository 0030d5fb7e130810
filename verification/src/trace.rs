//! The trace: a matrix of field elements, with the public and the global
//! vector beside it, and the operations that read and write runs of cells.

use crate::error::WitnessError;
use crate::field::Felt;
use crate::register::{MemorySlice, RegionKind};
use vstd::prelude::*;

verus! {

/// The representatives of a run of field elements.
pub open spec fn felts(s: Seq<Felt>) -> Seq<int> {
    Seq::new(s.len(), |i: int| s[i]@)
}

/// `row` with the cells from `offset` on replaced by `vals`.
pub open spec fn splice(row: Seq<int>, offset: int, vals: Seq<int>) -> Seq<int> {
    Seq::new(
        row.len(),
        |i: int|
            if offset <= i < offset + vals.len() {
                vals[i - offset]
            } else {
                row[i]
            },
    )
}

/// Whether `n` is a power of two.
pub open spec fn is_power_of_two(n: int) -> bool
    decreases n,
{
    if n <= 1 {
        n == 1
    } else {
        n % 2 == 0 && is_power_of_two(n / 2)
    }
}

/// What a constraint sees at one row: the row itself, the row after it, and
/// the public and global vectors.
pub struct RowView {
    pub local: Seq<int>,
    pub next: Seq<int>,
    pub public: Seq<int>,
    pub global: Seq<int>,
}

impl RowView {
    /// The cells of a region.
    pub open spec fn region(self, kind: RegionKind) -> Seq<int> {
        match kind {
            RegionKind::Local => self.local,
            RegionKind::Next => self.next,
            RegionKind::Public => self.public,
            RegionKind::Global => self.global,
        }
    }

    /// The `i`-th cell of a slice.
    pub open spec fn cell(self, s: MemorySlice, i: int) -> int {
        self.region(s.kind)[s.offset + i]
    }

    /// The cells of a slice.
    pub open spec fn values(self, s: MemorySlice) -> Seq<int> {
        Seq::new(s.len as nat, |i: int| self.cell(s, i))
    }
}

/// The mathematical content of a trace.
pub struct TraceView {
    pub rows: Seq<Seq<int>>,
    pub public: Seq<int>,
    pub global: Seq<int>,
}

impl TraceView {
    /// The number of rows.
    pub open spec fn num_rows(self) -> int {
        self.rows.len() as int
    }

    /// The number of columns.
    pub open spec fn width(self) -> int {
        self.rows[0].len() as int
    }

    /// Validity of a trace: at least one row, and all rows of one width.
    pub open spec fn wf(self) -> bool {
        &&& self.rows.len() > 0
        &&& forall|r: int| 0 <= r < self.rows.len() ==> (#[trigger] self.rows[r]).len()
            == self.rows[0].len()
    }

    /// The row after `r`, which for the last row is the first.
    pub open spec fn next_row(self, r: int) -> int {
        if r + 1 == self.num_rows() {
            0
        } else {
            r + 1
        }
    }

    /// What a constraint sees at row `r`.
    pub open spec fn window(self, r: int) -> RowView {
        RowView {
            local: self.rows[r],
            next: self.rows[self.next_row(r)],
            public: self.public,
            global: self.global,
        }
    }

    /// What a constraint sees where no row is at hand: the public and the
    /// global vector alone.
    pub open spec fn rowless(self) -> RowView {
        RowView {
            local: Seq::empty(),
            next: Seq::empty(),
            public: self.public,
            global: self.global,
        }
    }

    /// What is seen from `row`, or from no row.
    pub open spec fn view_at(self, row: Option<usize>) -> RowView {
        match row {
            Some(r) => self.window(r as int),
            None => self.rowless(),
        }
    }

    /// Whether the cells of `s`, taken at `row`, exist.
    pub open spec fn admits(self, s: MemorySlice, row: Option<usize>) -> bool {
        match s.kind {
            RegionKind::Local | RegionKind::Next => {
                &&& row matches Some(r)
                &&& r < self.num_rows()
                &&& s.end() <= self.width()
            },
            RegionKind::Public => s.end() <= self.public.len(),
            RegionKind::Global => s.end() <= self.global.len(),
        }
    }

    /// The trace after `vals` were written to the cells of `s` taken at `row`.
    pub open spec fn write(self, s: MemorySlice, row: Option<usize>, vals: Seq<int>) -> TraceView {
        match s.kind {
            RegionKind::Local => {
                let r = row.unwrap() as int;
                TraceView {
                    rows: self.rows.update(r, splice(self.rows[r], s.offset as int, vals)),
                    ..self
                }
            },
            RegionKind::Next => {
                let r = self.next_row(row.unwrap() as int);
                TraceView {
                    rows: self.rows.update(r, splice(self.rows[r], s.offset as int, vals)),
                    ..self
                }
            },
            RegionKind::Public => TraceView {
                public: splice(self.public, s.offset as int, vals),
                ..self
            },
            RegionKind::Global => TraceView {
                global: splice(self.global, s.offset as int, vals),
                ..self
            },
        }
    }
}

/// A trace under construction: the matrix, row after row, the public vector
/// and the global vector, all zero at first.
#[derive(Debug, PartialEq, Eq)]
pub struct TraceHandle {
    cells: Vec<Felt>,
    num_rows: usize,
    width: usize,
    public: Vec<Felt>,
    global: Vec<Felt>,
}

/// A run of `n` zeros.
fn zeros(n: usize) -> (r: Vec<Felt>)
    ensures
        r@.len() == n,
        forall|i: int| 0 <= i < n ==> (#[trigger] r@[i])@ == 0,
{
    let mut out: Vec<Felt> = Vec::new();
    let mut i: usize = 0;
    while i < n
        invariant
            i <= n,
            out@.len() == i,
            forall|j: int| 0 <= j < i ==> (#[trigger] out@[j])@ == 0,
        decreases n - i,
    {
        out.push(Felt::zero());
        i += 1;
    }
    out
}

/// A copy of a run of field elements.
pub fn copy_felts(v: &Vec<Felt>) -> (r: Vec<Felt>)
    ensures
        r@ == v@,
{
    let mut out: Vec<Felt> = Vec::new();
    let mut i: usize = 0;
    while i < v.len()
        invariant
            i <= v.len(),
            out@ =~= v@.take(i as int),
        decreases v.len() - i,
    {
        out.push(v[i]);
        i += 1;
    }
    assert(out@ =~= v@);
    out
}

/// Executable form of `is_power_of_two`.
pub fn check_power_of_two(n: usize) -> (r: bool)
    ensures
        r == is_power_of_two(n as int),
{
    let mut m: usize = n;
    while m > 1
        invariant
            is_power_of_two(m as int) == is_power_of_two(n as int),
        decreases m,
    {
        if m % 2 != 0 {
            return false;
        }
        m = m / 2;
    }
    m == 1
}

/// Cell `c` of row `r` has a place of its own in a matrix stored row after row.
proof fn lemma_flat_index(r: int, c: int, num_rows: int, width: int)
    requires
        0 <= r < num_rows,
        0 <= c < width,
    ensures
        0 <= r * width + c < num_rows * width,
        0 <= r * width <= num_rows * width - width,
        forall|r2: int, c2: int|
            0 <= r2 < num_rows && 0 <= c2 < width && (r2 != r || c2 != c) ==> #[trigger] (r2
                * width + c2) != r * width + c,
{
    assert(0 <= r * width && r * width + width <= num_rows * width) by (nonlinear_arith)
        requires
            0 <= r < num_rows,
            0 <= width,
    ;
    assert forall|r2: int, c2: int|
        0 <= r2 < num_rows && 0 <= c2 < width && (r2 != r || c2 != c) implies #[trigger] (r2
        * width + c2) != r * width + c by {
        if r2 < r {
            assert(r2 * width + width <= r * width) by (nonlinear_arith)
                requires
                    r2 < r,
                    0 <= width,
            ;
        } else if r2 > r {
            assert(r * width + width <= r2 * width) by (nonlinear_arith)
                requires
                    r < r2,
                    0 <= width,
            ;
        }
    }
}

impl TraceHandle {
    /// The mathematical content of the trace.
    pub closed spec fn view(&self) -> TraceView {
        TraceView {
            rows: Seq::new(
                self.num_rows as nat,
                |r: int| Seq::new(self.width as nat, |c: int| self.cells@[r * self.width + c]@),
            ),
            public: felts(self.public@),
            global: felts(self.global@),
        }
    }

    /// Validity of a trace under construction: it has a row, and a cell for
    /// each column of each row.
    pub closed spec fn wf(&self) -> bool {
        &&& self.num_rows > 0
        &&& self.cells.len() == self.num_rows * self.width
    }

    /// A trace of `num_rows` rows and `width` columns, with public and global
    /// vectors of the given lengths, all cells zero. The number of rows must
    /// be a power of two, and the matrix must not have more cells than can be
    /// counted.
    pub fn new(num_rows: usize, width: usize, num_public: usize, num_global: usize) -> (r: Option<
        TraceHandle,
    >)
        ensures
            r is Some <==> is_power_of_two(num_rows as int) && num_rows * width <= usize::MAX,
            r matches Some(t) ==> {
                &&& t.wf()
                &&& t@.wf()
                &&& t@.num_rows() == num_rows
                &&& t@.width() == width
                &&& t@.public.len() == num_public
                &&& t@.global.len() == num_global
                &&& forall|r: int, c: int|
                    0 <= r < num_rows && 0 <= c < width ==> (#[trigger] t@.rows[r][c]) == 0
                &&& forall|c: int| 0 <= c < num_public ==> (#[trigger] t@.public[c]) == 0
                &&& forall|c: int| 0 <= c < num_global ==> (#[trigger] t@.global[c]) == 0
            },
    {
        if !check_power_of_two(num_rows) {
            return None;
        }
        let total: usize = match num_rows.checked_mul(width) {
            Some(t) => t,
            None => {
                return None;
            },
        };
        let t = TraceHandle {
            cells: zeros(total),
            num_rows,
            width,
            public: zeros(num_public),
            global: zeros(num_global),
        };
        proof {
            assert forall|r: int, c: int| 0 <= r < num_rows && 0 <= c < width implies (
            #[trigger] t@.rows[r][c]) == 0 by {
                lemma_flat_index(r, c, num_rows as int, width as int);
            }
        }
        Some(t)
    }

    /// The content of a valid trace under construction is a valid trace.
    pub proof fn lemma_wf(&self)
        requires
            self.wf(),
        ensures
            self@.wf(),
    {
    }

    proof fn lemma_dims(&self)
        requires
            self.wf(),
        ensures
            self@.wf(),
            self@.num_rows() == self.num_rows,
            self@.width() == self.width,
            self@.public.len() == self.public.len(),
            self@.global.len() == self.global.len(),
            self.cells@.len() == self.num_rows * self.width,
            self.num_rows * self.width <= usize::MAX,
    {
    }

    /// The number of rows.
    pub fn num_rows(&self) -> (r: usize)
        requires
            self.wf(),
        ensures
            r == self@.num_rows(),
            r > 0,
    {
        proof {
            self.lemma_dims();
        }
        self.num_rows
    }

    /// The number of columns.
    pub fn width(&self) -> (r: usize)
        requires
            self.wf(),
        ensures
            r == self@.width(),
    {
        proof {
            self.lemma_dims();
        }
        self.width
    }

    /// The length of the public vector.
    pub fn num_public(&self) -> (r: usize)
        requires
            self.wf(),
        ensures
            r == self@.public.len(),
    {
        proof {
            self.lemma_dims();
        }
        self.public.len()
    }

    /// The length of the global vector.
    pub fn num_global(&self) -> (r: usize)
        requires
            self.wf(),
        ensures
            r == self@.global.len(),
    {
        proof {
            self.lemma_dims();
        }
        self.global.len()
    }

    /// A copy of the trace.
    pub fn clone_trace(&self) -> (r: TraceHandle)
        requires
            self.wf(),
        ensures
            r.wf(),
            r@ == self@,
    {
        let r = TraceHandle {
            cells: copy_felts(&self.cells),
            num_rows: self.num_rows,
            width: self.width,
            public: copy_felts(&self.public),
            global: copy_felts(&self.global),
        };
        assert(r@.rows =~= self@.rows) by {
            assert forall|row: int| 0 <= row < self.num_rows implies r@.rows[row]
                =~= self@.rows[row] by {}
        }
        r
    }

    /// The canonical representatives of the cells of a row, if the trace has
    /// the row.
    pub fn row_values(&self, row: usize) -> (r: Option<Vec<u64>>)
        requires
            self.wf(),
        ensures
            r is Some <==> row < self@.num_rows(),
            r matches Some(v) ==> v@.len() == self@.width() && forall|c: int|
                0 <= c < v@.len() ==> (#[trigger] v@[c]) as int == self@.rows[row as int][c],
    {
        proof {
            self.lemma_dims();
        }
        if row >= self.num_rows {
            return None;
        }
        let mut out: Vec<u64> = Vec::new();
        let mut c: usize = 0;
        while c < self.width
            invariant
                c <= self.width,
                self.wf(),
                row < self.num_rows,
                out@.len() == c,
                forall|j: int| 0 <= j < c
                    ==> (#[trigger] out@[j]) as int == self@.rows[row as int][j],
            decreases self.width - c,
        {
            proof {
                self.lemma_dims();
                lemma_flat_index(row as int, c as int, self.num_rows as int, self.width as int);
            }
            out.push(self.cells[row * self.width + c].as_canonical_u64());
            c += 1;
        }
        Some(out)
    }

    /// The canonical representatives of the cells of the public vector.
    pub fn public_values(&self) -> (r: Vec<u64>)
        ensures
            r@.len() == self@.public.len(),
            forall|c: int| 0 <= c < r@.len() ==> (#[trigger] r@[c]) as int == self@.public[c],
    {
        let mut out: Vec<u64> = Vec::new();
        let mut c: usize = 0;
        while c < self.public.len()
            invariant
                c <= self.public.len(),
                out@.len() == c,
                forall|j: int| 0 <= j < c ==> (#[trigger] out@[j]) as int == self@.public[j],
            decreases self.public.len() - c,
        {
            out.push(self.public[c].as_canonical_u64());
            c += 1;
        }
        out
    }

    /// The canonical representatives of the cells of the global vector.
    pub fn global_values(&self) -> (r: Vec<u64>)
        ensures
            r@.len() == self@.global.len(),
            forall|c: int| 0 <= c < r@.len() ==> (#[trigger] r@[c]) as int == self@.global[c],
    {
        let mut out: Vec<u64> = Vec::new();
        let mut c: usize = 0;
        while c < self.global.len()
            invariant
                c <= self.global.len(),
                out@.len() == c,
                forall|j: int| 0 <= j < c ==> (#[trigger] out@[j]) as int == self@.global[j],
            decreases self.global.len() - c,
        {
            out.push(self.global[c].as_canonical_u64());
            c += 1;
        }
        out
    }

    /// The row after `r`, which for the last row is the first.
    pub fn next_row(&self, r: usize) -> (n: usize)
        requires
            self.wf(),
            r < self@.num_rows(),
        ensures
            n == self@.next_row(r as int),
            n < self@.num_rows(),
    {
        proof {
            self.lemma_dims();
        }
        if r + 1 == self.num_rows {
            0
        } else {
            r + 1
        }
    }

    /// Executable form of `admits`.
    pub fn admits(&self, s: &MemorySlice, row: Option<usize>) -> (r: bool)
        requires
            self.wf(),
        ensures
            r == self@.admits(*s, row),
    {
        proof {
            self.lemma_dims();
        }
        match s.kind {
            RegionKind::Local | RegionKind::Next => match row {
                Some(r) => r < self.num_rows && s.fits(self.width),
                None => false,
            },
            RegionKind::Public => s.fits(self.public.len()),
            RegionKind::Global => s.fits(self.global.len()),
        }
    }

    /// The cell in column `c` of region `kind`, taken at `row`.
    fn get(&self, kind: RegionKind, c: usize, row: Option<usize>) -> (v: Felt)
        requires
            self.wf(),
            self@.admits(MemorySlice { kind, offset: c, len: 1 }, row),
        ensures
            v@ == self@.view_at(row).region(kind)[c as int],
    {
        proof {
            self.lemma_dims();
        }
        match kind {
            RegionKind::Local => {
                let r: usize = row.unwrap();
                proof {
                    lemma_flat_index(r as int, c as int, self.num_rows as int, self.width as int);
                }
                self.cells[r * self.width + c]
            },
            RegionKind::Next => {
                let r: usize = self.next_row(row.unwrap());
                proof {
                    lemma_flat_index(r as int, c as int, self.num_rows as int, self.width as int);
                }
                self.cells[r * self.width + c]
            },
            RegionKind::Public => self.public[c],
            RegionKind::Global => self.global[c],
        }
    }

    /// Writes the cell in column `c` of region `kind`, taken at `row`.
    fn put(&mut self, kind: RegionKind, c: usize, row: Option<usize>, v: Felt)
        requires
            old(self).wf(),
            old(self)@.admits(MemorySlice { kind, offset: c, len: 1 }, row),
        ensures
            final(self).wf(),
            final(self)@ == old(self)@.write(MemorySlice { kind, offset: c, len: 1 }, row,
                seq![v@]),
    {
        proof {
            self.lemma_dims();
        }
        let ghost s = MemorySlice { kind, offset: c, len: 1 };
        let ghost want = self@.write(s, row, seq![v@]);
        match kind {
            RegionKind::Local | RegionKind::Next => {
                let r: usize = match kind {
                    RegionKind::Local => row.unwrap(),
                    _ => self.next_row(row.unwrap()),
                };
                proof {
                    lemma_flat_index(r as int, c as int, self.num_rows as int, self.width as int);
                }
                self.cells.set(r * self.width + c, v);
                proof {
                    assert(self@.rows =~= want.rows) by {
                        assert forall|r2: int| 0 <= r2 < self.num_rows implies self@.rows[r2]
                            =~= want.rows[r2] by {
                            assert forall|c2: int| 0 <= c2 < self.width implies self@.rows[r2][c2]
                                == want.rows[r2][c2] by {
                                let w = self.width as int;
                                lemma_flat_index(r2, c2, self.num_rows as int, w);
                                if r2 != r || c2 != c {
                                    assert(r2 * w + c2 != r * w + c);
                                } else {
                                    assert(self.cells@[r * w + c] == v);
                                }
                                assert(self@.rows[r2][c2] == self.cells@[r2 * w + c2]@);
                            }
                        }
                    }
                }
            },
            RegionKind::Public => {
                self.public.set(c, v);
                assert(self@.public =~= want.public);
            },
            RegionKind::Global => {
                self.global.set(c, v);
                assert(self@.global =~= want.global);
            },
        }
    }

    /// The cells of `s` taken at `row`, if they exist.
    pub fn read(&self, s: &MemorySlice, row: Option<usize>) -> (r: Option<Vec<Felt>>)
        requires
            self.wf(),
        ensures
            r is Some <==> self@.admits(*s, row),
            r matches Some(v) ==> felts(v@) == self@.view_at(row).values(*s),
    {
        if !self.admits(s, row) {
            return None;
        }
        proof {
            self.lemma_dims();
        }
        let mut out: Vec<Felt> = Vec::new();
        let mut i: usize = 0;
        while i < s.len
            invariant
                i <= s.len,
                self.wf(),
                self@.admits(*s, row),
                s.end() <= usize::MAX,
                out@.len() == i,
                forall|j: int|
                    0 <= j < i ==> (#[trigger] out@[j])@ == self@.view_at(row).cell(*s, j),
            decreases s.len - i,
        {
            let v: Felt = self.get(s.kind, s.offset + i, row);
            out.push(v);
            i += 1;
        }
        assert(felts(out@) =~= self@.view_at(row).values(*s));
        Some(out)
    }

    /// Writes `values` to the cells of `s` taken at `row`. Fails, and leaves
    /// the trace as it was, if the cells do not exist or `values` is not as
    /// long as the slice.
    pub fn write(&mut self, s: &MemorySlice, values: &Vec<Felt>, row: Option<usize>) -> (r: Result<
        (),
        WitnessError,
    >)
        requires
            old(self).wf(),
        ensures
            final(self).wf(),
            r is Ok <==> old(self)@.admits(*s, row) && values@.len() == s.len,
            r is Ok ==> final(self)@ == old(self)@.write(*s, row, felts(values@)),
            r is Err ==> r == Err::<(), WitnessError>(WitnessError::OutOfBounds) && final(self)@
                == old(self)@,
    {
        if !self.admits(s, row) || values.len() != s.len {
            return Err(WitnessError::OutOfBounds);
        }
        let ghost vals = felts(values@);
        let ghost before = self@;
        proof {
            self.lemma_dims();
            lemma_write_nothing(before, *s, row);
            assert(vals.take(0) =~= Seq::<int>::empty());
        }
        let mut i: usize = 0;
        while i < s.len
            invariant
                i <= s.len,
                self.wf(),
                before.admits(*s, row),
                before.wf(),
                before == old(self)@,
                values@.len() == s.len,
                vals == felts(values@),
                s.end() <= usize::MAX,
                self@ == before.write(*s, row, vals.take(i as int)),
            decreases s.len - i,
        {
            proof {
                lemma_write_one_more(before, *s, row, vals, i as int);
            }
            self.put(s.kind, s.offset + i, row, values[i]);
            i += 1;
        }
        proof {
            assert(vals.take(s.len as int) =~= vals);
        }
        Ok(())
    }
}

/// Writing no value changes nothing.
pub proof fn lemma_write_nothing(t: TraceView, s: MemorySlice, row: Option<usize>)
    requires
        t.wf(),
        t.admits(s, row),
    ensures
        t.write(s, row, Seq::empty()) == t,
        t.write(s, row, Seq::empty().take(0)) == t,
{
    let e = Seq::<int>::empty();
    assert(e.take(0) =~= e);
    let w = t.write(s, row, e);
    assert(w.public =~= t.public);
    assert(w.global =~= t.global);
    assert(w.rows =~= t.rows) by {
        assert forall|r: int| 0 <= r < t.rows.len() implies w.rows[r] =~= t.rows[r] by {}
    }
}

/// Writing the first `i + 1` values is writing the first `i` and then the next
/// one in the cell after them.
pub proof fn lemma_write_one_more(
    t: TraceView,
    s: MemorySlice,
    row: Option<usize>,
    vals: Seq<int>,
    i: int,
)
    requires
        t.wf(),
        t.admits(s, row),
        0 <= i < vals.len(),
        vals.len() <= s.len,
        s.end() <= usize::MAX,
    ensures
        t.write(s, row, vals.take(i)).wf(),
        t.write(s, row, vals.take(i)).admits(
            MemorySlice { kind: s.kind, offset: (s.offset + i) as usize, len: 1 },
            row,
        ),
        t.write(s, row, vals.take(i)).write(
            MemorySlice { kind: s.kind, offset: (s.offset + i) as usize, len: 1 },
            row,
            seq![vals[i]],
        ) == t.write(s, row, vals.take(i + 1)),
{
    let one = MemorySlice { kind: s.kind, offset: (s.offset + i) as usize, len: 1 };
    let mid = t.write(s, row, vals.take(i));
    let got = mid.write(one, row, seq![vals[i]]);
    let want = t.write(s, row, vals.take(i + 1));
    assert(mid.rows[0].len() == t.rows[0].len());
    assert(got.public =~= want.public);
    assert(got.global =~= want.global);
    assert(got.rows =~= want.rows) by {
        assert forall|r: int| 0 <= r < t.rows.len() implies got.rows[r] =~= want.rows[r] by {}
    }
}

impl TraceView {
    /// The row that cells of `s` taken at `row` lie in.
    pub open spec fn target_row(self, s: MemorySlice, row: Option<usize>) -> int {
        match s.kind {
            RegionKind::Next => self.next_row(row.unwrap() as int),
            _ => row.unwrap() as int,
        }
    }

    /// Whether no cell of `s` taken at `row` is a cell of `s2` taken at `row2`.
    pub open spec fn apart(
        self,
        s: MemorySlice,
        row: Option<usize>,
        s2: MemorySlice,
        row2: Option<usize>,
    ) -> bool {
        ||| !s.overlaps(&s2)
        ||| (s.kind.in_trace() && s2.kind.in_trace() && self.target_row(s, row) != self.target_row(
            s2,
            row2,
        ))
    }

    /// Whether two traces have the same shape.
    pub open spec fn same_shape(self, other: TraceView) -> bool {
        &&& self.rows.len() == other.rows.len()
        &&& self.rows[0].len() == other.rows[0].len()
        &&& self.public.len() == other.public.len()
        &&& self.global.len() == other.global.len()
    }
}

/// A write keeps the shape of the trace, so what the trace admits.
pub proof fn lemma_write_shape(t: TraceView, s: MemorySlice, row: Option<usize>, vals: Seq<int>)
    requires
        t.wf(),
        t.admits(s, row),
    ensures
        t.write(s, row, vals).wf(),
        t.write(s, row, vals).same_shape(t),
        forall|s2: MemorySlice, row2: Option<usize>|
            #[trigger] t.write(s, row, vals).admits(s2, row2) == t.admits(s2, row2),
{
    let u = t.write(s, row, vals);
    assert(u.rows[0].len() == t.rows[0].len());
    assert forall|r: int| 0 <= r < u.rows.len() implies (#[trigger] u.rows[r]).len()
        == u.rows[0].len() by {
        assert(t.rows[r].len() == t.rows[0].len());
    }
}

/// The cells that were written hold what was written.
pub proof fn lemma_write_read_same(t: TraceView, s: MemorySlice, row: Option<usize>, vals: Seq<int>)
    requires
        t.wf(),
        t.admits(s, row),
        vals.len() == s.len,
    ensures
        t.write(s, row, vals).view_at(row).values(s) == vals,
{
    let u = t.write(s, row, vals);
    assert(u.view_at(row).values(s) =~= vals);
}

/// Cells apart from those that were written hold what they held.
pub proof fn lemma_write_read_other(
    t: TraceView,
    s: MemorySlice,
    row: Option<usize>,
    vals: Seq<int>,
    s2: MemorySlice,
    row2: Option<usize>,
)
    requires
        t.wf(),
        t.admits(s, row),
        t.admits(s2, row2),
        vals.len() == s.len,
        t.apart(s, row, s2, row2),
    ensures
        t.write(s, row, vals).view_at(row2).values(s2) == t.view_at(row2).values(s2),
{
    let u = t.write(s, row, vals);
    assert(u.view_at(row2).values(s2) =~= t.view_at(row2).values(s2)) by {
        assert forall|i: int| 0 <= i < s2.len implies u.view_at(row2).cell(s2, i) == t.view_at(
            row2,
        ).cell(s2, i) by {}
    }
}

/// The part of `v` made of `len` elements from its `start`-th on.
pub fn segment(v: &Vec<Felt>, start: usize, len: usize) -> (r: Vec<Felt>)
    requires
        start + len <= v@.len(),
    ensures
        r@ == v@.subrange(start as int, start + len),
{
    let n: usize = v.len();
    let mut out: Vec<Felt> = Vec::new();
    let mut i: usize = 0;
    while i < len
        invariant
            i <= len,
            n == v@.len(),
            start + len <= n,
            out@ =~= v@.subrange(start as int, start + i),
        decreases len - i,
    {
        out.push(v[start + i]);
        i += 1;
    }
    out
}

impl TraceView {
    /// Whether each of the slices, taken at `row`, exists and has a run of
    /// values of its length.
    pub open spec fn admits_all(
        self,
        slices: Seq<MemorySlice>,
        row: Option<usize>,
        vals: Seq<Seq<int>>,
    ) -> bool {
        &&& slices.len() == vals.len()
        &&& forall|i: int|
            0 <= i < slices.len() ==> self.admits(#[trigger] slices[i], row) && vals[i].len()
                == slices[i].len
    }

    /// The trace after each run of values was written to its slice, in order.
    pub open spec fn write_all(
        self,
        slices: Seq<MemorySlice>,
        row: Option<usize>,
        vals: Seq<Seq<int>>,
    ) -> TraceView
        decreases slices.len(),
    {
        if slices.len() == 0 {
            self
        } else {
            self.write_all(slices.drop_last(), row, vals.drop_last()).write(
                slices.last(),
                row,
                vals.last(),
            )
        }
    }
}

/// Whether no two of the slices, taken at one row, have a cell in common.
pub open spec fn pairwise_apart(slices: Seq<MemorySlice>) -> bool {
    forall|i: int, j: int|
        #![trigger slices[i], slices[j]]
        0 <= i < j < slices.len() ==> !slices[i].overlaps(&slices[j])
}

/// Writes keep the shape of the trace.
pub proof fn lemma_write_all_shape(
    t: TraceView,
    slices: Seq<MemorySlice>,
    row: Option<usize>,
    vals: Seq<Seq<int>>,
)
    requires
        t.wf(),
        t.admits_all(slices, row, vals),
    ensures
        t.write_all(slices, row, vals).wf(),
        t.write_all(slices, row, vals).same_shape(t),
        forall|s2: MemorySlice, row2: Option<usize>|
            #[trigger] t.write_all(slices, row, vals).admits(s2, row2) == t.admits(s2, row2),
    decreases slices.len(),
{
    if slices.len() > 0 {
        let s1 = slices.drop_last();
        let v1 = vals.drop_last();
        assert(t.admits_all(s1, row, v1)) by {
            assert forall|i: int| 0 <= i < s1.len() implies t.admits(#[trigger] s1[i], row)
                && v1[i].len() == s1[i].len by {
                assert(s1[i] == slices[i]);
            }
        }
        lemma_write_all_shape(t, s1, row, v1);
        let mid = t.write_all(s1, row, v1);
        assert(t.admits(slices[slices.len() - 1], row));
        assert(mid.admits(slices.last(), row) == t.admits(slices.last(), row));
        lemma_write_shape(mid, slices.last(), row, vals.last());
        let u = t.write_all(slices, row, vals);
        assert forall|s2: MemorySlice, row2: Option<usize>| #[trigger]
            u.admits(s2, row2) == t.admits(s2, row2) by {
            assert(mid.write(slices.last(), row, vals.last()).admits(s2, row2) == mid.admits(
                s2,
                row2,
            ));
            assert(mid.admits(s2, row2) == t.admits(s2, row2));
        }
    }
}

/// Cells apart from all that were written hold what they held.
pub proof fn lemma_write_all_other(
    t: TraceView,
    slices: Seq<MemorySlice>,
    row: Option<usize>,
    vals: Seq<Seq<int>>,
    s2: MemorySlice,
    row2: Option<usize>,
)
    requires
        t.wf(),
        t.admits_all(slices, row, vals),
        t.admits(s2, row2),
        forall|i: int| 0 <= i < slices.len() ==> t.apart(#[trigger] slices[i], row, s2, row2),
    ensures
        t.write_all(slices, row, vals).view_at(row2).values(s2) == t.view_at(row2).values(s2),
    decreases slices.len(),
{
    if slices.len() > 0 {
        let s1 = slices.drop_last();
        let v1 = vals.drop_last();
        assert(t.admits_all(s1, row, v1)) by {
            assert forall|i: int| 0 <= i < s1.len() implies t.admits(#[trigger] s1[i], row)
                && v1[i].len() == s1[i].len by {
                assert(s1[i] == slices[i]);
            }
        }
        assert forall|i: int| 0 <= i < s1.len() implies t.apart(#[trigger] s1[i], row, s2,
            row2) by {
            assert(s1[i] == slices[i]);
        }
        lemma_write_all_other(t, s1, row, v1, s2, row2);
        lemma_write_all_shape(t, s1, row, v1);
        let mid = t.write_all(s1, row, v1);
        let last = slices[slices.len() - 1];
        assert(t.admits(last, row));
        assert(mid.admits(last, row) == t.admits(last, row));
        assert(mid.admits(s2, row2) == t.admits(s2, row2));
        assert(t.apart(last, row, s2, row2));
        assert(mid.apart(last, row, s2, row2));
        lemma_write_read_other(mid, last, row, vals.last(), s2, row2);
    }
}

/// Each slice that was written holds what was written to it, when no two of
/// the slices have a cell in common.
pub proof fn lemma_write_all_same(
    t: TraceView,
    slices: Seq<MemorySlice>,
    row: Option<usize>,
    vals: Seq<Seq<int>>,
    i: int,
)
    requires
        t.wf(),
        t.admits_all(slices, row, vals),
        pairwise_apart(slices),
        0 <= i < slices.len(),
    ensures
        t.write_all(slices, row, vals).view_at(row).values(slices[i]) == vals[i],
    decreases slices.len(),
{
    let s1 = slices.drop_last();
    let v1 = vals.drop_last();
    assert(t.admits_all(s1, row, v1)) by {
        assert forall|j: int| 0 <= j < s1.len() implies t.admits(#[trigger] s1[j], row)
            && v1[j].len() == s1[j].len by {
            assert(s1[j] == slices[j]);
        }
    }
    lemma_write_all_shape(t, s1, row, v1);
    let mid = t.write_all(s1, row, v1);
    let last = slices[slices.len() - 1];
    assert(t.admits(last, row));
    assert(mid.admits(last, row) == t.admits(last, row));
    if i == slices.len() - 1 {
        lemma_write_read_same(mid, last, row, vals.last());
    } else {
        assert(pairwise_apart(s1)) by {
            assert forall|a: int, b: int|
                #![trigger s1[a], s1[b]]
                0 <= a < b < s1.len() implies !s1[a].overlaps(&s1[b]) by {
                assert(s1[a] == slices[a]);
                assert(s1[b] == slices[b]);
            }
        }
        lemma_write_all_same(t, s1, row, v1, i);
        assert(t.admits(slices[i], row));
        assert(mid.admits(slices[i], row) == t.admits(slices[i], row));
        assert(!slices[i].overlaps(&last));
        assert(!last.overlaps(&slices[i]));
        lemma_write_read_other(mid, last, row, vals.last(), slices[i], row);
        assert(s1[i] == slices[i]);
        assert(v1[i] == vals[i]);
    }
}

/// The representatives of each of several runs of field elements.
pub open spec fn felts_all(vs: Seq<Vec<Felt>>) -> Seq<Seq<int>> {
    Seq::new(vs.len(), |i: int| felts(vs[i]@))
}

impl TraceHandle {
    /// Executable form of `admits_all`.
    pub fn admits_all(
        &self,
        slices: &Vec<MemorySlice>,
        values: &Vec<Vec<Felt>>,
        row: Option<usize>,
    ) -> (r: bool)
        requires
            self.wf(),
        ensures
            r == self@.admits_all(slices@, row, felts_all(values@)),
    {
        if slices.len() != values.len() {
            return false;
        }
        let mut i: usize = 0;
        while i < slices.len()
            invariant
                i <= slices@.len(),
                self.wf(),
                slices@.len() == values@.len(),
                forall|j: int|
                    0 <= j < i ==> self@.admits(#[trigger] slices@[j], row) && felts_all(
                        values@,
                    )[j].len() == slices@[j].len,
            decreases slices.len() - i,
        {
            if !self.admits(&slices[i], row) || values[i].len() != slices[i].len {
                assert(felts_all(values@)[i as int].len() == values@[i as int]@.len());
                return false;
            }
            assert(felts_all(values@)[i as int].len() == values@[i as int]@.len());
            i += 1;
        }
        true
    }

    /// Writes each run of values to its slice, taken at `row`, in order.
    /// Fails, and leaves the trace as it was, unless every slice exists and
    /// has a run of values of its length.
    pub fn write_all(
        &mut self,
        slices: &Vec<MemorySlice>,
        values: &Vec<Vec<Felt>>,
        row: Option<usize>,
    ) -> (r: Result<(), WitnessError>)
        requires
            old(self).wf(),
        ensures
            final(self).wf(),
            r is Ok <==> old(self)@.admits_all(slices@, row, felts_all(values@)),
            r is Ok ==> final(self)@ == old(self)@.write_all(slices@, row, felts_all(values@)),
            r is Err ==> r == Err::<(), WitnessError>(WitnessError::OutOfBounds) && final(self)@
                == old(self)@,
    {
        if !self.admits_all(slices, values, row) {
            return Err(WitnessError::OutOfBounds);
        }
        let ghost before = self@;
        let ghost vals = felts_all(values@);
        proof {
            self.lemma_wf();
            assert(slices@.take(0) =~= Seq::<MemorySlice>::empty());
        }
        let mut i: usize = 0;
        while i < slices.len()
            invariant
                i <= slices@.len(),
                self.wf(),
                before.wf(),
                before == old(self)@,
                vals == felts_all(values@),
                before.admits_all(slices@, row, vals),
                self@ == before.write_all(slices@.take(i as int), row, vals.take(i as int)),
            decreases slices.len() - i,
        {
            proof {
                let s1 = slices@.take(i as int);
                let v1 = vals.take(i as int);
                assert(before.admits_all(s1, row, v1)) by {
                    assert forall|j: int| 0 <= j < s1.len() implies before.admits(
                        #[trigger] s1[j],
                        row,
                    ) && v1[j].len() == s1[j].len by {
                        assert(s1[j] == slices@[j]);
                    }
                }
                lemma_write_all_shape(before, s1, row, v1);
                assert(before.admits(slices@[i as int], row));
                assert(self@.admits(slices@[i as int], row) == before.admits(
                    slices@[i as int],
                    row,
                ));
                assert(vals[i as int] == felts(values@[i as int]@));
                assert(slices@.take(i + 1).drop_last() =~= s1);
                assert(vals.take(i + 1).drop_last() =~= v1);
            }
            let r = self.write(&slices[i], &values[i], row);
            assert(r is Ok);
            i += 1;
        }
        proof {
            assert(slices@.take(slices@.len() as int) =~= slices@);
            assert(vals.take(slices@.len() as int) =~= vals);
        }
        Ok(())
    }
}

/// Whether no slice of the first run has a cell in common with a slice of the
/// second.
pub open spec fn none_overlap(xs: Seq<MemorySlice>, ys: Seq<MemorySlice>) -> bool {
    forall|i: int, j: int|
        #![trigger xs[i], ys[j]]
        0 <= i < xs.len() && 0 <= j < ys.len() ==> !xs[i].overlaps(&ys[j])
}

/// Whether every slice is one cell.
pub open spec fn all_single(xs: Seq<MemorySlice>) -> bool {
    forall|i: int| 0 <= i < xs.len() ==> (#[trigger] xs[i]).len == 1
}

/// Executable form of `none_overlap`.
pub fn check_none_overlap(xs: &Vec<MemorySlice>, ys: &Vec<MemorySlice>) -> (r: bool)
    ensures
        r == none_overlap(xs@, ys@),
{
    let mut i: usize = 0;
    while i < xs.len()
        invariant
            i <= xs@.len(),
            forall|a: int, b: int|
                #![trigger xs@[a], ys@[b]]
                0 <= a < i && 0 <= b < ys@.len() ==> !xs@[a].overlaps(&ys@[b]),
        decreases xs.len() - i,
    {
        let mut j: usize = 0;
        while j < ys.len()
            invariant
                i < xs@.len(),
                j <= ys@.len(),
                forall|a: int, b: int|
                    #![trigger xs@[a], ys@[b]]
                    0 <= a < i && 0 <= b < ys@.len() ==> !xs@[a].overlaps(&ys@[b]),
                forall|b: int| 0 <= b < j ==> !xs@[i as int].overlaps(&#[trigger] ys@[b]),
            decreases ys.len() - j,
        {
            if xs[i].intersects(&ys[j]) {
                return false;
            }
            j += 1;
        }
        i += 1;
    }
    true
}

/// Executable form of `pairwise_apart`.
pub fn check_pairwise_apart(xs: &Vec<MemorySlice>) -> (r: bool)
    ensures
        r == pairwise_apart(xs@),
{
    let mut j: usize = 0;
    while j < xs.len()
        invariant
            j <= xs@.len(),
            forall|a: int, b: int|
                #![trigger xs@[a], xs@[b]]
                0 <= a < b < j ==> !xs@[a].overlaps(&xs@[b]),
        decreases xs.len() - j,
    {
        let mut i: usize = 0;
        while i < j
            invariant
                i <= j < xs@.len(),
                forall|a: int, b: int|
                    #![trigger xs@[a], xs@[b]]
                    0 <= a < b < j ==> !xs@[a].overlaps(&xs@[b]),
                forall|a: int| 0 <= a < i ==> !(#[trigger] xs@[a]).overlaps(&xs@[j as int]),
            decreases j - i,
        {
            if xs[i].intersects(&xs[j]) {
                return false;
            }
            i += 1;
        }
        j += 1;
    }
    true
}

/// Executable form of `all_single`.
pub fn check_all_single(xs: &Vec<MemorySlice>) -> (r: bool)
    ensures
        r == all_single(xs@),
{
    let mut i: usize = 0;
    while i < xs.len()
        invariant
            i <= xs@.len(),
            forall|a: int| 0 <= a < i ==> (#[trigger] xs@[a]).len == 1,
        decreases xs.len() - i,
    {
        if xs[i].len != 1 {
            return false;
        }
        i += 1;
    }
    true
}

/// Two writes to slices without a cell in common can be made in either order.
pub proof fn lemma_write_commutes(
    t: TraceView,
    s1: MemorySlice,
    v1: Seq<int>,
    s2: MemorySlice,
    v2: Seq<int>,
    row: Option<usize>,
)
    requires
        t.wf(),
        t.admits(s1, row),
        t.admits(s2, row),
        v1.len() == s1.len,
        v2.len() == s2.len,
        !s1.overlaps(&s2),
    ensures
        t.write(s1, row, v1).write(s2, row, v2) == t.write(s2, row, v2).write(s1, row, v1),
{
    let a = t.write(s1, row, v1).write(s2, row, v2);
    let b = t.write(s2, row, v2).write(s1, row, v1);
    assert(a.public =~= b.public);
    assert(a.global =~= b.global);
    assert(a.rows =~= b.rows) by {
        assert forall|r: int| 0 <= r < t.rows.len() implies a.rows[r] =~= b.rows[r] by {
            assert(t.rows[r].len() == t.rows[0].len());
        }
    }
}

/// A write to a slice that has no cell in common with any of a run of slices
/// can be made before or after the writes to the run.
pub proof fn lemma_write_all_then_one(
    t: TraceView,
    slices: Seq<MemorySlice>,
    vals: Seq<Seq<int>>,
    s: MemorySlice,
    v: Seq<int>,
    row: Option<usize>,
)
    requires
        t.wf(),
        t.admits_all(slices, row, vals),
        t.admits(s, row),
        v.len() == s.len,
        forall|i: int| 0 <= i < slices.len() ==> !(#[trigger] slices[i]).overlaps(&s),
    ensures
        t.write_all(slices, row, vals).write(s, row, v) == t.write(s, row, v).write_all(
            slices,
            row,
            vals,
        ),
    decreases slices.len(),
{
    if slices.len() > 0 {
        let s1 = slices.drop_last();
        let v1 = vals.drop_last();
        let last = slices[slices.len() - 1];
        assert(t.admits_all(s1, row, v1)) by {
            assert forall|i: int| 0 <= i < s1.len() implies t.admits(#[trigger] s1[i], row)
                && v1[i].len() == s1[i].len by {
                assert(s1[i] == slices[i]);
            }
        }
        assert forall|i: int| 0 <= i < s1.len() implies !(#[trigger] s1[i]).overlaps(&s) by {
            assert(s1[i] == slices[i]);
        }
        lemma_write_all_then_one(t, s1, v1, s, v, row);
        lemma_write_all_shape(t, s1, row, v1);
        let mid = t.write_all(s1, row, v1);
        assert(t.admits(last, row));
        assert(mid.admits(last, row) == t.admits(last, row));
        assert(mid.admits(s, row) == t.admits(s, row));
        assert(!last.overlaps(&s));
        lemma_write_commutes(mid, last, vals.last(), s, v, row);
    }
}

/// The writes to two runs of slices, no slice of the one with a cell in common
/// with a slice of the other, can be made in either order.
pub proof fn lemma_write_all_commutes(
    t: TraceView,
    xs: Seq<MemorySlice>,
    xv: Seq<Seq<int>>,
    ys: Seq<MemorySlice>,
    yv: Seq<Seq<int>>,
    row: Option<usize>,
)
    requires
        t.wf(),
        t.admits_all(xs, row, xv),
        t.admits_all(ys, row, yv),
        none_overlap(xs, ys),
    ensures
        t.write_all(xs, row, xv).write_all(ys, row, yv) == t.write_all(ys, row, yv).write_all(
            xs,
            row,
            xv,
        ),
    decreases ys.len(),
{
    if ys.len() > 0 {
        let y1 = ys.drop_last();
        let w1 = yv.drop_last();
        let last = ys[ys.len() - 1];
        assert(t.admits_all(y1, row, w1)) by {
            assert forall|i: int| 0 <= i < y1.len() implies t.admits(#[trigger] y1[i], row)
                && w1[i].len() == y1[i].len by {
                assert(y1[i] == ys[i]);
            }
        }
        assert(none_overlap(xs, y1)) by {
            assert forall|i: int, j: int|
                #![trigger xs[i], y1[j]]
                0 <= i < xs.len() && 0 <= j < y1.len() implies !xs[i].overlaps(&y1[j]) by {
                assert(y1[j] == ys[j]);
            }
        }
        lemma_write_all_commutes(t, xs, xv, y1, w1, row);
        // t.xs.y1.last == t.y1.xs.last == t.y1.last.xs
        lemma_write_all_shape(t, y1, row, w1);
        let mid = t.write_all(y1, row, w1);
        assert(mid.admits_all(xs, row, xv)) by {
            assert forall|i: int| 0 <= i < xs.len() implies mid.admits(#[trigger] xs[i], row)
                && xv[i].len() == xs[i].len by {
                assert(t.admits(xs[i], row));
                assert(mid.admits(xs[i], row) == t.admits(xs[i], row));
            }
        }
        assert(t.admits(last, row));
        assert(mid.admits(last, row) == t.admits(last, row));
        assert forall|i: int| 0 <= i < xs.len() implies !(#[trigger] xs[i]).overlaps(&last) by {
            assert(!xs[i].overlaps(&ys[ys.len() - 1]));
        }
        lemma_write_all_then_one(mid, xs, xv, last, yv.last(), row);
    }
}

/// A register outside the trace holds the same values at every row.
pub proof fn lemma_rowless_constant(t: TraceView, s: MemorySlice, r1: int, r2: int)
    requires
        !s.kind.in_trace(),
    ensures
        t.window(r1).values(s) == t.window(r2).values(s),
{
    assert(t.window(r1).values(s) =~= t.window(r2).values(s));
}

} // verus!
