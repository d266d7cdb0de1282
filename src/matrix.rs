use vstd::prelude::*;

use crate::error::MatrixError;

verus! {

/// A dense, row-major grid of entries with its row and column counts.
pub struct Matrix<T> {
    pub rows: usize,
    pub cols: usize,
    pub data: Vec<Vec<T>>,
}

/// Every row of `g` has exactly `cols` entries.
pub open spec fn rectangular<T>(g: Seq<Seq<T>>, cols: nat) -> bool {
    forall|i: int| 0 <= i < g.len() ==> (#[trigger] g[i]).len() == cols
}

/// A grid is accepted when it has a row, its first row has an entry, and all
/// rows share the first row's length.
pub open spec fn well_formed_grid<T>(g: Seq<Seq<T>>) -> bool {
    g.len() > 0 && g[0].len() > 0 && rectangular(g, g[0].len())
}

/// `r` is a possible outcome of combining `a` and `b` entry by entry with `f`.
pub open spec fn zipped<T, F: Fn(T, T) -> T>(f: F, a: Seq<Seq<T>>, b: Seq<Seq<T>>, r: Seq<Seq<T>>) -> bool {
    &&& r.len() == a.len()
    &&& forall|i: int| 0 <= i < a.len() ==> (#[trigger] r[i]).len() == a[i].len()
    &&& forall|i: int, j: int|
        0 <= i < a.len() && 0 <= j < a[i].len() ==> f.ensures((a[i][j], b[i][j]), #[trigger] r[i][j])
}

/// `r` is a possible outcome of applying `f` to every entry of `a`.
pub open spec fn mapped<T, F: Fn(T) -> T>(f: F, a: Seq<Seq<T>>, r: Seq<Seq<T>>) -> bool {
    &&& r.len() == a.len()
    &&& forall|i: int| 0 <= i < a.len() ==> (#[trigger] r[i]).len() == a[i].len()
    &&& forall|i: int, j: int|
        0 <= i < a.len() && 0 <= j < a[i].len() ==> f.ensures((a[i][j],), #[trigger] r[i][j])
}

/// `acc` is a possible value of the running sum over the first `k` terms of
/// row `a` against column `j` of `b`, starting from `zero` and adding each
/// product `times(a[t], b[t][j])` with `plus`.
pub open spec fn dot_acc<T, M: Fn(T, T) -> T, P: Fn(T, T) -> T>(
    times: M,
    plus: P,
    zero: T,
    a: Seq<T>,
    b: Seq<Seq<T>>,
    j: int,
    k: nat,
    acc: T,
) -> bool
    decreases k,
{
    if k == 0 {
        acc == zero
    } else {
        exists|prev: T, prod: T|
            #![trigger times.ensures((a[k - 1], b[k - 1][j]), prod), plus.ensures((prev, prod), acc)]
            dot_acc(times, plus, zero, a, b, j, (k - 1) as nat, prev)
                && times.ensures((a[k - 1], b[k - 1][j]), prod)
                && plus.ensures((prev, prod), acc)
    }
}

/// `r` is a possible outcome of the product of `a` (with `n` columns) and `b`
/// (with `p` columns).
pub open spec fn multiplied<T, M: Fn(T, T) -> T, P: Fn(T, T) -> T>(
    times: M,
    plus: P,
    zero: T,
    a: Seq<Seq<T>>,
    b: Seq<Seq<T>>,
    n: nat,
    p: nat,
    r: Seq<Seq<T>>,
) -> bool {
    &&& r.len() == a.len()
    &&& forall|i: int| 0 <= i < a.len() ==> (#[trigger] r[i]).len() == p
    &&& forall|i: int, j: int|
        0 <= i < a.len() && 0 <= j < p ==> dot_acc(times, plus, zero, a[i], b, j, n, #[trigger] r[i][j])
}

/// `out` is a possible outcome of eliminating column `lead` from `row` with
/// the pivot row `prow`: one multiplier `m = div(row[lead], prow[lead])`, then
/// `out[c] = elim(row[c], prow[c], m)` for every column.
pub open spec fn row_eliminated<T, D: Fn(T, T) -> T, E: Fn(T, T, T) -> T>(
    div: D,
    elim: E,
    row: Seq<T>,
    prow: Seq<T>,
    lead: int,
    out: Seq<T>,
) -> bool {
    &&& out.len() == row.len()
    &&& exists|m: T|
        #![trigger div.ensures((row[lead], prow[lead]), m)]
        div.ensures((row[lead], prow[lead]), m) && forall|c: int|
            0 <= c < row.len() ==> elim.ensures((row[c], prow[c], m), #[trigger] out[c])
}

/// `out` is a possible outcome of dividing every entry of `prow` by its entry
/// in column `lead`.
pub open spec fn row_normalized<T, D: Fn(T, T) -> T>(div: D, prow: Seq<T>, lead: int, out: Seq<T>) -> bool {
    &&& out.len() == prow.len()
    &&& forall|c: int| 0 <= c < prow.len() ==> div.ensures((prow[c], prow[lead]), #[trigger] out[c])
}

/// `r` is a possible outcome of one Gauss-Jordan pass on `a` with pivot
/// `(lead, lead)`: every other row is eliminated against the pivot row as it
/// stood before the pass, and the pivot row is divided by the pivot.
pub open spec fn pivoted<T, D: Fn(T, T) -> T, E: Fn(T, T, T) -> T>(
    div: D,
    elim: E,
    a: Seq<Seq<T>>,
    lead: int,
    r: Seq<Seq<T>>,
) -> bool {
    &&& r.len() == a.len()
    &&& row_normalized(div, a[lead], lead, r[lead])
    &&& forall|i: int|
        0 <= i < a.len() && i != lead ==> row_eliminated(div, elim, a[i], a[lead], lead, #[trigger] r[i])
}

/// `a` with rows `i` and `j` exchanged.
pub open spec fn swapped<T>(a: Seq<Seq<T>>, i: int, j: int) -> Seq<Seq<T>> {
    a.update(i, a[j]).update(j, a[i])
}

/// Row `p` is the first row at or below `lead` whose entry in column `lead`
/// may pass `nonzero`, every row between them having failed it.
pub open spec fn pivot_choice<T, Z: Fn(T) -> bool>(nonzero: Z, a: Seq<Seq<T>>, lead: int, p: int) -> bool {
    &&& lead <= p < a.len()
    &&& nonzero.ensures((a[p][lead],), true)
    &&& forall|q: int| lead <= q < p ==> nonzero.ensures((#[trigger] a[q][lead],), false)
}

/// No row at or below `lead` has an entry in column `lead` that passes `nonzero`.
pub open spec fn no_pivot<T, Z: Fn(T) -> bool>(nonzero: Z, a: Seq<Seq<T>>, lead: int) -> bool {
    forall|q: int| lead <= q < a.len() ==> nonzero.ensures((#[trigger] a[q][lead],), false)
}

/// `r` is a possible outcome of the pass with pivot `(lead, lead)` on `a`: the
/// pivot row is chosen, swapped into place, and the column is eliminated.
pub open spec fn reduction_step<T, Z: Fn(T) -> bool, D: Fn(T, T) -> T, E: Fn(T, T, T) -> T>(
    nonzero: Z,
    div: D,
    elim: E,
    a: Seq<Seq<T>>,
    lead: int,
    r: Seq<Seq<T>>,
) -> bool {
    exists|p: int|
        #![trigger pivot_choice(nonzero, a, lead, p)]
        pivot_choice(nonzero, a, lead, p) && pivoted(div, elim, swapped(a, lead, p), lead, r)
}

/// `r` is a possible outcome of the first `k` passes of Gauss-Jordan
/// reduction on `a`.
pub open spec fn reduced<T, Z: Fn(T) -> bool, D: Fn(T, T) -> T, E: Fn(T, T, T) -> T>(
    nonzero: Z,
    div: D,
    elim: E,
    a: Seq<Seq<T>>,
    k: nat,
    r: Seq<Seq<T>>,
) -> bool
    decreases k,
{
    if k == 0 {
        r == a
    } else {
        exists|prev: Seq<Seq<T>>|
            #![trigger reduction_step(nonzero, div, elim, prev, k - 1, r)]
            reduced(nonzero, div, elim, a, (k - 1) as nat, prev)
                && reduction_step(nonzero, div, elim, prev, k - 1, r)
    }
}

impl<T: Copy> Matrix<T> {
    /// The entries, row by row.
    pub open spec fn view(&self) -> Seq<Seq<T>> {
        Seq::new(self.data@.len(), |i: int| self.data@[i]@)
    }

    /// The counts describe the grid and the grid is rectangular.
    pub open spec fn wf(&self) -> bool {
        &&& self.data@.len() == self.rows
        &&& rectangular(self@, self.cols as nat)
    }

    /// A `rows` by `cols` matrix whose entries are all `fill`.
    pub fn new(rows: usize, cols: usize, fill: T) -> (m: Self)
        ensures
            m.wf(),
            m.rows == rows,
            m.cols == cols,
            forall|i: int, j: int| 0 <= i < rows && 0 <= j < cols ==> #[trigger] m@[i][j] == fill,
    {
        let mut data: Vec<Vec<T>> = Vec::new();
        let mut i: usize = 0;
        while i < rows
            invariant
                i <= rows,
                data@.len() == i,
                forall|k: int| 0 <= k < i ==> (#[trigger] data@[k])@ == Seq::new(cols as nat, |j: int| fill),
            decreases rows - i,
        {
            let mut row: Vec<T> = Vec::new();
            let mut j: usize = 0;
            while j < cols
                invariant
                    j <= cols,
                    row@ == Seq::new(j as nat, |c: int| fill),
                decreases cols - j,
            {
                row.push(fill);
                j += 1;
                assert(row@ =~= Seq::new(j as nat, |c: int| fill));
            }
            data.push(row);
            i += 1;
        }
        let m = Matrix { rows, cols, data };
        assert(rectangular(m@, cols as nat));
        m
    }

    /// Builds a matrix from a parsed grid. The grid is refused when it has no
    /// row, when its rows have no entries, or when its rows differ in length.
    pub fn from_grid(grid: Vec<Vec<T>>) -> (r: Result<Self, MatrixError>)
        ensures
            match r {
                Ok(m) => {
                    &&& well_formed_grid(grid@.map_values(|row: Vec<T>| row@))
                    &&& m.wf()
                    &&& m@ == grid@.map_values(|row: Vec<T>| row@)
                    &&& m.rows == grid@.len()
                    &&& m.cols == grid@[0]@.len()
                },
                Err(e) => {
                    &&& !well_formed_grid(grid@.map_values(|row: Vec<T>| row@))
                    &&& e == MatrixError::MalformedInputError
                },
            },
    {
        let ghost g = grid@.map_values(|row: Vec<T>| row@);
        if grid.len() == 0 {
            return Err(MatrixError::MalformedInputError);
        }
        let cols = grid[0].len();
        if cols == 0 {
            return Err(MatrixError::MalformedInputError);
        }
        let mut i: usize = 1;
        while i < grid.len()
            invariant
                1 <= i <= grid@.len(),
                g == grid@.map_values(|row: Vec<T>| row@),
                cols == grid@[0]@.len(),
                forall|k: int| 0 <= k < i ==> (#[trigger] grid@[k])@.len() == cols,
            decreases grid@.len() - i,
        {
            if grid[i].len() != cols {
                assert(g[i as int].len() != g[0].len());
                return Err(MatrixError::MalformedInputError);
            }
            i += 1;
        }
        let rows = grid.len();
        let m = Matrix { rows, cols, data: grid };
        assert(m@ =~= g);
        Ok(m)
    }
    /// An independent copy with the same counts and entries.
    pub fn copy(&self) -> (m: Self)
        requires
            self.wf(),
        ensures
            m.wf(),
            m.rows == self.rows,
            m.cols == self.cols,
            m@ == self@,
    {
        let mut data: Vec<Vec<T>> = Vec::new();
        let mut i: usize = 0;
        while i < self.data.len()
            invariant
                i <= self.data@.len(),
                data@.len() == i,
                forall|k: int| 0 <= k < i ==> (#[trigger] data@[k])@ == self.data@[k]@,
            decreases self.data@.len() - i,
        {
            let src = &self.data[i];
            let mut row: Vec<T> = Vec::new();
            let mut j: usize = 0;
            while j < src.len()
                invariant
                    j <= src@.len(),
                    row@ == src@.subrange(0, j as int),
                decreases src@.len() - j,
            {
                row.push(src[j]);
                j += 1;
                assert(row@ =~= src@.subrange(0, j as int));
            }
            assert(row@ =~= src@);
            data.push(row);
            i += 1;
        }
        let m = Matrix { rows: self.rows, cols: self.cols, data };
        assert(m@ =~= self@);
        m
    }

    /// Replaces every entry `x` with `f(x)`.
    pub fn apply<F: Fn(T) -> T>(&mut self, f: F)
        requires
            old(self).wf(),
            forall|x: T| #[trigger] f.requires((x,)),
        ensures
            final(self).wf(),
            final(self).rows == old(self).rows,
            final(self).cols == old(self).cols,
            mapped(f, old(self)@, final(self)@),
    {
        let ghost a = self@;
        let mut data: Vec<Vec<T>> = Vec::new();
        let mut i: usize = 0;
        while i < self.data.len()
            invariant
                i <= self.data@.len(),
                a == self@,
                self.wf(),
                forall|x: T| #[trigger] f.requires((x,)),
                data@.len() == i,
                forall|k: int| 0 <= k < i ==> (#[trigger] data@[k])@.len() == a[k].len(),
                forall|k: int, c: int|
                    0 <= k < i && 0 <= c < a[k].len() ==> f.ensures((a[k][c],), #[trigger] data@[k]@[c]),
            decreases self.data@.len() - i,
        {
            let mut row: Vec<T> = Vec::new();
            let mut j: usize = 0;
            while j < self.data[i].len()
                invariant
                    i < self.data@.len(),
                    a == self@,
                    j <= a[i as int].len(),
                    forall|x: T| #[trigger] f.requires((x,)),
                    row@.len() == j,
                    forall|c: int| 0 <= c < j ==> f.ensures((a[i as int][c],), #[trigger] row@[c]),
                decreases a[i as int].len() - j,
            {
                let y = f(self.data[i][j]);
                row.push(y);
                j += 1;
            }
            data.push(row);
            i += 1;
        }
        self.data = data;
    }

    /// Combines two matrices of one shape entry by entry with `f`.
    fn zip_with<F: Fn(T, T) -> T>(&self, b: &Self, f: F) -> (r: Result<Self, MatrixError>)
        requires
            self.wf(),
            b.wf(),
            forall|x: T, y: T| #[trigger] f.requires((x, y)),
        ensures
            match r {
                Ok(m) => {
                    &&& self.rows == b.rows && self.cols == b.cols
                    &&& m.wf() && m.rows == self.rows && m.cols == self.cols
                    &&& zipped(f, self@, b@, m@)
                },
                Err(e) => {
                    &&& (self.rows != b.rows || self.cols != b.cols)
                    &&& e == MatrixError::DimensionMismatchError
                },
            },
    {
        if self.rows != b.rows || self.cols != b.cols {
            return Err(MatrixError::DimensionMismatchError);
        }
        let mut data: Vec<Vec<T>> = Vec::new();
        let mut i: usize = 0;
        while i < self.rows
            invariant
                i <= self.rows,
                self.wf(),
                b.wf(),
                self.rows == b.rows && self.cols == b.cols,
                forall|x: T, y: T| #[trigger] f.requires((x, y)),
                data@.len() == i,
                forall|k: int| 0 <= k < i ==> (#[trigger] data@[k])@.len() == self.cols,
                forall|k: int, c: int|
                    0 <= k < i && 0 <= c < self.cols ==> f.ensures(
                        (self@[k][c], b@[k][c]),
                        #[trigger] data@[k]@[c],
                    ),
            decreases self.rows - i,
        {
            assert(self@[i as int].len() == self.cols && b@[i as int].len() == self.cols);
            let mut row: Vec<T> = Vec::new();
            let mut j: usize = 0;
            while j < self.cols
                invariant
                    i < self.rows,
                    j <= self.cols,
                    self.wf(),
                    b.wf(),
                    self.rows == b.rows && self.cols == b.cols,
                    forall|x: T, y: T| #[trigger] f.requires((x, y)),
                    row@.len() == j,
                    forall|c: int| 0 <= c < j ==> f.ensures(
                        (self@[i as int][c], b@[i as int][c]),
                        #[trigger] row@[c],
                    ),
                decreases self.cols - j,
            {
                assert(self@[i as int].len() == self.cols && b@[i as int].len() == self.cols);
                let y = f(self.data[i][j], b.data[i][j]);
                row.push(y);
                j += 1;
            }
            data.push(row);
            i += 1;
        }
        let m = Matrix { rows: self.rows, cols: self.cols, data };
        Ok(m)
    }

    /// Entrywise sum, with `plus` as the addition of entries. Fails when the
    /// shapes differ.
    pub fn add<F: Fn(T, T) -> T>(&self, b: &Self, plus: F) -> (r: Result<Self, MatrixError>)
        requires
            self.wf(),
            b.wf(),
            forall|x: T, y: T| #[trigger] plus.requires((x, y)),
        ensures
            match r {
                Ok(m) => {
                    &&& self.rows == b.rows && self.cols == b.cols
                    &&& m.wf() && m.rows == self.rows && m.cols == self.cols
                    &&& zipped(plus, self@, b@, m@)
                },
                Err(e) => {
                    &&& (self.rows != b.rows || self.cols != b.cols)
                    &&& e == MatrixError::DimensionMismatchError
                },
            },
    {
        self.zip_with(b, plus)
    }

    /// Entrywise difference, with `minus` as the subtraction of entries. Fails
    /// when the shapes differ.
    pub fn subtract<F: Fn(T, T) -> T>(&self, b: &Self, minus: F) -> (r: Result<Self, MatrixError>)
        requires
            self.wf(),
            b.wf(),
            forall|x: T, y: T| #[trigger] minus.requires((x, y)),
        ensures
            match r {
                Ok(m) => {
                    &&& self.rows == b.rows && self.cols == b.cols
                    &&& m.wf() && m.rows == self.rows && m.cols == self.cols
                    &&& zipped(minus, self@, b@, m@)
                },
                Err(e) => {
                    &&& (self.rows != b.rows || self.cols != b.cols)
                    &&& e == MatrixError::DimensionMismatchError
                },
            },
    {
        self.zip_with(b, minus)
    }
    /// The matrix product `self * b`: entry `(i, j)` sums `times(self[i][k], b[k][j])`
    /// over `k` with `plus`, starting from `zero`. Fails unless the column
    /// count of `self` equals the row count of `b`.
    pub fn dot<M: Fn(T, T) -> T, P: Fn(T, T) -> T>(&self, b: &Self, zero: T, times: M, plus: P) -> (r:
        Result<Self, MatrixError>)
        requires
            self.wf(),
            b.wf(),
            forall|x: T, y: T| #[trigger] times.requires((x, y)),
            forall|x: T, y: T| #[trigger] plus.requires((x, y)),
        ensures
            match r {
                Ok(m) => {
                    &&& self.cols == b.rows
                    &&& m.wf() && m.rows == self.rows && m.cols == b.cols
                    &&& multiplied(times, plus, zero, self@, b@, self.cols as nat, b.cols as nat, m@)
                },
                Err(e) => {
                    &&& self.cols != b.rows
                    &&& e == MatrixError::DimensionMismatchError
                },
            },
    {
        if self.cols != b.rows {
            return Err(MatrixError::DimensionMismatchError);
        }
        let mut data: Vec<Vec<T>> = Vec::new();
        let mut i: usize = 0;
        while i < self.rows
            invariant
                i <= self.rows,
                self.wf(),
                b.wf(),
                self.cols == b.rows,
                forall|x: T, y: T| #[trigger] times.requires((x, y)),
                forall|x: T, y: T| #[trigger] plus.requires((x, y)),
                data@.len() == i,
                forall|k: int| 0 <= k < i ==> (#[trigger] data@[k])@.len() == b.cols,
                forall|k: int, c: int|
                    0 <= k < i && 0 <= c < b.cols ==> dot_acc(
                        times,
                        plus,
                        zero,
                        self@[k],
                        b@,
                        c,
                        self.cols as nat,
                        #[trigger] data@[k]@[c],
                    ),
            decreases self.rows - i,
        {
            let mut row: Vec<T> = Vec::new();
            let mut j: usize = 0;
            while j < b.cols
                invariant
                    i < self.rows,
                    j <= b.cols,
                    self.wf(),
                    b.wf(),
                    self.cols == b.rows,
                    forall|x: T, y: T| #[trigger] times.requires((x, y)),
                    forall|x: T, y: T| #[trigger] plus.requires((x, y)),
                    row@.len() == j,
                    forall|c: int|
                        0 <= c < j ==> dot_acc(
                            times,
                            plus,
                            zero,
                            self@[i as int],
                            b@,
                            c,
                            self.cols as nat,
                            #[trigger] row@[c],
                        ),
                decreases b.cols - j,
            {
                let mut sum: T = zero;
                let mut k: usize = 0;
                while k < self.cols
                    invariant
                        i < self.rows,
                        j < b.cols,
                        k <= self.cols,
                        self.wf(),
                        b.wf(),
                        self.cols == b.rows,
                        forall|x: T, y: T| #[trigger] times.requires((x, y)),
                        forall|x: T, y: T| #[trigger] plus.requires((x, y)),
                        dot_acc(times, plus, zero, self@[i as int], b@, j as int, k as nat, sum),
                    decreases self.cols - k,
                {
                    assert(self@[i as int].len() == self.cols);
                    assert(b@[k as int].len() == b.cols);
                    let x = self.data[i][k];
                    let y = b.data[k][j];
                    assert(x == self@[i as int][k as int] && y == b@[k as int][j as int]);
                    let prod = times(x, y);
                    let next = plus(sum, prod);
                    assert((k + 1) as nat - 1 == k);
                    assert(dot_acc(times, plus, zero, self@[i as int], b@, j as int, (k + 1) as nat, next));
                    sum = next;
                    k += 1;
                }
                row.push(sum);
                j += 1;
            }
            data.push(row);
            i += 1;
        }
        Ok(Matrix { rows: self.rows, cols: b.cols, data })
    }
    /// Exchanges rows `i` and `j`.
    pub fn swap_rows(&mut self, i: usize, j: usize)
        requires
            old(self).wf(),
            i < old(self).rows,
            j < old(self).rows,
        ensures
            final(self).wf(),
            final(self).rows == old(self).rows,
            final(self).cols == old(self).cols,
            final(self)@ == old(self)@.update(i as int, old(self)@[j as int]).update(
                j as int,
                old(self)@[i as int],
            ),
    {
        let ghost a = self@;
        let ghost d = self.data@;
        if i != j {
            let mut held: Vec<T> = Vec::new();
            self.data.set_and_swap(i, &mut held);
            self.data.set_and_swap(j, &mut held);
            self.data.set_and_swap(i, &mut held);
        }
        assert(self.data@ =~= d.update(i as int, d[j as int]).update(j as int, d[i as int]));
        assert(self@ =~= a.update(i as int, a[j as int]).update(j as int, a[i as int]));
    }

    /// The first row at or below `lead` whose entry in column `lead` passes
    /// `nonzero`, or `None` when no such row exists.
    pub fn find_pivot<Z: Fn(T) -> bool>(&self, lead: usize, nonzero: Z) -> (r: Option<usize>)
        requires
            self.wf(),
            lead < self.cols,
            forall|x: T| #[trigger] nonzero.requires((x,)),
        ensures
            match r {
                Some(p) => {
                    &&& lead <= p < self.rows
                    &&& nonzero.ensures((self@[p as int][lead as int],), true)
                    &&& forall|q: int|
                        lead <= q < p ==> nonzero.ensures((#[trigger] self@[q][lead as int],), false)
                },
                None => forall|q: int|
                    lead <= q < self.rows ==> nonzero.ensures((#[trigger] self@[q][lead as int],), false),
            },
    {
        let mut q: usize = lead;
        while q < self.rows
            invariant
                self.wf(),
                lead < self.cols,
                lead <= q,
                forall|x: T| #[trigger] nonzero.requires((x,)),
                forall|t: int|
                    lead <= t < q ==> nonzero.ensures((#[trigger] self@[t][lead as int],), false),
            decreases self.rows - q,
        {
            assert(self@[q as int].len() == self.cols);
            let x = self.data[q][lead];
            assert(x == self@[q as int][lead as int]);
            if nonzero(x) {
                return Some(q);
            }
            q += 1;
        }
        None
    }

    /// One Gauss-Jordan pass with pivot `(lead, lead)`. The pivot row is read
    /// as it stood before the pass: each other row `i` gets the multiplier
    /// `div(self[i][lead], pivot)` and the entries `elim(self[i][c], p[c], m)`,
    /// and the pivot row is divided by the pivot last.
    pub fn eliminate<D: Fn(T, T) -> T, E: Fn(T, T, T) -> T>(&mut self, lead: usize, div: D, elim: E)
        requires
            old(self).wf(),
            lead < old(self).rows,
            lead < old(self).cols,
            forall|x: T, y: T| #[trigger] div.requires((x, y)),
            forall|x: T, y: T, z: T| #[trigger] elim.requires((x, y, z)),
        ensures
            final(self).wf(),
            final(self).rows == old(self).rows,
            final(self).cols == old(self).cols,
            pivoted(div, elim, old(self)@, lead as int, final(self)@),
    {
        let ghost a = self@;
        let pivot_row = &self.data[lead];
        assert(pivot_row@ == a[lead as int]);
        let pivot = pivot_row[lead];
        let mut data: Vec<Vec<T>> = Vec::new();
        let mut i: usize = 0;
        while i < self.rows
            invariant
                i <= self.rows,
                self.wf(),
                a == self@,
                lead < self.rows,
                lead < self.cols,
                pivot_row@ == a[lead as int],
                pivot == a[lead as int][lead as int],
                forall|x: T, y: T| #[trigger] div.requires((x, y)),
                forall|x: T, y: T, z: T| #[trigger] elim.requires((x, y, z)),
                data@.len() == i,
                forall|k: int| 0 <= k < i ==> (#[trigger] data@[k])@.len() == self.cols,
                lead < i ==> row_normalized(div, a[lead as int], lead as int, data@[lead as int]@),
                forall|k: int|
                    0 <= k < i && k != lead ==> row_eliminated(
                        div,
                        elim,
                        a[k],
                        a[lead as int],
                        lead as int,
                        (#[trigger] data@[k])@,
                    ),
            decreases self.rows - i,
        {
            let cur = &self.data[i];
            assert(cur@ == a[i as int] && cur@.len() == self.cols);
            let mut row: Vec<T> = Vec::new();
            if i == lead {
                let mut c: usize = 0;
                while c < self.cols
                    invariant
                        c <= self.cols,
                        pivot_row@ == a[lead as int],
                        pivot_row@.len() == self.cols,
                        pivot == a[lead as int][lead as int],
                        forall|x: T, y: T| #[trigger] div.requires((x, y)),
                        row@.len() == c,
                        forall|t: int| 0 <= t < c ==> div.ensures((pivot_row@[t], pivot), #[trigger] row@[t]),
                    decreases self.cols - c,
                {
                    let y = div(pivot_row[c], pivot);
                    row.push(y);
                    c += 1;
                }
            } else {
                let m = div(cur[lead], pivot);
                let mut c: usize = 0;
                while c < self.cols
                    invariant
                        c <= self.cols,
                        cur@.len() == self.cols,
                        pivot_row@.len() == self.cols,
                        forall|x: T, y: T, z: T| #[trigger] elim.requires((x, y, z)),
                        row@.len() == c,
                        forall|t: int|
                            0 <= t < c ==> elim.ensures((cur@[t], pivot_row@[t], m), #[trigger] row@[t]),
                    decreases self.cols - c,
                {
                    let y = elim(cur[c], pivot_row[c], m);
                    row.push(y);
                    c += 1;
                }
                assert(div.ensures((a[i as int][lead as int], a[lead as int][lead as int]), m));
            }
            data.push(row);
            i += 1;
        }
        self.data = data;
    }
    /// Reduces the matrix in place to reduced row-echelon form by Gauss-Jordan
    /// elimination with pivots on the diagonal. For each pivot column the
    /// first row at or below the diagonal whose entry passes `nonzero` is
    /// swapped into place, then the column is eliminated (see `eliminate`).
    /// Afterwards `fix` is applied to every entry. When a column has no
    /// usable pivot the reduction stops with `SingularPivotError` and the
    /// matrix is left as it was.
    pub fn rref<Z: Fn(T) -> bool, D: Fn(T, T) -> T, E: Fn(T, T, T) -> T, C: Fn(T) -> T>(
        &mut self,
        nonzero: Z,
        div: D,
        elim: E,
        fix: C,
    ) -> (r: Result<(), MatrixError>)
        requires
            old(self).wf(),
            old(self).rows <= old(self).cols,
            forall|x: T| #[trigger] nonzero.requires((x,)),
            forall|x: T, y: T| #[trigger] div.requires((x, y)),
            forall|x: T, y: T, z: T| #[trigger] elim.requires((x, y, z)),
            forall|x: T| #[trigger] fix.requires((x,)),
        ensures
            final(self).wf(),
            final(self).rows == old(self).rows,
            final(self).cols == old(self).cols,
            match r {
                Ok(()) => exists|g: Seq<Seq<T>>|
                    #![trigger reduced(nonzero, div, elim, old(self)@, old(self).rows as nat, g)]
                    reduced(nonzero, div, elim, old(self)@, old(self).rows as nat, g) && mapped(
                        fix,
                        g,
                        final(self)@,
                    ),
                Err(e) => {
                    &&& e == MatrixError::SingularPivotError
                    &&& final(self)@ == old(self)@
                    &&& exists|k: nat, g: Seq<Seq<T>>|
                        #![trigger reduced(nonzero, div, elim, old(self)@, k, g)]
                        k < old(self).rows && reduced(nonzero, div, elim, old(self)@, k, g) && no_pivot(
                            nonzero,
                            g,
                            k as int,
                        )
                },
            },
    {
        let ghost a0 = self@;
        let mut work = self.copy();
        let mut lead: usize = 0;
        while lead < work.rows
            invariant
                self.wf(),
                self@ == a0,
                work.wf(),
                work.rows == self.rows,
                work.cols == self.cols,
                self.rows <= self.cols,
                lead <= work.rows,
                forall|x: T| #[trigger] nonzero.requires((x,)),
                forall|x: T, y: T| #[trigger] div.requires((x, y)),
                forall|x: T, y: T, z: T| #[trigger] elim.requires((x, y, z)),
                reduced(nonzero, div, elim, a0, lead as nat, work@),
            decreases work.rows - lead,
        {
            let ghost prev = work@;
            match work.find_pivot(lead, &nonzero) {
                None => {
                    assert(no_pivot(nonzero, prev, lead as int));
                    return Err(MatrixError::SingularPivotError);
                },
                Some(p) => {
                    assert(pivot_choice(nonzero, prev, lead as int, p as int));
                    work.swap_rows(lead, p);
                    assert(work@ == swapped(prev, lead as int, p as int));
                    work.eliminate(lead, &div, &elim);
                    assert(reduction_step(nonzero, div, elim, prev, lead as int, work@));
                    let ghost k1 = (lead + 1) as nat;
                    assert(reduced(nonzero, div, elim, a0, (k1 - 1) as nat, prev)
                        && reduction_step(nonzero, div, elim, prev, k1 - 1, work@));
                    assert(reduced(nonzero, div, elim, a0, (lead + 1) as nat, work@));
                },
            }
            lead += 1;
        }
        let ghost g = work@;
        work.apply(fix);
        assert(reduced(nonzero, div, elim, a0, self.rows as nat, g));
        *self = work;
        Ok(())
    }
}

} // verus!
