use vstd::prelude::*;
use vstd::arithmetic::div_mod::lemma_fundamental_div_mod;
use vstd::arithmetic::mul::lemma_mul_strict_inequality;

verus! {

/// The product of two `usize` values fits in a `u128`.
pub proof fn lemma_product_fits(a: usize, b: usize)
    ensures
        (a as int) * (b as int) <= u128::MAX,
{
    assert((a as int) * (b as int) <= (usize::MAX as int) * (usize::MAX as int)) by (nonlinear_arith)
        requires
            a <= usize::MAX,
            b <= usize::MAX,
    ;
}

/// A cell `(r, c)` of a `rows` by `columns` matrix lies inside its buffer.
pub proof fn lemma_cell_in_bounds(r: int, c: int, rows: int, columns: int)
    requires
        0 <= r < rows,
        0 <= c < columns,
    ensures
        0 <= r * columns + c < rows * columns,
        r * columns <= r * columns + c,
{
    assert(0 <= r * columns) by (nonlinear_arith)
        requires
            0 <= r,
            0 <= columns,
    ;
    assert((r + 1) * columns <= rows * columns) by (nonlinear_arith)
        requires
            r + 1 <= rows,
            0 <= columns,
    ;
    assert((r + 1) * columns == r * columns + columns) by (nonlinear_arith);
}

/// Every index of a `rows` by `columns` buffer names exactly one cell.
pub proof fn lemma_index_to_cell(i: int, rows: int, columns: int)
    requires
        0 <= i < rows * columns,
        0 < columns,
    ensures
        0 <= i / columns < rows,
        0 <= i % columns < columns,
        i == (i / columns) * columns + i % columns,
{
    lemma_fundamental_div_mod(i, columns);
    assert(0 <= i / columns) by (nonlinear_arith)
        requires
            0 <= i,
            0 < columns,
    ;
    if i / columns >= rows {
        assert((i / columns) * columns >= rows * columns) by (nonlinear_arith)
            requires
                i / columns >= rows,
                0 < columns,
        ;
    }
    assert(i % columns >= 0 && i % columns < columns) by (nonlinear_arith)
        requires
            0 < columns,
    ;
    assert(i == columns * (i / columns) + i % columns);
    assert(columns * (i / columns) == (i / columns) * columns) by (nonlinear_arith);
}

/// The reason a matrix operation refused its operands.
#[derive(Debug, Clone, Copy, PartialEq, Eq, Structural)]
pub enum ShapeError {
    /// The buffer does not hold `rows * columns` values.
    WrongLength,
    /// The operands' dimensions do not fit the operation.
    Incompatible,
}

/// A dense matrix stored row by row in one flat buffer.
pub struct Matrix<T> {
    pub data: Vec<T>,
    pub rows: usize,
    pub columns: usize,
}

impl<T> Matrix<T> {
    /// The buffer holds exactly one value per cell.
    pub open spec fn wf(&self) -> bool {
        self.data@.len() == self.rows * self.columns
    }

    /// Builds a matrix from a row-major buffer; fails unless the buffer holds `rows * columns` values.
    pub fn new(data: Vec<T>, rows: usize, columns: usize) -> (r: Result<Matrix<T>, ShapeError>)
        ensures
            r is Ok <==> data@.len() == rows * columns,
            r is Ok ==> r->Ok_0.data@ == data@ && r->Ok_0.rows == rows && r->Ok_0.columns == columns,
            r is Err ==> r->Err_0 == ShapeError::WrongLength,
    {
        proof {
            lemma_product_fits(rows, columns);
        }
        if (rows as u128) * (columns as u128) == data.len() as u128 {
            Ok(Matrix { data, rows, columns })
        } else {
            Err(ShapeError::WrongLength)
        }
    }
}

/// `z` is a value that `dot` may return on vectors holding `x` and `y`.
pub open spec fn dot_gives<T, D: Fn(Vec<T>, Vec<T>) -> T>(dot: D, x: Seq<T>, y: Seq<T>, z: T) -> bool {
    exists|v: Vec<T>, w: Vec<T>| v@ == x && w@ == y && #[trigger] dot.ensures((v, w), z)
}

/// A copy of a vector of plain values.
pub fn copy_vec<T: Copy>(v: &Vec<T>) -> (r: Vec<T>)
    ensures
        r@ == v@,
{
    let mut r: Vec<T> = Vec::with_capacity(v.len());
    let mut i: usize = 0;
    while i < v.len()
        invariant
            i <= v@.len(),
            r@ == v@.subrange(0, i as int),
        decreases v@.len() - i,
    {
        r.push(v[i]);
        i = i + 1;
        assert(r@ =~= v@.subrange(0, i as int));
    }
    assert(r@ =~= v@);
    r
}

/// Transposing twice gives back the matrix.
pub proof fn lemma_transpose_involution<T>(a: Matrix<T>, t: Matrix<T>, tt: Matrix<T>)
    requires
        a.wf(),
        t.is_transpose_of(&a),
        tt.is_transpose_of(&t),
    ensures
        tt.same_as(&a),
{
    assert forall|k: int| 0 <= k < a.data@.len() implies tt.data@[k] == a.data@[k] by {
        if a.columns == 0 {
            assert(a.rows * a.columns == 0) by (nonlinear_arith)
                requires
                    a.columns == 0,
            ;
        }
        lemma_index_to_cell(k, a.rows as int, a.columns as int);
        let i = k / a.columns as int;
        let j = k % a.columns as int;
        assert(tt.at(i, j) == t.at(j, i));
        assert(t.at(j, i) == a.at(i, j));
    }
    assert(tt.data@ =~= a.data@);
}

/// Adding with a commutative operation does not depend on the order of the operands.
pub proof fn lemma_add_commutes<T, F: Fn(T, T) -> T>(a: Matrix<T>, b: Matrix<T>, plus: F, ab: Matrix<T>, ba: Matrix<T>)
    requires
        forall|x: T, y: T, u: T, v: T| plus.ensures((x, y), u) && plus.ensures((y, x), v) ==> u == v,
        a.same_shape(&b),
        ab.is_zip_of(&a, &b, plus),
        ba.is_zip_of(&b, &a, plus),
    ensures
        ab.same_as(&ba),
{
    assert forall|k: int| 0 <= k < ab.data@.len() implies ab.data@[k] == ba.data@[k] by {
        assert(plus.ensures((a.data@[k], b.data@[k]), ab.data@[k]));
        assert(plus.ensures((b.data@[k], a.data@[k]), ba.data@[k]));
    }
    assert(ab.data@ =~= ba.data@);
}

/// `a - b` is the negation of `b - a`, when `minus` and `negate` relate so on each pair of values.
pub proof fn lemma_subtract_negates<T, F: Fn(T, T) -> T, N: Fn(T) -> T>(
    a: Matrix<T>,
    b: Matrix<T>,
    minus: F,
    negate: N,
    ab: Matrix<T>,
    ba: Matrix<T>,
    neg: Matrix<T>,
)
    requires
        forall|x: T, y: T, u: T, v: T, w: T|
            minus.ensures((x, y), u) && minus.ensures((y, x), v) && negate.ensures((v,), w) ==> u == w,
        a.same_shape(&b),
        ab.is_zip_of(&a, &b, minus),
        ba.is_zip_of(&b, &a, minus),
        neg.is_map_of(&ba, negate),
    ensures
        ab.same_as(&neg),
{
    assert forall|k: int| 0 <= k < ab.data@.len() implies ab.data@[k] == neg.data@[k] by {
        assert(minus.ensures((a.data@[k], b.data@[k]), ab.data@[k]));
        assert(minus.ensures((b.data@[k], a.data@[k]), ba.data@[k]));
        assert(negate.ensures((ba.data@[k],), neg.data@[k]));
    }
    assert(ab.data@ =~= neg.data@);
}

/// A row of a column vector is its one value.
pub proof fn lemma_row_of_column<T>(g: Matrix<T>, i: int)
    requires
        g.wf(),
        g.columns == 1,
        0 <= i < g.rows,
    ensures
        g.row_of(i) == seq![g.data@[i]],
{
    assert(g.row_of(i) =~= seq![g.data@[i]]);
}

/// A column of a row vector is its one value.
pub proof fn lemma_column_of_row<T>(x: Matrix<T>, j: int)
    requires
        x.wf(),
        x.rows == 1,
        0 <= j < x.columns,
    ensures
        x.column_of(j) == seq![x.data@[j]],
{
    assert(x.column_of(j) =~= seq![x.data@[j]]);
}

/// The only column of a column vector is its values.
pub proof fn lemma_column_of_column<T>(x: Matrix<T>)
    requires
        x.wf(),
        x.columns == 1,
    ensures
        x.column_of(0) == x.data@,
{
    assert(x.column_of(0) =~= x.data@);
}

/// Row `j` of the transpose is column `j` of the matrix.
pub proof fn lemma_transpose_row<T>(t: Matrix<T>, a: Matrix<T>, j: int)
    requires
        a.wf(),
        t.is_transpose_of(&a),
        0 <= j < a.columns,
    ensures
        t.row_of(j) == a.column_of(j),
{
    let c = t.columns as int;
    assert((j + 1) * c <= t.rows * c) by (nonlinear_arith)
        requires
            j + 1 <= t.rows,
            0 <= c,
    ;
    assert((j + 1) * c == j * c + c) by (nonlinear_arith);
    assert(0 <= j * c) by (nonlinear_arith)
        requires
            0 <= j,
            0 <= c,
    ;
    assert forall|k: int| 0 <= k < a.rows implies #[trigger] t.row_of(j)[k] == a.column_of(j)[k] by {
        lemma_cell_in_bounds(j, k, t.rows as int, c);
        assert(t.row_of(j)[k] == t.data@[j * c + k]);
        assert(t.at(j, k) == a.at(k, j));
    }
    assert(t.row_of(j) =~= a.column_of(j));
}

impl<T> Matrix<T> {
    /// The value in row `r`, column `c`.
    pub open spec fn at(&self, r: int, c: int) -> T {
        self.data@[r * self.columns + c]
    }

    /// The values of row `r`, from left to right.
    pub open spec fn row_of(&self, r: int) -> Seq<T> {
        self.data@.subrange(r * self.columns, r * self.columns + self.columns)
    }

    /// The values of column `c`, from top to bottom.
    pub open spec fn column_of(&self, c: int) -> Seq<T> {
        Seq::new(self.rows as nat, |k: int| self.data@[k * self.columns + c])
    }

    /// `self` holds `a` with rows and columns swapped.
    pub open spec fn is_transpose_of(&self, a: &Matrix<T>) -> bool {
        &&& self.wf()
        &&& self.rows == a.columns
        &&& self.columns == a.rows
        &&& forall|i: int, j: int| 0 <= i < a.rows && 0 <= j < a.columns ==> #[trigger] self.at(j, i) == a.at(i, j)
    }

    /// `self` holds, in each cell, a value that `f` may return on the cells of `a` and `b` at that place.
    pub open spec fn is_zip_of<F: Fn(T, T) -> T>(&self, a: &Matrix<T>, b: &Matrix<T>, f: F) -> bool {
        &&& self.wf()
        &&& self.same_shape(a)
        &&& forall|i: int| 0 <= i < self.data@.len() ==> f.ensures((a.data@[i], b.data@[i]), #[trigger] self.data@[i])
    }

    /// `self` holds, in each cell, a value that `f` may return on the cell of `a` at that place.
    pub open spec fn is_map_of<U, F: Fn(U) -> T>(&self, a: &Matrix<U>, f: F) -> bool {
        &&& self.wf()
        &&& self.same_shape(a)
        &&& forall|i: int| 0 <= i < self.data@.len() ==> f.ensures((a.data@[i],), #[trigger] self.data@[i])
    }

    /// The same shape and the same values.
    pub open spec fn same_as(&self, other: &Matrix<T>) -> bool {
        self.rows == other.rows && self.columns == other.columns && self.data@ == other.data@
    }

    /// Two matrices have the same number of rows and of columns.
    pub open spec fn same_shape<U>(&self, other: &Matrix<U>) -> bool {
        self.rows == other.rows && self.columns == other.columns
    }

    /// Lifts a vector into a column matrix with one row per value.
    pub fn from_vec(values: Vec<T>) -> (r: Matrix<T>)
        ensures
            r.wf(),
            r.rows == values@.len(),
            r.columns == 1,
            r.data@ == values@,
    {
        let n = values.len();
        Matrix { data: values, rows: n, columns: 1 }
    }
}

impl<T: Copy> Matrix<T> {
    /// A matrix whose every cell holds `value`.
    pub fn zeroes(rows: usize, columns: usize, value: T) -> (r: Matrix<T>)
        requires
            rows * columns <= usize::MAX,
        ensures
            r.wf(),
            r.rows == rows,
            r.columns == columns,
            forall|i: int| 0 <= i < r.data@.len() ==> r.data@[i] == value,
    {
        let n: usize = rows * columns;
        let mut data: Vec<T> = Vec::with_capacity(n);
        let mut i: usize = 0;
        while i < n
            invariant
                i <= n,
                data@.len() == i,
                forall|j: int| 0 <= j < i ==> data@[j] == value,
            decreases n - i,
        {
            data.push(value);
            i = i + 1;
        }
        Matrix { data, rows, columns }
    }

    /// A matrix whose cells are filled, row by row, by successive draws.
    pub fn random<F: Fn() -> T>(rows: usize, columns: usize, draw: F) -> (r: Matrix<T>)
        requires
            rows * columns <= usize::MAX,
            draw.requires(()),
        ensures
            r.wf(),
            r.rows == rows,
            r.columns == columns,
            forall|i: int| 0 <= i < r.data@.len() ==> draw.ensures((), #[trigger] r.data@[i]),
    {
        let n: usize = rows * columns;
        let mut data: Vec<T> = Vec::with_capacity(n);
        let mut i: usize = 0;
        while i < n
            invariant
                i <= n,
                data@.len() == i,
                draw.requires(()),
                forall|j: int| 0 <= j < i ==> draw.ensures((), #[trigger] data@[j]),
            decreases n - i,
        {
            let v = draw();
            data.push(v);
            i = i + 1;
        }
        Matrix { data, rows, columns }
    }

    /// The matrix with rows and columns swapped.
    pub fn transpose(&self) -> (r: Matrix<T>)
        requires
            self.wf(),
        ensures
            r.is_transpose_of(self),
    {
        let total = self.data.len();
        let mut data: Vec<T> = Vec::with_capacity(total);
        let mut c: usize = 0;
        while c < self.columns
            invariant
                self.wf(),
                self.rows * self.columns == total,
                c <= self.columns,
                data@.len() == c * self.rows,
                forall|j: int, i: int|
                    0 <= j < c && 0 <= i < self.rows ==> #[trigger] data@[j * self.rows + i] == self.at(i, j),
            decreases self.columns - c,
        {
            let mut r: usize = 0;
            while r < self.rows
                invariant
                    self.wf(),
                    self.rows * self.columns == total,
                    c < self.columns,
                    r <= self.rows,
                    data@.len() == c * self.rows + r,
                    forall|j: int, i: int|
                        0 <= j < c && 0 <= i < self.rows ==> #[trigger] data@[j * self.rows + i] == self.at(i, j),
                    forall|i: int| 0 <= i < r ==> #[trigger] data@[c * self.rows + i] == self.at(i, c as int),
                decreases self.rows - r,
            {
                proof {
                    lemma_cell_in_bounds(r as int, c as int, self.rows as int, self.columns as int);
                }
                let ghost prev = data@;
                data.push(self.data[r * self.columns + c]);
                proof {
                    assert forall|j: int, i: int| 0 <= j < c && 0 <= i < self.rows implies
                        #[trigger] data@[j * self.rows + i] == self.at(i, j) by {
                        lemma_cell_in_bounds(j, i, c as int, self.rows as int);
                        assert(data@[j * self.rows + i] == prev[j * self.rows + i]);
                    }
                }
                r = r + 1;
            }
            proof {
                assert((c + 1) * self.rows == c * self.rows + self.rows) by (nonlinear_arith);
                assert forall|j: int, i: int| 0 <= j < c + 1 && 0 <= i < self.rows implies
                    #[trigger] data@[j * self.rows + i] == self.at(i, j) by {
                    lemma_cell_in_bounds(j, i, c + 1, self.rows as int);
                    if j < c {
                    } else {
                        assert(j == c);
                    }
                }
            }
            c = c + 1;
        }
        proof {
            assert(self.columns * self.rows == self.rows * self.columns) by (nonlinear_arith);
        }
        Matrix { data, rows: self.columns, columns: self.rows }
    }

    /// Applies `f` to every cell.
    pub fn map<U, F: Fn(T) -> U>(&self, f: F) -> (r: Matrix<U>)
        requires
            self.wf(),
            forall|x: T| f.requires((x,)),
        ensures
            r.is_map_of(self, f),
    {
        let mut data: Vec<U> = Vec::with_capacity(self.data.len());
        let mut i: usize = 0;
        while i < self.data.len()
            invariant
                i <= self.data@.len(),
                data@.len() == i,
                forall|x: T| f.requires((x,)),
                forall|j: int| 0 <= j < i ==> f.ensures((self.data@[j],), #[trigger] data@[j]),
            decreases self.data@.len() - i,
        {
            let v = f(self.data[i]);
            data.push(v);
            i = i + 1;
        }
        Matrix { data, rows: self.rows, columns: self.columns }
    }

    /// Combines two matrices of one shape cell by cell with `f`.
    pub fn zip_with<F: Fn(T, T) -> T>(&self, other: &Matrix<T>, f: F) -> (r: Result<Matrix<T>, ShapeError>)
        requires
            self.wf(),
            other.wf(),
            forall|x: T, y: T| f.requires((x, y)),
        ensures
            r is Ok <==> self.same_shape(other),
            r is Err ==> r->Err_0 == ShapeError::Incompatible,
            r is Ok ==> r->Ok_0.is_zip_of(self, other, f),
    {
        if self.rows != other.rows || self.columns != other.columns {
            return Err(ShapeError::Incompatible);
        }
        let mut data: Vec<T> = Vec::with_capacity(self.data.len());
        let mut i: usize = 0;
        while i < self.data.len()
            invariant
                self.data@.len() == other.data@.len(),
                i <= self.data@.len(),
                data@.len() == i,
                forall|x: T, y: T| f.requires((x, y)),
                forall|j: int| 0 <= j < i ==> f.ensures((self.data@[j], other.data@[j]), #[trigger] data@[j]),
            decreases self.data@.len() - i,
        {
            let v = f(self.data[i], other.data[i]);
            data.push(v);
            i = i + 1;
        }
        Ok(Matrix { data, rows: self.rows, columns: self.columns })
    }

    /// The element-wise product of two matrices of one shape, each cell multiplied by `times`.
    pub fn hadamard_product<F: Fn(T, T) -> T>(&self, other: &Matrix<T>, times: F) -> (r: Result<Matrix<T>, ShapeError>)
        requires
            self.wf(),
            other.wf(),
            forall|x: T, y: T| times.requires((x, y)),
        ensures
            r is Ok <==> self.same_shape(other),
            r is Err ==> r->Err_0 == ShapeError::Incompatible,
            r is Ok ==> r->Ok_0.is_zip_of(self, other, times),
    {
        self.zip_with(other, times)
    }

    /// A copy of this matrix.
    pub fn copy(&self) -> (r: Matrix<T>)
        ensures
            r.same_as(self),
    {
        Matrix { data: copy_vec(&self.data), rows: self.rows, columns: self.columns }
    }

    /// Multiplies every cell by `k` with `times`.
    pub fn scaled<F: Fn(T, T) -> T>(&self, k: T, times: F) -> (r: Matrix<T>)
        requires
            self.wf(),
            forall|x: T, y: T| times.requires((x, y)),
        ensures
            r.wf(),
            r.same_shape(self),
            forall|i: int| 0 <= i < r.data@.len() ==> times.ensures((self.data@[i], k), #[trigger] r.data@[i]),
    {
        let mut data: Vec<T> = Vec::with_capacity(self.data.len());
        let mut i: usize = 0;
        while i < self.data.len()
            invariant
                i <= self.data@.len(),
                data@.len() == i,
                forall|x: T, y: T| times.requires((x, y)),
                forall|j: int| 0 <= j < i ==> times.ensures((self.data@[j], k), #[trigger] data@[j]),
            decreases self.data@.len() - i,
        {
            let v = times(self.data[i], k);
            data.push(v);
            i = i + 1;
        }
        Matrix { data, rows: self.rows, columns: self.columns }
    }

    /// A copy of row `r`.
    fn row_vec(&self, r: usize) -> (v: Vec<T>)
        requires
            self.wf(),
            r < self.rows,
        ensures
            v@ == self.row_of(r as int),
    {
        let total = self.data.len();
        proof {
            assert((r + 1) * self.columns <= self.rows * self.columns) by (nonlinear_arith)
                requires
                    r + 1 <= self.rows,
            ;
            assert((r + 1) * self.columns == r * self.columns + self.columns) by (nonlinear_arith);
        }
        let start: usize = r * self.columns;
        let mut v: Vec<T> = Vec::with_capacity(self.columns);
        let mut k: usize = 0;
        while k < self.columns
            invariant
                self.wf(),
                start == r * self.columns,
                start + self.columns <= self.data@.len(),
                self.data@.len() == total,
                k <= self.columns,
                v@ == self.data@.subrange(start as int, start + k),
            decreases self.columns - k,
        {
            v.push(self.data[start + k]);
            k = k + 1;
            assert(v@ =~= self.data@.subrange(start as int, start + k));
        }
        v
    }

    /// A copy of column `c`.
    fn column_vec(&self, c: usize) -> (v: Vec<T>)
        requires
            self.wf(),
            c < self.columns,
        ensures
            v@ == self.column_of(c as int),
    {
        let total = self.data.len();
        let mut v: Vec<T> = Vec::with_capacity(self.rows);
        let mut k: usize = 0;
        while k < self.rows
            invariant
                self.wf(),
                self.rows * self.columns == total,
                c < self.columns,
                k <= self.rows,
                v@ =~= self.column_of(c as int).subrange(0, k as int),
            decreases self.rows - k,
        {
            proof {
                lemma_cell_in_bounds(k as int, c as int, self.rows as int, self.columns as int);
            }
            v.push(self.data[k * self.columns + c]);
            k = k + 1;
            assert(v@ =~= self.column_of(c as int).subrange(0, k as int));
        }
        assert(v@ =~= self.column_of(c as int));
        v
    }

    /// The matrix product: cell `(i, j)` is `dot` of row `i` of `self` and column `j` of `other`.
    pub fn multiply<D: Fn(Vec<T>, Vec<T>) -> T>(&self, other: &Matrix<T>, dot: D) -> (r: Result<Matrix<T>, ShapeError>)
        requires
            self.wf(),
            other.wf(),
            self.rows * other.columns <= usize::MAX,
            forall|v: Vec<T>, w: Vec<T>| dot.requires((v, w)),
        ensures
            r is Ok <==> self.columns == other.rows,
            r is Err ==> r->Err_0 == ShapeError::Incompatible,
            r is Ok ==> ({
                let m = r->Ok_0;
                &&& m.wf()
                &&& m.rows == self.rows
                &&& m.columns == other.columns
                &&& forall|i: int, j: int| 0 <= i < m.rows && 0 <= j < m.columns ==>
                        dot_gives(dot, self.row_of(i), other.column_of(j), #[trigger] m.at(i, j))
            }),
    {
        if self.columns != other.rows {
            return Err(ShapeError::Incompatible);
        }
        let rows = self.rows;
        let columns = other.columns;
        let mut data: Vec<T> = Vec::with_capacity(rows * columns);
        let mut i: usize = 0;
        while i < rows
            invariant
                self.wf(),
                other.wf(),
                rows == self.rows,
                columns == other.columns,
                rows * columns <= usize::MAX,
                forall|v: Vec<T>, w: Vec<T>| dot.requires((v, w)),
                i <= rows,
                data@.len() == i * columns,
                forall|a: int, b: int| 0 <= a < i && 0 <= b < columns ==>
                    dot_gives(dot, self.row_of(a), other.column_of(b), #[trigger] data@[a * columns + b]),
            decreases rows - i,
        {
            let mut j: usize = 0;
            while j < columns
                invariant
                    self.wf(),
                    other.wf(),
                    rows == self.rows,
                    columns == other.columns,
                    forall|v: Vec<T>, w: Vec<T>| dot.requires((v, w)),
                    i < rows,
                    j <= columns,
                    data@.len() == i * columns + j,
                    forall|a: int, b: int| 0 <= a < i && 0 <= b < columns ==>
                        dot_gives(dot, self.row_of(a), other.column_of(b), #[trigger] data@[a * columns + b]),
                    forall|b: int| 0 <= b < j ==>
                        dot_gives(dot, self.row_of(i as int), other.column_of(b), #[trigger] data@[i * columns + b]),
                decreases columns - j,
            {
                let row = self.row_vec(i);
                let col = other.column_vec(j);
                let ghost (rv, cv) = (row, col);
                let z = dot(row, col);
                assert(dot.ensures((rv, cv), z));
                let ghost prev = data@;
                data.push(z);
                proof {
                    assert forall|a: int, b: int| 0 <= a < i && 0 <= b < columns implies
                        dot_gives(dot, self.row_of(a), other.column_of(b), #[trigger] data@[a * columns + b]) by {
                        lemma_cell_in_bounds(a, b, i as int, columns as int);
                        assert(data@[a * columns + b] == prev[a * columns + b]);
                    }
                    assert forall|b: int| 0 <= b < j + 1 implies
                        dot_gives(dot, self.row_of(i as int), other.column_of(b), #[trigger] data@[i * columns + b]) by {
                        if b == j {
                            assert(data@[i * columns + b] == z);
                        } else {
                            assert(data@[i * columns + b] == prev[i * columns + b]);
                        }
                    }
                }
                j = j + 1;
            }
            proof {
                assert((i + 1) * columns == i * columns + columns) by (nonlinear_arith);
                assert forall|a: int, b: int| 0 <= a < i + 1 && 0 <= b < columns implies
                    dot_gives(dot, self.row_of(a), other.column_of(b), #[trigger] data@[a * columns + b]) by {
                    if a == i {
                    }
                }
            }
            i = i + 1;
        }
        Ok(Matrix { data, rows, columns })
    }

    /// Adds `other` into this matrix in place, cell by cell with `plus`; on a shape mismatch nothing changes.
    pub fn add_assign<F: Fn(T, T) -> T>(&mut self, other: &Matrix<T>, plus: F) -> (r: Result<(), ShapeError>)
        requires
            old(self).wf(),
            other.wf(),
            forall|x: T, y: T| plus.requires((x, y)),
        ensures
            r is Ok <==> old(self).same_shape(other),
            r is Err ==> r->Err_0 == ShapeError::Incompatible && *final(self) == *old(self),
            final(self).wf(),
            final(self).same_shape(old(self)),
            r is Ok ==> forall|i: int| 0 <= i < final(self).data@.len() ==>
                plus.ensures((old(self).data@[i], other.data@[i]), #[trigger] final(self).data@[i]),
    {
        if self.rows != other.rows || self.columns != other.columns {
            return Err(ShapeError::Incompatible);
        }
        let ghost before = self.data@;
        let mut i: usize = 0;
        while i < self.data.len()
            invariant
                self.data@.len() == before.len(),
                before.len() == other.data@.len(),
                self.wf(),
                self.rows == old(self).rows,
                self.columns == old(self).columns,
                before == old(self).data@,
                i <= before.len(),
                forall|x: T, y: T| plus.requires((x, y)),
                forall|j: int| 0 <= j < i ==> plus.ensures((before[j], other.data@[j]), #[trigger] self.data@[j]),
                forall|j: int| i <= j < before.len() ==> self.data@[j] == before[j],
            decreases before.len() - i,
        {
            let v = plus(self.data[i], other.data[i]);
            self.data.set(i, v);
            i = i + 1;
        }
        Ok(())
    }
}

} // verus!
