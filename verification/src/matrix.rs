//! Matrices of natural numbers: products and powers.

use vstd::prelude::*;

verus! {

/// A matrix of `row` rows and `column` columns, held row by row.
#[derive(Debug, PartialEq, Eq)]
pub struct Matrix {
    pub data: Vec<Vec<usize>>,
    pub row: usize,
    pub column: usize,
}

/// A matrix as a mathematical value: its rows, each a row of numbers.
pub type Grid = Seq<Seq<int>>;

/// The sum of the first `k` products of the row `i` of `a` with the column `j` of `b`.
pub open spec fn dot_entry(a: Grid, b: Grid, i: int, j: int, k: int) -> int
    decreases k,
{
    if k <= 0 {
        0
    } else {
        dot_entry(a, b, i, j, k - 1) + a[i][k - 1] * b[k - 1][j]
    }
}

/// The product of `a`, of `inner` columns, with `b`, of `inner` rows and `columns` columns.
pub open spec fn grid_product(a: Grid, b: Grid, inner: int, columns: int) -> Grid {
    Seq::new(a.len(), |i: int| Seq::new(columns as nat, |j: int| dot_entry(a, b, i, j, inner)))
}

/// The identity matrix of `size` rows.
pub open spec fn grid_identity(size: int) -> Grid {
    Seq::new(
        size as nat,
        |i: int|
            Seq::new(
                size as nat,
                |j: int|
                    if i == j {
                        1int
                    } else {
                        0int
                    },
            ),
    )
}

/// The power `x` of the square matrix `m` of `size` rows: the product of `x` times `m`, and
/// the identity matrix for no factor at all.
pub open spec fn grid_power(m: Grid, size: int, x: nat) -> Grid
    decreases x,
{
    if x == 0 {
        grid_identity(size)
    } else {
        grid_product(grid_power(m, size, (x - 1) as nat), m, size, size)
    }
}

/// The matrix `g` with every number reduced modulo `modulus`.
pub open spec fn grid_rem(g: Grid, modulus: int) -> Grid {
    Seq::new(g.len(), |i: int| Seq::new(g[i].len(), |j: int| g[i][j] % modulus))
}

/// Whether every number of `g` is a machine integer.
pub open spec fn grid_fits(g: Grid) -> bool {
    forall|i: int, j: int|
        0 <= i < g.len() && 0 <= j < g[i].len() ==> 0 <= #[trigger] g[i][j] <= usize::MAX
}

/// Whether `g` has `rows` rows of `columns` natural numbers each.
pub open spec fn grid_shaped(g: Grid, rows: int, columns: int) -> bool {
    &&& g.len() == rows
    &&& forall|i: int| 0 <= i < g.len() ==> (#[trigger] g[i]).len() == columns
    &&& forall|i: int, j: int| 0 <= i < rows && 0 <= j < columns ==> 0 <= #[trigger] g[i][j]
}

/// Whether the powers of `m` that repeated squaring passes on the way to the power `x` hold
/// machine integers only: the square of the power `x / 2`, and the power `x` itself.
pub open spec fn power_fits(m: Grid, size: int, x: nat) -> bool
    decreases x,
{
    if x < 2 {
        true
    } else {
        &&& power_fits(m, size, x / 2)
        &&& grid_fits(grid_power(m, size, 2 * (x / 2)))
        &&& grid_fits(grid_power(m, size, x))
    }
}

/// Whether `g` is a square matrix of `size` rows.
pub open spec fn grid_square(g: Grid, size: int) -> bool {
    g.len() == size && forall|i: int| 0 <= i < size ==> (#[trigger] g[i]).len() == size
}

/// The sum over the first `p` columns `k` of the first `q` products of the row `i` of `a`
/// with the column `k` of `b`, times the number of `c` at `k` and `j`.
spec fn sum_left(a: Grid, b: Grid, c: Grid, i: int, j: int, p: int, q: int) -> int
    decreases p,
{
    if p <= 0 {
        0
    } else {
        sum_left(a, b, c, i, j, p - 1, q) + dot_entry(a, b, i, p - 1, q) * c[p - 1][j]
    }
}

/// The sum over the first `q` rows `t` of the number of `a` at `i` and `t` times the first
/// `p` products of the row `t` of `b` with the column `j` of `c`.
spec fn sum_right(a: Grid, b: Grid, c: Grid, i: int, j: int, p: int, q: int) -> int
    decreases q,
{
    if q <= 0 {
        0
    } else {
        sum_right(a, b, c, i, j, p, q - 1) + a[i][q - 1] * dot_entry(b, c, q - 1, j, p)
    }
}

proof fn lemma_sum_left_step(a: Grid, b: Grid, c: Grid, i: int, j: int, p: int, q: int)
    requires
        0 <= p,
        0 <= q,
    ensures
        sum_left(a, b, c, i, j, p, q + 1) == sum_left(a, b, c, i, j, p, q) + a[i][q] * dot_entry(
            b,
            c,
            q,
            j,
            p,
        ),
    decreases p,
{
    if p > 0 {
        lemma_sum_left_step(a, b, c, i, j, p - 1, q);
        let d = dot_entry(a, b, i, p - 1, q);
        let x = a[i][q];
        let y = b[q][p - 1];
        let z = c[p - 1][j];
        let e = dot_entry(b, c, q, j, p - 1);
        assert((d + x * y) * z + x * e == d * z + x * (e + y * z)) by (nonlinear_arith);
    } else {
        assert(a[i][q] * 0 == 0) by (nonlinear_arith);
    }
}

proof fn lemma_sums_agree(a: Grid, b: Grid, c: Grid, i: int, j: int, p: int, q: int)
    requires
        0 <= p,
        0 <= q,
    ensures
        sum_left(a, b, c, i, j, p, q) == sum_right(a, b, c, i, j, p, q),
    decreases q,
{
    if q > 0 {
        lemma_sums_agree(a, b, c, i, j, p, q - 1);
        lemma_sum_left_step(a, b, c, i, j, p, q - 1);
    } else {
        lemma_sum_left_zero(a, b, c, i, j, p);
    }
}

proof fn lemma_sum_left_zero(a: Grid, b: Grid, c: Grid, i: int, j: int, p: int)
    requires
        0 <= p,
    ensures
        sum_left(a, b, c, i, j, p, 0) == 0,
    decreases p,
{
    if p > 0 {
        lemma_sum_left_zero(a, b, c, i, j, p - 1);
        assert(0 * c[p - 1][j] == 0) by (nonlinear_arith);
    }
}

proof fn lemma_product_left(a: Grid, b: Grid, c: Grid, size: int, i: int, j: int, p: int)
    requires
        0 <= i < a.len(),
        0 <= p <= size,
    ensures
        dot_entry(grid_product(a, b, size, size), c, i, j, p) == sum_left(a, b, c, i, j, p, size),
    decreases p,
{
    if p > 0 {
        lemma_product_left(a, b, c, size, i, j, p - 1);
    }
}

proof fn lemma_product_right(a: Grid, b: Grid, c: Grid, size: int, i: int, j: int, q: int)
    requires
        b.len() == size,
        0 <= j < size,
        0 <= q <= size,
    ensures
        dot_entry(a, grid_product(b, c, size, size), i, j, q) == sum_right(
            a,
            b,
            c,
            i,
            j,
            size,
            q,
        ),
    decreases q,
{
    if q > 0 {
        lemma_product_right(a, b, c, size, i, j, q - 1);
    }
}

/// The product of three square matrices does not depend on which two are multiplied first.
pub proof fn lemma_product_associative(a: Grid, b: Grid, c: Grid, size: int)
    requires
        0 <= size,
        a.len() == size,
        b.len() == size,
    ensures
        grid_product(grid_product(a, b, size, size), c, size, size) == grid_product(
            a,
            grid_product(b, c, size, size),
            size,
            size,
        ),
{
    let left = grid_product(grid_product(a, b, size, size), c, size, size);
    let right = grid_product(a, grid_product(b, c, size, size), size, size);
    assert forall|i: int, j: int| 0 <= i < size && 0 <= j < size implies left[i][j]
        == right[i][j] by {
        lemma_product_left(a, b, c, size, i, j, size);
        lemma_product_right(a, b, c, size, i, j, size);
        lemma_sums_agree(a, b, c, i, j, size, size);
    }
    assert(left =~~= right);
}

proof fn lemma_identity_row(m: Grid, size: int, i: int, j: int, p: int)
    requires
        0 <= i < size,
        0 <= p <= size,
    ensures
        dot_entry(grid_identity(size), m, i, j, p) == if i < p {
            m[i][j]
        } else {
            0
        },
    decreases p,
{
    if p > 0 {
        lemma_identity_row(m, size, i, j, p - 1);
        let e = grid_identity(size)[i][p - 1];
        assert(e * m[p - 1][j] == if i == p - 1 {
            m[p - 1][j]
        } else {
            0
        }) by (nonlinear_arith)
            requires
                e == if i == p - 1 {
                    1int
                } else {
                    0int
                },
        ;
    }
}

proof fn lemma_identity_column(m: Grid, size: int, i: int, j: int, p: int)
    requires
        0 <= j < size,
        0 <= p <= size,
    ensures
        dot_entry(m, grid_identity(size), i, j, p) == if j < p {
            m[i][j]
        } else {
            0
        },
    decreases p,
{
    if p > 0 {
        lemma_identity_column(m, size, i, j, p - 1);
        let e = grid_identity(size)[p - 1][j];
        assert(m[i][p - 1] * e == if j == p - 1 {
            m[i][p - 1]
        } else {
            0
        }) by (nonlinear_arith)
            requires
                e == if j == p - 1 {
                    1int
                } else {
                    0int
                },
        ;
    }
}

/// The identity matrix changes nothing in a product, on either side.
pub proof fn lemma_product_identity(m: Grid, size: int)
    requires
        grid_square(m, size),
    ensures
        grid_product(grid_identity(size), m, size, size) == m,
        grid_product(m, grid_identity(size), size, size) == m,
{
    let left = grid_product(grid_identity(size), m, size, size);
    let right = grid_product(m, grid_identity(size), size, size);
    assert forall|i: int, j: int| 0 <= i < size && 0 <= j < size implies left[i][j] == m[i][j]
        && right[i][j] == m[i][j] by {
        lemma_identity_row(m, size, i, j, size);
        lemma_identity_column(m, size, i, j, size);
    }
    assert(left =~~= m);
    assert(right =~~= m);
}

/// A power of a square matrix is a square matrix.
pub proof fn lemma_power_square(m: Grid, size: int, x: nat)
    requires
        grid_square(m, size),
    ensures
        grid_square(grid_power(m, size, x), size),
    decreases x,
{
    if x > 0 {
        lemma_power_square(m, size, (x - 1) as nat);
    }
}

/// The product of two powers of a square matrix is the power of the sum of the exponents.
pub proof fn lemma_power_adds(m: Grid, size: int, x: nat, y: nat)
    requires
        grid_square(m, size),
    ensures
        grid_product(grid_power(m, size, x), grid_power(m, size, y), size, size) == grid_power(
            m,
            size,
            x + y,
        ),
    decreases y,
{
    lemma_power_square(m, size, x);
    if y == 0 {
        lemma_product_identity(grid_power(m, size, x), size);
    } else {
        let below = (y - 1) as nat;
        lemma_power_adds(m, size, x, below);
        lemma_power_square(m, size, below);
        lemma_product_associative(grid_power(m, size, x), grid_power(m, size, below), m, size);
        assert(x + y - 1 == x + below);
    }
}

/// The sums of products of natural numbers grow with every product.
proof fn lemma_dot_entry_grows(a: Grid, b: Grid, i: int, j: int, k: int, l: int)
    requires
        0 <= k <= l,
        forall|t: int| 0 <= t < l ==> 0 <= #[trigger] a[i][t],
        forall|t: int| 0 <= t < l ==> 0 <= (#[trigger] b[t])[j],
    ensures
        0 <= dot_entry(a, b, i, j, k) <= dot_entry(a, b, i, j, l),
    decreases l,
{
    if k < l {
        lemma_dot_entry_grows(a, b, i, j, k, l - 1);
        let x = a[i][l - 1];
        let y = b[l - 1][j];
        assert(0 <= x * y) by (nonlinear_arith)
            requires
                0 <= x,
                0 <= y,
        ;
    } else if k > 0 {
        lemma_dot_entry_grows(a, b, i, j, k - 1, l - 1);
        let x = a[i][l - 1];
        let y = b[l - 1][j];
        assert(0 <= x * y) by (nonlinear_arith)
            requires
                0 <= x,
                0 <= y,
        ;
    }
}

impl Clone for Matrix {
    fn clone(&self) -> (copy: Self)
        ensures
            copy@ == self@,
            copy.row == self.row,
            copy.column == self.column,
    {
        let mut data: Vec<Vec<usize>> = Vec::new();
        let mut i: usize = 0;
        while i < self.data.len()
            invariant
                i <= self.data@.len(),
                data@.len() == i,
                forall|k: int| 0 <= k < i ==> (#[trigger] data@[k])@ == self.data@[k]@,
            decreases self.data@.len() - i,
        {
            let mut line: Vec<usize> = Vec::new();
            let mut j: usize = 0;
            while j < self.data[i].len()
                invariant
                    i < self.data@.len(),
                    j <= self.data@[i as int]@.len(),
                    line@ == self.data@[i as int]@.take(j as int),
                decreases self.data@[i as int]@.len() - j,
            {
                line.push(self.data[i][j]);
                proof {
                    assert(line@ =~= self.data@[i as int]@.take(j + 1));
                }
                j += 1;
            }
            proof {
                assert(self.data@[i as int]@.take(j as int) =~= self.data@[i as int]@);
            }
            data.push(line);
            i += 1;
        }
        let copy = Matrix { data, row: self.row, column: self.column };
        proof {
            assert(copy@ =~~= self@);
        }
        copy
    }
}

impl Matrix {
    /// The matrix as a mathematical value.
    pub open spec fn view(&self) -> Grid {
        Seq::new(
            self.data@.len(),
            |i: int| Seq::new(self.data@[i]@.len(), |j: int| self.data@[i]@[j] as int),
        )
    }

    /// Whether the matrix has `row` rows of `column` numbers each.
    pub open spec fn wf(&self) -> bool {
        grid_shaped(self@, self.row as int, self.column as int)
    }

    /// Makes the matrix of the rows `data`; its number of columns is the length of the first
    /// row.
    pub fn new(data: Vec<Vec<usize>>) -> (m: Matrix)
        requires
            data@.len() >= 1,
        ensures
            m.data == data,
            m.row == data@.len(),
            m.column == data@[0]@.len(),
    {
        let row = data.len();
        let column = data[0].len();
        Matrix { data, row, column }
    }

    /// Returns the product of this matrix with `rhs`.
    pub fn dot(&self, rhs: &Matrix) -> (product: Matrix)
        requires
            self.wf(),
            rhs.wf(),
            self.column == rhs.row,
            grid_fits(grid_product(self@, rhs@, self.column as int, rhs.column as int)),
        ensures
            product.wf(),
            product.row == self.row,
            product.column == rhs.column,
            product@ == grid_product(self@, rhs@, self.column as int, rhs.column as int),
    {
        let row = self.row;
        let column = rhs.column;
        let ghost a = self@;
        let ghost b = rhs@;
        let ghost whole = grid_product(a, b, self.column as int, column as int);
        let mut data: Vec<Vec<usize>> = Vec::new();
        let mut i: usize = 0;
        while i < row
            invariant
                i <= row,
                row == self.row,
                column == rhs.column,
                self.wf(),
                rhs.wf(),
                self.column == rhs.row,
                a == self@,
                b == rhs@,
                whole == grid_product(a, b, self.column as int, column as int),
                grid_fits(whole),
                data@.len() == i,
                forall|r: int| 0 <= r < i ==> (#[trigger] data@[r])@.len() == column,
                forall|r: int, c: int|
                    0 <= r < i && 0 <= c < column ==> #[trigger] data@[r]@[c] == whole[r][c],
            decreases row - i,
        {
            let mut line: Vec<usize> = Vec::new();
            let mut j: usize = 0;
            while j < column
                invariant
                    i < row,
                    j <= column,
                    row == self.row,
                    column == rhs.column,
                    self.wf(),
                    rhs.wf(),
                    self.column == rhs.row,
                    a == self@,
                    b == rhs@,
                    whole == grid_product(a, b, self.column as int, column as int),
                    grid_fits(whole),
                    line@.len() == j,
                    forall|c: int| 0 <= c < j ==> #[trigger] line@[c] == whole[i as int][c],
                decreases column - j,
            {
                let mut acc: usize = 0;
                let mut k: usize = 0;
                proof {
                    assert(a[i as int].len() == self.column);
                    assert(0 <= whole[i as int][j as int] <= usize::MAX);
                }
                while k < self.column
                    invariant
                        i < row,
                        j < column,
                        k <= self.column,
                        row == self.row,
                        column == rhs.column,
                        self.wf(),
                        rhs.wf(),
                        self.column == rhs.row,
                        a == self@,
                        b == rhs@,
                        dot_entry(a, b, i as int, j as int, self.column as int) <= usize::MAX,
                        acc == dot_entry(a, b, i as int, j as int, k as int),
                    decreases self.column - k,
                {
                    proof {
                        assert(a[i as int].len() == self.column);
                        assert(b[k as int].len() == column);
                        assert forall|t: int| 0 <= t < self.column implies 0 <= #[trigger] a[i as int][t] by {}
                        assert forall|t: int| 0 <= t < self.column implies 0 <= (#[trigger] b[t])[j as int] by {
                            assert(b[t].len() == column);
                        }
                        lemma_dot_entry_grows(a, b, i as int, j as int, k + 1, self.column as int);
                        lemma_dot_entry_grows(a, b, i as int, j as int, k as int, k + 1);
                        assert(a[i as int][k as int] == self.data@[i as int]@[k as int]);
                        assert(b[k as int][j as int] == rhs.data@[k as int]@[j as int]);
                    }
                    acc += self.data[i][k] * rhs.data[k][j];
                    k += 1;
                }
                line.push(acc);
                j += 1;
            }
            data.push(line);
            i += 1;
        }
        let product = Matrix { data, row, column };
        proof {
            assert(product@ =~~= whole);
        }
        product
    }

    /// Returns the power `x` of this square matrix, by repeated squaring; the identity matrix
    /// for the power 0, and for the power 1 the matrix itself, square or not.
    pub fn mat_pow(&self, x: usize) -> (power: Matrix)
        requires
            self.wf(),
            x >= 2 ==> self.row == self.column,
            power_fits(self@, self.column as int, x as nat),
        ensures
            x == 1 ==> power@ == self@ && power.row == self.row,
            x != 1 ==> power@ == grid_power(self@, self.column as int, x as nat) && power.row
                == self.column,
            power.column == self.column,
            power.wf(),
        decreases x,
    {
        if x == 0 {
            return Matrix::identity(self.column);
        }
        if x == 1 {
            return self.clone();
        }
        let ghost m = self@;
        let ghost size = self.column as int;
        let ghost half = (x / 2) as nat;
        proof {
            assert(grid_square(m, size));
            lemma_power_adds(m, size, half, half);
            lemma_product_identity(m, size);
            assert(grid_power(m, size, 0) == grid_identity(size));
            assert(grid_power(m, size, 1) == grid_product(grid_power(m, size, 0), m, size, size));
            assert(grid_power(m, size, 1) == m);
        }
        let mut t = self.mat_pow(x / 2);
        t = t.dot(&t);
        if x % 2 == 1 {
            proof {
                assert(x as nat == 2 * half + 1);
                assert(grid_power(m, size, x as nat) == grid_product(
                    grid_power(m, size, 2 * half),
                    m,
                    size,
                    size,
                ));
            }
            t = t.dot(self);
        }
        t
    }

    /// Returns the identity matrix of `size` rows.
    pub fn identity(size: usize) -> (id: Matrix)
        ensures
            id.wf(),
            id.row == size,
            id.column == size,
            id@ == grid_identity(size as int),
    {
        let mut data: Vec<Vec<usize>> = Vec::new();
        let mut i: usize = 0;
        while i < size
            invariant
                i <= size,
                data@.len() == i,
                forall|r: int| 0 <= r < i ==> (#[trigger] data@[r])@.len() == size,
                forall|r: int, c: int|
                    0 <= r < i && 0 <= c < size ==> #[trigger] data@[r]@[c] == if r == c {
                        1usize
                    } else {
                        0usize
                    },
            decreases size - i,
        {
            let mut line: Vec<usize> = Vec::new();
            let mut j: usize = 0;
            while j < size
                invariant
                    j <= size,
                    line@.len() == j,
                    forall|c: int|
                        0 <= c < j ==> #[trigger] line@[c] == if i == c {
                            1usize
                        } else {
                            0usize
                        },
                decreases size - j,
            {
                line.push(if i == j {
                    1
                } else {
                    0
                });
                j += 1;
            }
            data.push(line);
            i += 1;
        }
        let id = Matrix { data, row: size, column: size };
        proof {
            assert(id@ =~~= grid_identity(size as int));
        }
        id
    }

    /// Returns the matrix with every number reduced modulo `modulus`.
    pub fn rem(self, modulus: usize) -> (reduced: Matrix)
        requires
            modulus != 0,
        ensures
            reduced@ == grid_rem(self@, modulus as int),
            reduced.row == self.row,
            reduced.column == self.column,
    {
        let mut matrix = self;
        matrix.rem_assign(modulus);
        matrix
    }

    /// Reduces every number of the matrix modulo `modulus`.
    pub fn rem_assign(&mut self, modulus: usize)
        requires
            modulus != 0,
        ensures
            final(self)@ == grid_rem(old(self)@, modulus as int),
            final(self).row == old(self).row,
            final(self).column == old(self).column,
    {
        let mut data: Vec<Vec<usize>> = Vec::new();
        let mut i: usize = 0;
        while i < self.data.len()
            invariant
                *self == *old(self),
                modulus != 0,
                i <= self.data@.len(),
                data@.len() == i,
                forall|r: int|
                    0 <= r < i ==> (#[trigger] data@[r])@.len() == self.data@[r]@.len(),
                forall|r: int, c: int|
                    0 <= r < i && 0 <= c < self.data@[r]@.len() ==> #[trigger] data@[r]@[c]
                        == self.data@[r]@[c] % modulus,
            decreases self.data@.len() - i,
        {
            let mut line: Vec<usize> = Vec::new();
            let mut j: usize = 0;
            while j < self.data[i].len()
                invariant
                    modulus != 0,
                    i < self.data@.len(),
                    j <= self.data@[i as int]@.len(),
                    line@.len() == j,
                    forall|c: int|
                        0 <= c < j ==> #[trigger] line@[c] == self.data@[i as int]@[c] % modulus,
                decreases self.data@[i as int]@.len() - j,
            {
                line.push(self.data[i][j] % modulus);
                j += 1;
            }
            data.push(line);
            i += 1;
        }
        self.data = data;
        proof {
            assert(self@ =~~= grid_rem(old(self)@, modulus as int));
        }
    }
}

} // verus!
