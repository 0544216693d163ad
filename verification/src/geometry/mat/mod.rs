//! Matrices of a fixed size.

use std::ops::{Add, Mul};
use vstd::prelude::*;
use vstd::std_specs::ops::{AddSpec, MulSpec};

verus! {

/// Struct for representing matrices with an arbitrary amount of rows and columns.
/// The matrix supports common operations, like addition and matrix multiplication.
#[derive(Debug, Clone, Copy, PartialEq, Eq)]
pub struct Mat<T, const COLS: usize, const ROWS: usize> where T: Clone + Copy {
    pub matrix: [[T; COLS]; ROWS],
}

/// A matrix with three rows: `N` points of the plane as its columns, each in
/// homogeneous coordinates.
pub type HomogeneousMatrix<T, const N: usize> = Mat<T, N, 3>;

impl<T, const COLS: usize, const ROWS: usize> Mat<T, COLS, ROWS> where T: Clone + Copy {
    /// The entry in the given row and column.
    pub open spec fn at(self, row: int, col: int) -> T {
        self.matrix[row][col]
    }

    /// Two matrices with the same entries are the same matrix.
    pub proof fn lemma_same_entries(self, other: Self)
        requires
            forall|row: int, col: int|
                0 <= row < ROWS && 0 <= col < COLS ==> self.at(row, col) == other.at(row, col),
        ensures
            self == other,
    {
        assert forall|row: int| 0 <= row < ROWS implies self.matrix[row] == other.matrix[row] by {
            assert forall|col: int| 0 <= col < COLS implies self.matrix[row][col]
                == other.matrix[row][col] by {
                assert(self.at(row, col) == other.at(row, col));
            }
            assert(self.matrix[row] =~= other.matrix[row]);
        }
        assert(self.matrix =~= other.matrix);
    }
}

impl<T, const COLS: usize, const ROWS: usize> Mat<T, COLS, ROWS> where T: Clone + Copy + Default {
    /// The matrix whose entries all hold the default value of their type:
    /// for numbers, the zero matrix.
    pub fn new() -> (mat: Mat<T, COLS, ROWS>)
        ensures
            exists|zero: T|
                T::default.ensures((), zero) && forall|row: int, col: int|
                    0 <= row < ROWS && 0 <= col < COLS ==> #[trigger] mat.at(row, col) == zero,
    {
        let zero = T::default();
        let mat = Self { matrix: [[zero; COLS]; ROWS] };
        assert(forall|row: int, col: int|
            0 <= row < ROWS && 0 <= col < COLS ==> #[trigger] mat.at(row, col) == zero);
        mat
    }
}

impl<T, const COLS: usize, const ROWS: usize> Default for Mat<T, COLS, ROWS> where
    T: Clone + Copy + Default,
 {
    /// The default matrix holds the default value in every entry.
    fn default() -> (mat: Self)
        ensures
            exists|zero: T|
                T::default.ensures((), zero) && forall|row: int, col: int|
                    0 <= row < ROWS && 0 <= col < COLS ==> #[trigger] mat.at(row, col) == zero,
    {
        Self::new()
    }
}

impl<T, const COLS: usize, const ROWS: usize> vstd::std_specs::convert::FromSpecImpl<[[T; COLS]; ROWS]> for Mat<T, COLS, ROWS> where T: Copy {
    open spec fn obeys_from_spec() -> bool {
        true
    }

    open spec fn from_spec(matrix: [[T; COLS]; ROWS]) -> Self {
        Mat { matrix }
    }
}

impl<T, const COLS: usize, const ROWS: usize> From<[[T; COLS]; ROWS]> for Mat<T, COLS, ROWS> where T: Copy {
    /// The matrix with the given rows.
    fn from(matrix: [[T; COLS]; ROWS]) -> (mat: Self)
        ensures
            mat.matrix == matrix,
    {
        Self { matrix }
    }
}

impl<T, const COLS: usize, const ROWS: usize> Mat<T, COLS, ROWS> where
    T: Add<Output = T> + Copy + Default,
 {
    /// Whether every entry of `self` can be added to the entry of `rhs` in
    /// its place: for machine integers, without overflow.
    pub open spec fn addable(self, rhs: Self) -> bool {
        forall|row: int, col: int|
            0 <= row < ROWS && 0 <= col < COLS ==> #[trigger] self.at(row, col).add_req(
                rhs.at(row, col),
            )
    }

    /// Whether `sum` holds, in every entry, the sum of the entries of `self`
    /// and `rhs` in that place.
    pub open spec fn sums_to(self, rhs: Self, sum: Self) -> bool {
        forall|row: int, col: int|
            0 <= row < ROWS && 0 <= col < COLS ==> #[trigger] sum.at(row, col) == self.at(
                row,
                col,
            ).add_spec(rhs.at(row, col))
    }
}

impl<T, const COLS: usize, const ROWS: usize> vstd::std_specs::ops::AddSpecImpl for Mat<T, COLS, ROWS> where T: Add<Output = T> + Copy + Default {
    open spec fn obeys_add_spec() -> bool {
        T::obeys_add_spec()
    }

    open spec fn add_req(self, rhs: Self) -> bool {
        self.addable(rhs)
    }

    open spec fn add_spec(self, rhs: Self) -> Self {
        choose|sum: Self| self.sums_to(rhs, sum)
    }
}

impl<T, const COLS: usize, const ROWS: usize> Add for Mat<T, COLS, ROWS> where T: Add<Output = T> + Copy + Default {
    type Output = Mat<T, COLS, ROWS>;

    /// The sum of two matrices, entry by entry.
    fn add(self, rhs: Self) -> (sum: Self::Output)
        ensures
            T::obeys_add_spec() ==> self.sums_to(rhs, sum),
    {
        let mut new_matrix = Mat::<T, COLS, ROWS>::new();
        let mut x: usize = 0;
        while x < COLS
            invariant
                x <= COLS,
                self.addable(rhs),
                T::obeys_add_spec() ==> forall|row: int, col: int|
                    0 <= row < ROWS && 0 <= col < x ==> #[trigger] new_matrix.at(row, col)
                        == self.at(row, col).add_spec(rhs.at(row, col)),
            decreases COLS - x,
        {
            let mut y: usize = 0;
            while y < ROWS
                invariant
                    x < COLS,
                    y <= ROWS,
                    self.addable(rhs),
                    T::obeys_add_spec() ==> forall|row: int, col: int|
                        0 <= row < ROWS && 0 <= col < x ==> #[trigger] new_matrix.at(row, col)
                            == self.at(row, col).add_spec(rhs.at(row, col)),
                    T::obeys_add_spec() ==> forall|row: int|
                        0 <= row < y ==> #[trigger] new_matrix.at(row, x as int) == self.at(
                            row,
                            x as int,
                        ).add_spec(rhs.at(row, x as int)),
                decreases ROWS - y,
            {
                assert(self.at(y as int, x as int).add_req(rhs.at(y as int, x as int)));
                let ghost before = new_matrix;
                new_matrix.matrix[y][x] = self.matrix[y][x] + rhs.matrix[y][x];
                proof {
                    assert forall|row: int, col: int|
                        0 <= row < ROWS && 0 <= col < COLS && (row != y || col != x) implies new_matrix.at(
                        row,
                        col,
                    ) == before.at(row, col) by {}
                }
                y += 1;
            }
            x += 1;
        }
        proof {
            if T::obeys_add_spec() {
                assert(self.sums_to(rhs, new_matrix));
                new_matrix.lemma_same_entries(choose|sum: Self| self.sums_to(rhs, sum));
            }
        }
        new_matrix
    }
}

impl<T, const INNER: usize, const ROWS: usize> Mat<T, INNER, ROWS> where T: Mul<Output = T> + Add<Output = T> + Copy + Default {
    /// The sum of the first `n` products of an entry of row `row` of `self`
    /// with the entry of column `col` of `rhs` that it meets, added one
    /// after the other to `zero`.
    pub open spec fn dot<const COLS: usize>(
        self,
        rhs: Mat<T, COLS, INNER>,
        zero: T,
        row: int,
        col: int,
        n: int,
    ) -> T
        decreases n,
    {
        if n <= 0 {
            zero
        } else {
            self.dot(rhs, zero, row, col, n - 1).add_spec(
                self.at(row, n - 1).mul_spec(rhs.at(n - 1, col)),
            )
        }
    }

    /// Whether every product and every sum that the matrix product is made
    /// of can be taken: for machine integers, without overflow.
    pub open spec fn multipliable<const COLS: usize>(self, rhs: Mat<T, COLS, INNER>, zero: T) -> bool {
        forall|row: int, col: int, k: int|
            0 <= row < ROWS && 0 <= col < COLS && 0 <= k < INNER ==> (#[trigger] self.dot(
                rhs,
                zero,
                row,
                col,
                k,
            )).add_req(self.at(row, k).mul_spec(rhs.at(k, col))) && self.at(row, k).mul_req(
                rhs.at(k, col),
            )
    }

    /// Whether `product` holds, in every entry, the products of the row of
    /// `self` and the column of `rhs` that meet there, summed up from `zero`.
    pub open spec fn multiplies_to<const COLS: usize>(
        self,
        rhs: Mat<T, COLS, INNER>,
        zero: T,
        product: Mat<T, COLS, ROWS>,
    ) -> bool {
        forall|row: int, col: int|
            0 <= row < ROWS && 0 <= col < COLS ==> #[trigger] product.at(row, col) == self.dot(
                rhs,
                zero,
                row,
                col,
                INNER as int,
            )
    }
}

impl<T, const INNER: usize, const ROWS: usize> Mat<T, INNER, ROWS> where T: Mul<Output = T> + Add<Output = T> + Copy + Default {
    /// Whether `product` is the matrix product of `self` and `rhs`, summed up
    /// from a default value of the entries' type.
    pub open spec fn is_product<const COLS: usize>(
        self,
        rhs: Mat<T, COLS, INNER>,
        product: Mat<T, COLS, ROWS>,
    ) -> bool {
        exists|zero: T| #[trigger]
            T::default.ensures((), zero) && self.multiplies_to(rhs, zero, product)
    }
}

/// Whether the default value of a type is one value, the same at every call.
pub open spec fn default_is_one_value<T: Default>() -> bool {
    forall|first: T, second: T|
        T::default.ensures((), first) && T::default.ensures((), second) ==> first == second
}

impl<T, const COLS_1_ROWS_2: usize, const ROWS_1: usize, const COLS_2: usize> vstd::std_specs::ops::MulSpecImpl<Mat<T, COLS_2, COLS_1_ROWS_2>> for Mat<T, COLS_1_ROWS_2, ROWS_1> where T: Mul<Output = T> + Add<Output = T> + Copy + Default {
    open spec fn obeys_mul_spec() -> bool {
        default_is_one_value::<T>()
    }

    open spec fn mul_req(self, rhs: Mat<T, COLS_2, COLS_1_ROWS_2>) -> bool {
        &&& T::obeys_mul_spec()
        &&& T::obeys_add_spec()
        &&& forall|zero: T| #[trigger] T::default.ensures((), zero) ==> self.multipliable(rhs, zero)
    }

    open spec fn mul_spec(self, rhs: Mat<T, COLS_2, COLS_1_ROWS_2>) -> Mat<T, COLS_2, ROWS_1> {
        choose|product: Mat<T, COLS_2, ROWS_1>| self.is_product(rhs, product)
    }
}

impl<T, const COLS_1_ROWS_2: usize, const ROWS_1: usize, const COLS_2: usize> Mul<Mat<T, COLS_2, COLS_1_ROWS_2>> for Mat<T, COLS_1_ROWS_2, ROWS_1> where T: Mul<Output = T> + Add<Output = T> + Copy + Default {
    type Output = Mat<T, COLS_2, ROWS_1>;

    /// The matrix product: the entry in a row and a column is the sum of the
    /// products of the entries of that row of `self` with the entries of
    /// that column of `rhs`, added up from the default value.
    fn mul(self, rhs: Mat<T, COLS_2, COLS_1_ROWS_2>) -> (product: Self::Output)
        ensures
            self.is_product(rhs, product),
    {
        let mut new_matrix = Mat::<T, COLS_2, ROWS_1>::new();
        let ghost zero = choose|zero: T|
            T::default.ensures((), zero) && forall|row: int, col: int|
                0 <= row < ROWS_1 && 0 <= col < COLS_2 ==> #[trigger] new_matrix.at(row, col)
                    == zero;
        let mut x: usize = 0;
        while x < COLS_2
            invariant
                x <= COLS_2,
                T::obeys_mul_spec(),
                T::obeys_add_spec(),
                T::default.ensures((), zero),
                self.multipliable(rhs, zero),
                forall|row: int, col: int|
                    0 <= row < ROWS_1 && 0 <= col < x ==> #[trigger] new_matrix.at(row, col)
                        == self.dot(rhs, zero, row, col, COLS_1_ROWS_2 as int),
                forall|row: int, col: int|
                    0 <= row < ROWS_1 && x <= col < COLS_2 ==> #[trigger] new_matrix.at(row, col)
                        == zero,
            decreases COLS_2 - x,
        {
            let mut y: usize = 0;
            while y < ROWS_1
                invariant
                    x < COLS_2,
                    y <= ROWS_1,
                    T::obeys_mul_spec(),
                    T::obeys_add_spec(),
                    self.multipliable(rhs, zero),
                    forall|row: int, col: int|
                        0 <= row < ROWS_1 && 0 <= col < x ==> #[trigger] new_matrix.at(row, col)
                            == self.dot(rhs, zero, row, col, COLS_1_ROWS_2 as int),
                    forall|row: int, col: int|
                        0 <= row < ROWS_1 && x < col < COLS_2 ==> #[trigger] new_matrix.at(row, col)
                            == zero,
                    forall|row: int|
                        0 <= row < y ==> #[trigger] new_matrix.at(row, x as int) == self.dot(
                            rhs,
                            zero,
                            row,
                            x as int,
                            COLS_1_ROWS_2 as int,
                        ),
                    forall|row: int|
                        y <= row < ROWS_1 ==> #[trigger] new_matrix.at(row, x as int) == zero,
                decreases ROWS_1 - y,
            {
                let mut a: usize = 0;
                while a < COLS_1_ROWS_2
                    invariant
                        x < COLS_2,
                        y < ROWS_1,
                        a <= COLS_1_ROWS_2,
                        T::obeys_mul_spec(),
                        T::obeys_add_spec(),
                        self.multipliable(rhs, zero),
                        forall|row: int, col: int|
                            0 <= row < ROWS_1 && 0 <= col < x ==> #[trigger] new_matrix.at(
                                row,
                                col,
                            ) == self.dot(rhs, zero, row, col, COLS_1_ROWS_2 as int),
                        forall|row: int, col: int|
                            0 <= row < ROWS_1 && x < col < COLS_2 ==> #[trigger] new_matrix.at(
                                row,
                                col,
                            ) == zero,
                        forall|row: int|
                            0 <= row < y ==> #[trigger] new_matrix.at(row, x as int) == self.dot(
                                rhs,
                                zero,
                                row,
                                x as int,
                                COLS_1_ROWS_2 as int,
                            ),
                        forall|row: int|
                            y < row < ROWS_1 ==> #[trigger] new_matrix.at(row, x as int) == zero,
                        new_matrix.at(y as int, x as int) == self.dot(
                            rhs,
                            zero,
                            y as int,
                            x as int,
                            a as int,
                        ),
                    decreases COLS_1_ROWS_2 - a,
                {
                    let ghost before = new_matrix;
                    proof {
                        let so_far = self.dot(rhs, zero, y as int, x as int, a as int);
                        assert(so_far.add_req(
                            self.at(y as int, a as int).mul_spec(rhs.at(a as int, x as int)),
                        ) && self.at(y as int, a as int).mul_req(rhs.at(a as int, x as int)));
                    }
                    let term = self.matrix[y][a] * rhs.matrix[a][x];
                    new_matrix.matrix[y][x] = new_matrix.matrix[y][x] + term;
                    proof {
                        assert forall|row: int, col: int|
                            0 <= row < ROWS_1 && 0 <= col < COLS_2 && (row != y || col != x) implies new_matrix.at(
                            row,
                            col,
                        ) == before.at(row, col) by {}
                    }
                    a += 1;
                }
                y += 1;
            }
            x += 1;
        }
        proof {
            assert(self.multiplies_to(rhs, zero, new_matrix));
            if default_is_one_value::<T>() {
                assert(self.is_product(rhs, new_matrix));
                let chosen = choose|product: Mat<T, COLS_2, ROWS_1>| self.is_product(rhs, product);
                let other = choose|other: T| #[trigger]
                    T::default.ensures((), other) && self.multiplies_to(rhs, other, chosen);
                assert(other == zero);
                new_matrix.lemma_same_entries(chosen);
            }
        }
        new_matrix
    }
}

} // verus!
