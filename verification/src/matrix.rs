//! Matrices of fixed size, stored column by column, and the test for reduced row echelon form.
use crate::integer::Integer;
use vstd::prelude::*;

verus! {

/// A matrix with `M` rows and `N` columns, stored as `N` columns of `M` entries each.
#[derive(Clone, Copy, Debug)]
pub struct Matrix<T, const M: usize, const N: usize> {
    pub(crate) array: [[T; M]; N],
}

impl<T, const M: usize, const N: usize> View for Matrix<T, M, N> {
    /// The columns, each a sequence of `M` entries.
    type V = Seq<Seq<T>>;

    closed spec fn view(&self) -> Seq<Seq<T>> {
        Seq::new(N as nat, |c: int| self.array@[c]@)
    }
}

/// Whether `col` is zero everywhere except for a `1` at row `k`.
pub open spec fn is_unit_at(col: Seq<int>, k: int) -> bool {
    &&& 0 <= k < col.len()
    &&& col[k] == 1
    &&& forall|j: int| 0 <= j < col.len() && j != k ==> col[j] == 0
}

/// Whether some entry of `col` is `1`.
pub open spec fn has_one(col: Seq<int>) -> bool {
    exists|j: int| 0 <= j < col.len() && col[j] == 1
}

/// Whether one of the columns before column `i` is a unit column with its `1` at row `j` (a
/// pivot in row `j`).
pub open spec fn pivot_before(cols: Seq<Seq<int>>, i: int, j: int) -> bool {
    exists|c: int| 0 <= c < i && #[trigger] is_unit_at(cols[c], j)
}

/// Column `i` is acceptable: a column holding a `1` must be a unit column, and in a column
/// holding no `1` every nonzero entry lies in a row that has a pivot in an earlier column.
pub open spec fn column_ok(cols: Seq<Seq<int>>, i: int) -> bool {
    if has_one(cols[i]) {
        exists|k: int| is_unit_at(cols[i], k)
    } else {
        forall|j: int| 0 <= j < cols[i].len() && cols[i][j] != 0 ==> pivot_before(cols, i, j)
    }
}

/// Whether row `j` has a nonzero entry in one of the first `n` columns.
pub open spec fn row_nonzero(cols: Seq<Seq<int>>, n: int, j: int) -> bool {
    exists|c: int| 0 <= c < n && #[trigger] cols[c][j] != 0
}

/// The columns `cols` (of `m` rows each) form a matrix in reduced row echelon form, as this
/// library checks it: every column is acceptable (see `column_ok`) and the nonzero rows come
/// before the zero rows.
pub open spec fn rref_spec(cols: Seq<Seq<int>>, m: int) -> bool {
    &&& forall|i: int| 0 <= i < cols.len() ==> #[trigger] column_ok(cols, i)
    &&& forall|j1: int, j2: int|
        0 <= j1 < j2 < m && #[trigger] row_nonzero(cols, cols.len() as int, j2) ==> #[trigger] row_nonzero(
            cols,
            cols.len() as int,
            j1,
        )
}

impl<T, const M: usize, const N: usize> From<[[T; M]; N]> for Matrix<T, M, N> {
    fn from(columns: [[T; M]; N]) -> (r: Self) {
        Matrix { array: columns }
    }
}

impl<T, const M: usize, const N: usize> vstd::std_specs::convert::FromSpecImpl<[[T; M]; N]> for Matrix<T, M, N> {
    open spec fn obeys_from_spec() -> bool {
        true
    }

    closed spec fn from_spec(columns: [[T; M]; N]) -> Self {
        Matrix { array: columns }
    }
}

/// A matrix made from an array of columns has those columns.
pub proof fn lemma_from_columns<T, const M: usize, const N: usize>(columns: [[T; M]; N])
    ensures
        <Matrix<T, M, N> as vstd::std_specs::convert::FromSpec<[[T; M]; N]>>::from_spec(columns)@ == Seq::new(
            N as nat,
            |c: int| columns@[c]@,
        ),
{
}

impl<T: Copy, const M: usize, const N: usize> Matrix<T, M, N> {
    /// Column `i`.
    pub fn col(&self, i: usize) -> (r: [T; M])
        requires
            i < N,
        ensures
            r@ == self@[i as int],
    {
        self.array[i]
    }
}

impl<const S: bool, const W: usize, const B: usize, const OM: u8, const M: usize, const N: usize> Matrix<Integer<S, W, B, OM>, M, N> {
    /// The values of the entries, column by column.
    pub open spec fn values(self) -> Seq<Seq<int>> {
        Seq::new(N as nat, |c: int| Seq::new(M as nat, |j: int| self@[c][j]@))
    }

    /// The square identity matrix: `1` on the diagonal, `0` elsewhere.
    pub fn identity() -> (r: Self)
        requires
            Integer::<S, W, B, OM>::valid_params(),
            M == N,
        ensures
            forall|c: int, j: int| 0 <= c < N && 0 <= j < M ==> #[trigger] r@[c][j]@ == (if c == j { 1int } else { 0int }),
    {
        let z = Integer::<S, W, B, OM>::zero();
        let mut out: [[Integer<S, W, B, OM>; M]; N] = [[z; M]; N];
        let mut c: usize = 0;
        while c < N
            invariant
                Integer::<S, W, B, OM>::valid_params(),
                M == N,
                c <= N,
                z@ == 0,
                forall|c2: int, j: int| 0 <= c2 < N && 0 <= j < M ==> (#[trigger] out@[c2]@[j])@ == (if c2 < c && c2 == j { 1int } else { 0int }),
            decreases N - c,
        {
            let mut column = [z; M];
            column[c] = Integer::<S, W, B, OM>::one();
            out[c] = column;
            c += 1;
        }
        let r = Matrix { array: out };
        assert forall|c2: int, j: int| 0 <= c2 < N && 0 <= j < M implies #[trigger] r@[c2][j]@ == (if c2 == j { 1int } else { 0int }) by {
            assert(r@[c2] == out@[c2]@);
        }
        r
    }

    /// Row `i`: the `i`-th entry of each column.
    pub fn row(&self, i: usize) -> (r: [Integer<S, W, B, OM>; N])
        requires
            Integer::<S, W, B, OM>::valid_params(),
            i < M,
        ensures
            forall|c: int| 0 <= c < N ==> #[trigger] r@[c] == self@[c][i as int],
    {
        let mut out = [Integer::<S, W, B, OM>::zero(); N];
        let mut c: usize = 0;
        while c < N
            invariant
                i < M,
                c <= N,
                forall|c2: int| 0 <= c2 < c ==> #[trigger] out@[c2] == self@[c2][i as int],
            decreases N - c,
        {
            out[c] = self.array[c][i];
            c += 1;
        }
        out
    }

    /// The transpose: row `j` of `self` becomes column `j`.
    pub fn tranpose(self) -> (r: Matrix<Integer<S, W, B, OM>, N, M>)
        requires
            Integer::<S, W, B, OM>::valid_params(),
        ensures
            forall|j: int, c: int| 0 <= j < M && 0 <= c < N ==> #[trigger] r@[j][c] == self@[c][j],
    {
        let z = Integer::<S, W, B, OM>::zero();
        let mut out: [[Integer<S, W, B, OM>; N]; M] = [[z; N]; M];
        let mut j: usize = 0;
        while j < M
            invariant
                Integer::<S, W, B, OM>::valid_params(),
                j <= M,
                forall|j2: int, c: int| 0 <= j2 < j && 0 <= c < N ==> #[trigger] out@[j2]@[c] == self@[c][j2],
            decreases M - j,
        {
            out[j] = self.row(j);
            j += 1;
        }
        let r = Matrix { array: out };
        assert forall|j2: int, c: int| 0 <= j2 < M && 0 <= c < N implies #[trigger] r@[j2][c] == self@[c][j2] by {
            assert(r@[j2] == out@[j2]@);
        }
        r
    }

    /// Whether every entry is zero.
    pub fn is_zero(&self) -> (r: bool)
        ensures
            r == forall|c: int, j: int| 0 <= c < N && 0 <= j < M ==> #[trigger] self@[c][j]@ == 0,
    {
        let mut c: usize = 0;
        while c < N
            invariant
                c <= N,
                forall|c2: int, j: int| 0 <= c2 < c && 0 <= j < M ==> #[trigger] self@[c2][j]@ == 0,
            decreases N - c,
        {
            let mut j: usize = 0;
            while j < M
                invariant
                    c < N,
                    j <= M,
                    forall|c2: int, j2: int| 0 <= c2 < c && 0 <= j2 < M ==> #[trigger] self@[c2][j2]@ == 0,
                    forall|j2: int| 0 <= j2 < j ==> #[trigger] self@[c as int][j2]@ == 0,
                decreases M - j,
            {
                proof {
                    assert(self@[c as int][j as int] == self.array@[c as int]@[j as int]);
                }
                if !self.array[c][j].is_zero() {
                    return false;
                }
                j += 1;
            }
            c += 1;
        }
        true
    }

    /// Whether the matrix is in reduced row echelon form (see `rref_spec`).
    pub fn is_rref(&self) -> (r: bool)
        ensures
            r == rref_spec(self.values(), M as int),
    {
        let ghost vals = self.values();
        let mut current_leading_one_index: usize = 0;
        let mut leading_ones: [Option<usize>; M] = [None; M];
        let mut non_zero_rows: [bool; M] = [false; M];
        let mut i: usize = 0;
        while i < N
            invariant
                vals == self.values(),
                vals.len() == N,
                forall|c: int| 0 <= c < N ==> (#[trigger] vals[c]).len() == M,
                forall|c: int, j: int| 0 <= c < N && 0 <= j < M ==> vals[c][j] == self.array@[c]@[j]@,
                i <= N,
                current_leading_one_index <= i,
                forall|c: int| 0 <= c < i ==> #[trigger] column_ok(vals, c),
                forall|j: int| 0 <= j < M ==> ((#[trigger] leading_ones@[j]) is Some <==> pivot_before(vals, i as int, j)),
                forall|j: int| 0 <= j < M ==> (#[trigger] non_zero_rows@[j] <==> row_nonzero(vals, i as int, j)),
            decreases N - i,
        {
            let col = self.array[i];
            let ghost colv = vals[i as int];
            let mut leading_one = false;
            let mut zeros = true;
            let ghost mut k: int = 0;
            let mut j: usize = 0;
            while j < M
                invariant
                    vals == self.values(),
                    vals.len() == N,
                    forall|c: int| 0 <= c < N ==> (#[trigger] vals[c]).len() == M,
                    i < N,
                    colv == vals[i as int],
                    forall|jj: int| 0 <= jj < M ==> colv[jj] == (#[trigger] col@[jj])@,
                    j <= M,
                    current_leading_one_index <= i,
                    forall|c: int| 0 <= c < i ==> #[trigger] column_ok(vals, c),
                    leading_one ==> 0 <= k < j && colv[k] == 1,
                    leading_one ==> forall|jj: int| 0 <= jj < j && jj != k ==> colv[jj] == 0,
                    !leading_one ==> forall|jj: int| 0 <= jj < j ==> colv[jj] != 1,
                    !leading_one ==> (zeros <==> forall|jj: int| 0 <= jj < j ==> colv[jj] == 0),
                    !leading_one ==> forall|jj: int| 0 <= jj < j && colv[jj] != 0 ==> pivot_before(vals, i as int, jj),
                    forall|jj: int| 0 <= jj < M ==> ((#[trigger] leading_ones@[jj]) is Some <==> (pivot_before(vals, i as int, jj) || (leading_one && jj == k))),
                    forall|jj: int| 0 <= jj < M ==> (#[trigger] non_zero_rows@[jj] <==> (row_nonzero(vals, i as int, jj) || (jj < j && colv[jj] != 0))),
                decreases M - j,
            {
                let item = col[j];
                if item.is_one() && !leading_one {
                    if !zeros {
                        proof {
                            self::lemma_not_unit_two_nonzero(colv, j as int);
                            assert(!column_ok(vals, i as int));
                        }
                        return false;
                    }
                    if i + 1 <= current_leading_one_index {
                        return false;
                    }
                    non_zero_rows[j] = true;
                    leading_one = true;
                    leading_ones[j] = Some(i);
                    current_leading_one_index = i;
                    proof {
                        k = j as int;
                    }
                } else if !item.is_zero() {
                    if leading_one {
                        proof {
                            self::lemma_not_unit_extra(colv, k, j as int);
                            assert(!column_ok(vals, i as int));
                        }
                        return false;
                    }
                    if leading_ones[j].is_none() {
                        proof {
                            self::lemma_column_bad_free(vals, i as int, j as int);
                            assert(!column_ok(vals, i as int));
                        }
                        return false;
                    }
                    non_zero_rows[j] = true;
                    zeros = false;
                }
                j += 1;
            }
            proof {
                self::lemma_column_done(vals, M as int, i as int, leading_one, k);
            }
            i += 1;
        }
        let mut changed = false;
        let mut j: usize = 0;
        while j < M
            invariant
                vals == self.values(),
                vals.len() == N,
                j <= M,
                forall|c: int| 0 <= c < N ==> #[trigger] column_ok(vals, c),
                forall|jj: int| 0 <= jj < M ==> (#[trigger] non_zero_rows@[jj] <==> row_nonzero(vals, N as int, jj)),
                changed <==> exists|jj: int| 0 <= jj < j && !#[trigger] non_zero_rows@[jj],
                forall|j1: int, j2: int| 0 <= j1 < j2 < j && #[trigger] non_zero_rows@[j2] ==> #[trigger] non_zero_rows@[j1],
            decreases M - j,
        {
            let r = non_zero_rows[j];
            if r == changed {
                if changed {
                    proof {
                        let jj = choose|jj: int| 0 <= jj < j && !#[trigger] non_zero_rows@[jj];
                        assert(row_nonzero(vals, vals.len() as int, j as int));
                        assert(!row_nonzero(vals, vals.len() as int, jj));
                    }
                    return false;
                }
                changed = true;
            }
            j += 1;
        }
        proof {
            assert forall|j1: int, j2: int|
                0 <= j1 < j2 < M && #[trigger] row_nonzero(vals, vals.len() as int, j2) implies #[trigger] row_nonzero(
                vals,
                vals.len() as int,
                j1,
            ) by {
                assert(non_zero_rows@[j2]);
                assert(non_zero_rows@[j1]);
            }
        }
        true
    }
}

/// A column whose `1` at row `j` comes after a nonzero entry is not a unit column.
proof fn lemma_not_unit_two_nonzero(col: Seq<int>, j: int)
    requires
        0 <= j < col.len(),
        col[j] == 1,
        exists|jj: int| 0 <= jj < j && col[jj] != 0,
    ensures
        has_one(col),
        !exists|k: int| is_unit_at(col, k),
{
    let jj = choose|jj: int| 0 <= jj < j && col[jj] != 0;
    assert forall|k: int| !is_unit_at(col, k) by {
        if k == j {
            assert(col[jj] != 0 && jj != k);
        } else if 0 <= k < col.len() {
            assert(col[j] != 0 && j != k);
        }
    }
}

/// A nonzero entry other than `1` in a row with no earlier pivot makes column `i` unacceptable.
proof fn lemma_column_bad_free(cols: Seq<Seq<int>>, i: int, j: int)
    requires
        0 <= i < cols.len(),
        0 <= j < cols[i].len(),
        cols[i][j] != 0,
        cols[i][j] != 1,
        !pivot_before(cols, i, j),
    ensures
        !column_ok(cols, i),
{
    let col = cols[i];
    if has_one(col) {
        assert forall|k: int| !is_unit_at(col, k) by {
            if is_unit_at(col, k) {
                assert(j != k);
            }
        }
    }
}

/// After a column has been scanned without a failure, it is acceptable, and the pivots and the
/// nonzero rows of the first `i + 1` columns are those of the first `i` plus its own.
proof fn lemma_column_done(cols: Seq<Seq<int>>, m: int, i: int, leading_one: bool, k: int)
    requires
        0 <= i < cols.len(),
        cols[i].len() == m,
        leading_one ==> 0 <= k < m && cols[i][k] == 1,
        leading_one ==> forall|jj: int| 0 <= jj < m && jj != k ==> cols[i][jj] == 0,
        !leading_one ==> forall|jj: int| 0 <= jj < m ==> cols[i][jj] != 1,
        !leading_one ==> forall|jj: int| 0 <= jj < m && cols[i][jj] != 0 ==> pivot_before(cols, i, jj),
    ensures
        column_ok(cols, i),
        forall|jj: int|
            0 <= jj < m ==> (pivot_before(cols, i + 1, jj) <==> (pivot_before(cols, i, jj) || (leading_one && jj == k))),
        forall|jj: int| 0 <= jj < m ==> (row_nonzero(cols, i + 1, jj) <==> (row_nonzero(cols, i, jj) || cols[i][jj] != 0)),
{
    let col = cols[i];
    if leading_one {
        assert(is_unit_at(col, k));
    } else {
        assert(!has_one(col));
    }
    assert forall|jj: int|
        0 <= jj < m implies (pivot_before(cols, i + 1, jj) <==> (pivot_before(cols, i, jj) || (leading_one && jj == k))) by {
        if pivot_before(cols, i + 1, jj) {
            let c = choose|c: int| 0 <= c < i + 1 && #[trigger] is_unit_at(cols[c], jj);
            if c == i {
                if !leading_one {
                    assert(col[jj] == 1);
                }
                else if jj != k {
                    assert(col[k] == 0);
                }
            }
        }
        if leading_one && jj == k {
            assert(is_unit_at(cols[i], jj));
        }
    }
    assert forall|jj: int| 0 <= jj < m implies (row_nonzero(cols, i + 1, jj) <==> (row_nonzero(cols, i, jj) || cols[i][jj] != 0)) by {
        if row_nonzero(cols, i + 1, jj) {
            let c = choose|c: int| 0 <= c < i + 1 && #[trigger] cols[c][jj] != 0;
            if c < i {
                assert(row_nonzero(cols, i, jj));
            }
        }
        if cols[i][jj] != 0 {
            assert(cols[i][jj] != 0);
        }
    }
}

/// A column with a `1` at row `k` and a nonzero entry at another row `j` is not a unit column.
proof fn lemma_not_unit_extra(col: Seq<int>, k: int, j: int)
    requires
        0 <= k < col.len(),
        0 <= j < col.len(),
        j != k,
        col[k] == 1,
        col[j] != 0,
    ensures
        has_one(col),
        !exists|kk: int| is_unit_at(col, kk),
{
    assert forall|kk: int| !is_unit_at(col, kk) by {
        if kk == k {
            assert(col[j] != 0 && j != kk);
        } else if 0 <= kk < col.len() {
            assert(col[k] != 0 && k != kk);
        }
    }
}

} // verus!
