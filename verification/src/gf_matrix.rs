//! Matrices over the field of 256 elements.
use crate::gf256::{gf_inv, gf_mul, Gf};
use crate::gf256::{
    lemma_inv, lemma_mul_assoc, lemma_mul_comm, lemma_mul_dist, lemma_mul_nonzero, lemma_mul_unit,
    lemma_xor,
};
use crate::gf_poly::gf_sum;
use crate::gf_poly::{
    lemma_sum_eq, lemma_sum_scale, lemma_sum_single, lemma_sum_swap, lemma_sum_xor, lemma_sum_zero,
};
use crate::gf_tables::GfTables;
use vstd::prelude::*;

verus! {

/// The entry in row `r` and column `c` of a matrix with `k` columns, stored by rows.
pub open spec fn cell(m: Seq<u8>, k: int, r: int, c: int) -> u8 {
    m[r * k + c]
}

pub proof fn lemma_cell_bound(k: int, rows: int, r: int, c: int)
    requires
        0 <= r < rows,
        0 <= c < k,
    ensures
        0 <= r * k,
        0 <= r * k + c < rows * k,
{
    assert(0 <= r * k && r * k + k <= rows * k) by (nonlinear_arith)
        requires
            0 <= r < rows,
            0 <= k,
    ;
}

pub proof fn lemma_cell_injective(k: int, r: int, c: int, r2: int, c2: int)
    requires
        0 <= c < k,
        0 <= c2 < k,
        r * k + c == r2 * k + c2,
    ensures
        r == r2,
        c == c2,
{
    assert(r == r2) by (nonlinear_arith)
        requires
            0 <= c < k,
            0 <= c2 < k,
            r * k + c == r2 * k + c2,
    ;
}

pub(crate) fn cell_get(m: &Vec<Gf>, k: usize, r: usize, c: usize, Ghost(rows): Ghost<int>) -> (v: Gf)
    requires
        m@.len() == rows * k,
        r < rows,
        c < k,
    ensures
        v == cell(m@, k as int, r as int, c as int),
{
    proof {
        lemma_cell_bound(k as int, rows, r as int, c as int);
        assert(r * k + c < m.len());
    }
    m[r * k + c]
}

pub(crate) fn cell_set(m: &mut Vec<Gf>, k: usize, r: usize, c: usize, v: Gf, Ghost(rows): Ghost<int>)
    requires
        old(m)@.len() == rows * k,
        r < rows,
        c < k,
    ensures
        final(m)@.len() == rows * k,
        forall|r2: int, c2: int|
            0 <= r2 < rows && 0 <= c2 < k ==> #[trigger] cell(final(m)@, k as int, r2, c2) == (if r2
                == r && c2 == c {
                v
            } else {
                cell(old(m)@, k as int, r2, c2)
            }),
{
    proof {
        lemma_cell_bound(k as int, rows, r as int, c as int);
        assert(r * k + c < m.len());
    }
    let ghost before = m@;
    m.set(r * k + c, v);
    proof {
        assert forall|r2: int, c2: int| 0 <= r2 < rows && 0 <= c2 < k implies #[trigger] cell(
            m@,
            k as int,
            r2,
            c2,
        ) == (if r2 == r && c2 == c {
            v
        } else {
            cell(before, k as int, r2, c2)
        }) by {
            lemma_cell_bound(k as int, rows, r2, c2);
            if r2 * k + c2 == r * k + c {
                lemma_cell_injective(k as int, r2, c2, r as int, c as int);
            }
        }
    }
}

/// Rows `c_row..c_row + rows` of `c` become the product of rows `a_row..a_row + rows` of `a` and
/// the first `n` rows of `b`.
pub(crate) fn matmul(
    tables: &GfTables,
    a: &Vec<Gf>,
    a_row: usize,
    b: &Vec<Gf>,
    c: &mut Vec<Gf>,
    c_row: usize,
    rows: usize,
    cols: usize,
    n: usize,
    Ghost(heights): Ghost<(int, int, int)>,
)
    requires
        tables.wf(),
        a@.len() == heights.0 * n,
        b@.len() == heights.1 * cols,
        old(c)@.len() == heights.2 * cols,
        a_row + rows <= heights.0 <= 256,
        n <= heights.1,
        c_row + rows <= heights.2 <= 256,
    ensures
        final(c)@.len() == heights.2 * cols,
        forall|r: int, j: int|
            0 <= r < heights.2 && 0 <= j < cols ==> #[trigger] cell(final(c)@, cols as int, r, j)
                == (if c_row <= r < c_row + rows {
                gf_sum(
                    |t: int|
                        gf_mul(
                            cell(a@, n as int, a_row + (r - c_row), t),
                            cell(b@, cols as int, t, j),
                        ),
                    n as nat,
                )
            } else {
                cell(old(c)@, cols as int, r, j)
            }),
{
    let ghost before = c@;
    let ghost product = |r: int, j: int|
        gf_sum(
            |t: int|
                gf_mul(cell(a@, n as int, a_row + (r - c_row), t), cell(b@, cols as int, t, j)),
            n as nat,
        );
    let mut row: usize = 0;
    while row < rows
        invariant
            row <= rows,
            tables.wf(),
            a@.len() == heights.0 * n,
            b@.len() == heights.1 * cols,
            c@.len() == heights.2 * cols,
            a_row + rows <= heights.0 <= 256,
            n <= heights.1,
            c_row + rows <= heights.2 <= 256,
            product == (|r: int, j: int|
                gf_sum(
                    |t: int|
                        gf_mul(
                            cell(a@, n as int, a_row + (r - c_row), t),
                            cell(b@, cols as int, t, j),
                        ),
                    n as nat,
                )),
            forall|r: int, j: int|
                0 <= r < heights.2 && 0 <= j < cols ==> #[trigger] cell(c@, cols as int, r, j) == (
                if c_row <= r < c_row + row {
                    product(r, j)
                } else {
                    cell(before, cols as int, r, j)
                }),
        decreases rows - row,
    {
        let mut col: usize = 0;
        while col < cols
            invariant
                row < rows,
                col <= cols,
                tables.wf(),
                a@.len() == heights.0 * n,
                b@.len() == heights.1 * cols,
                c@.len() == heights.2 * cols,
                a_row + rows <= heights.0 <= 256,
                n <= heights.1,
                c_row + rows <= heights.2 <= 256,
                product == (|r: int, j: int|
                    gf_sum(
                        |t: int|
                            gf_mul(
                                cell(a@, n as int, a_row + (r - c_row), t),
                                cell(b@, cols as int, t, j),
                            ),
                        n as nat,
                    )),
                forall|r: int, j: int|
                    0 <= r < heights.2 && 0 <= j < cols ==> #[trigger] cell(c@, cols as int, r, j)
                        == (if c_row <= r < c_row + row || (r == c_row + row && j < col) {
                        product(r, j)
                    } else {
                        cell(before, cols as int, r, j)
                    }),
            decreases cols - col,
        {
            let mut acc: Gf = 0;
            let ghost term = |t: int|
                gf_mul(
                    cell(a@, n as int, a_row + (c_row + row - c_row), t),
                    cell(b@, cols as int, t, col as int),
                );
            let mut t: usize = 0;
            while t < n
                invariant
                    t <= n,
                    row < rows,
                    col < cols,
                    tables.wf(),
                    a@.len() == heights.0 * n,
                    b@.len() == heights.1 * cols,
                    a_row + rows <= heights.0 <= 256,
                    n <= heights.1,
                    forall|s: int|
                        0 <= s < n ==> #[trigger] term(s) == gf_mul(
                            cell(a@, n as int, (a_row + row) as int, s),
                            cell(b@, cols as int, s, col as int),
                        ),
                    acc == gf_sum(term, t as nat),
                decreases n - t,
            {
                let x: Gf = cell_get(a, n, a_row + row, t, Ghost(heights.0));
                let y: Gf = cell_get(b, cols, t, col, Ghost(heights.1));
                assert(term(t as int) == gf_mul(x, y));
                acc = acc ^ tables.gf_mul(x, y);
                t = t + 1;
            }
            assert(acc == product(c_row + row, col as int));
            cell_set(c, cols, c_row + row, col, acc, Ghost(heights.2));
            col = col + 1;
        }
        row = row + 1;
    }
}


/// A square matrix as the sequence of its rows.
pub open spec fn rows(m: Seq<u8>, k: nat) -> Seq<Seq<u8>> {
    Seq::new(k, |r: int| Seq::new(k, |c: int| cell(m, k as int, r, c)))
}

/// A square matrix with `k` rows.
pub open spec fn square(m: Seq<Seq<u8>>, k: nat) -> bool {
    &&& m.len() == k
    &&& forall|r: int| 0 <= r < k ==> (#[trigger] m[r]).len() == k
}

pub open spec fn identity(k: nat) -> Seq<Seq<u8>> {
    Seq::new(
        k,
        |r: int|
            Seq::new(
                k,
                |c: int|
                    if r == c {
                        1u8
                    } else {
                        0u8
                    },
            ),
    )
}

/// The first row from `j` on whose entry in column `i` is not zero, or the number of rows.
pub open spec fn pivot_row(m: Seq<Seq<u8>>, i: int, j: int) -> int
    decreases m.len() - j,
{
    if j >= m.len() || m[j][i] != 0 {
        j
    } else {
        pivot_row(m, i, j + 1)
    }
}

pub open spec fn swap_rows(m: Seq<Seq<u8>>, i: int, j: int) -> Seq<Seq<u8>> {
    m.update(i, m[j]).update(j, m[i])
}

pub open spec fn scale_row(m: Seq<Seq<u8>>, i: int, f: u8) -> Seq<Seq<u8>> {
    m.update(i, Seq::new(m.len(), |c: int| gf_mul(m[i][c], f)))
}

/// Every row but `i` gains row `i` times its own entry in column `i` of `by`.
pub open spec fn clear_column(m: Seq<Seq<u8>>, by: Seq<Seq<u8>>, i: int) -> Seq<Seq<u8>> {
    Seq::new(
        m.len(),
        |r: int|
            if r == i {
                m[i]
            } else {
                Seq::new(m.len(), |c: int| m[r][c] ^ gf_mul(by[r][i], m[i][c]))
            },
    )
}

/// The matrix under elimination, and the identity under the same row operations.
pub struct Elimination {
    pub left: Seq<Seq<u8>>,
    pub right: Seq<Seq<u8>>,
}

/// Brings a nonzero entry to the diagonal in column `i`, where there is one below it.
pub open spec fn pivoted(e: Elimination, i: int) -> Elimination {
    let j = pivot_row(e.left, i, i + 1);
    if e.left[i][i] == 0 && j < e.left.len() {
        Elimination { left: swap_rows(e.left, i, j), right: swap_rows(e.right, i, j) }
    } else {
        e
    }
}

/// Divides row `i` by its diagonal entry; a zero entry makes the row zero.
pub open spec fn normalized(e: Elimination, i: int) -> Elimination {
    let f = gf_inv(e.left[i][i]);
    Elimination { left: scale_row(e.left, i, f), right: scale_row(e.right, i, f) }
}

pub open spec fn cleared(e: Elimination, i: int) -> Elimination {
    Elimination {
        left: clear_column(e.left, e.left, i),
        right: clear_column(e.right, e.left, i),
    }
}

/// Gauss-Jordan elimination of columns `i` and up.
pub open spec fn eliminated(e: Elimination, i: int, k: nat) -> Elimination
    decreases k - i,
{
    if i >= k {
        e
    } else {
        eliminated(cleared(normalized(pivoted(e, i), i), i), i + 1, k)
    }
}

/// The inverse of `m` as elimination finds it.
pub open spec fn inverse_matrix(m: Seq<Seq<u8>>) -> Seq<Seq<u8>> {
    eliminated(Elimination { left: m, right: identity(m.len()) }, 0, m.len()).right
}

/// The sum of the products of corresponding entries.
pub open spec fn dot(a: Seq<u8>, b: Seq<u8>) -> u8 {
    gf_sum(|s: int| gf_mul(a[s], b[s]), a.len())
}

pub open spec fn matrix_column(m: Seq<Seq<u8>>, c: int) -> Seq<u8> {
    Seq::new(m.len(), |s: int| m[s][c])
}

proof fn lemma_dot_add(a: Seq<u8>, f: u8, b: Seq<u8>, w: Seq<u8>, s: Seq<u8>)
    requires
        a.len() == b.len(),
        s == Seq::new(a.len(), |c: int| a[c] ^ gf_mul(f, b[c])),
    ensures
        dot(s, w) == dot(a, w) ^ gf_mul(f, dot(b, w)),
{
    let n = a.len();
    let fa = |c: int| gf_mul(a[c], w[c]);
    let fb = |c: int| gf_mul(b[c], w[c]);
    let fs = |c: int| gf_mul(s[c], w[c]);
    let ffb = |c: int| gf_mul(f, fb(c));
    lemma_sum_scale(f, fb, n);
    lemma_sum_xor(fa, ffb, n);
    let both = |c: int| fa(c) ^ ffb(c);
    assert forall|c: int| 0 <= c < n implies #[trigger] fs(c) == both(c) by {
        lemma_mul_dist(w[c], a[c], gf_mul(f, b[c]));
        lemma_mul_assoc(f, b[c], w[c]);
    }
    lemma_sum_eq(fs, both, n);
}

proof fn lemma_dot_scale(a: Seq<u8>, f: u8, w: Seq<u8>, s: Seq<u8>)
    requires
        s == Seq::new(a.len(), |c: int| gf_mul(a[c], f)),
    ensures
        dot(s, w) == gf_mul(f, dot(a, w)),
{
    let n = a.len();
    let fa = |c: int| gf_mul(a[c], w[c]);
    let fs = |c: int| gf_mul(s[c], w[c]);
    let ffa = |c: int| gf_mul(f, fa(c));
    lemma_sum_scale(f, fa, n);
    assert forall|c: int| 0 <= c < n implies #[trigger] fs(c) == ffa(c) by {
        lemma_mul_comm(a[c], f);
        lemma_mul_assoc(f, a[c], w[c]);
    }
    lemma_sum_eq(fs, ffa, n);
}

pub open spec fn orthogonal(m: Seq<Seq<u8>>, v: Seq<u8>) -> bool {
    forall|r: int| 0 <= r < m.len() ==> #[trigger] dot(m[r], v) == 0
}

pub open spec fn all_zero(v: Seq<u8>) -> bool {
    forall|c: int| 0 <= c < v.len() ==> #[trigger] v[c] == 0
}

/// Only the zero vector is orthogonal to every row.
pub open spec fn regular(m: Seq<Seq<u8>>) -> bool {
    forall|v: Seq<u8>| v.len() == m.len() && #[trigger] orthogonal(m, v) ==> all_zero(v)
}

/// The columns before `i` are those of the identity.
spec fn unit_columns(m: Seq<Seq<u8>>, i: int) -> bool {
    forall|r: int, c: int|
        0 <= r < m.len() && 0 <= c < i ==> #[trigger] m[r][c] == (if r == c {
            1u8
        } else {
            0u8
        })
}

/// `e.right` times `m` is `e.left`, both are regular, and `e.left` has `i` columns done.
spec fn eliminating(m: Seq<Seq<u8>>, e: Elimination, k: nat, i: int) -> bool {
    &&& square(m, k)
    &&& square(e.left, k)
    &&& square(e.right, k)
    &&& forall|r: int, c: int|
        0 <= r < k && 0 <= c < k ==> dot(#[trigger] e.right[r], #[trigger] matrix_column(m, c))
            == e.left[r][c]
    &&& regular(e.left)
    &&& regular(e.right)
    &&& unit_columns(e.left, i)
}

proof fn lemma_swap_regular(m: Seq<Seq<u8>>, k: nat, i: int, j: int)
    requires
        square(m, k),
        regular(m),
        0 <= i < k,
        0 <= j < k,
    ensures
        regular(swap_rows(m, i, j)),
{
    let p = swap_rows(m, i, j);
    assert forall|v: Seq<u8>| v.len() == k && #[trigger] orthogonal(p, v) implies all_zero(v) by {
        assert forall|r: int| 0 <= r < k implies #[trigger] dot(m[r], v) == 0 by {
            let r2 = if r == i {
                j
            } else if r == j {
                i
            } else {
                r
            };
            assert(p[r2] == m[r]);
            assert(dot(p[r2], v) == 0);
        }
        assert(orthogonal(m, v));
    }
}

proof fn lemma_scale_regular(m: Seq<Seq<u8>>, k: nat, i: int, f: u8)
    requires
        square(m, k),
        regular(m),
        0 <= i < k,
        f != 0,
    ensures
        regular(scale_row(m, i, f)),
{
    let n = scale_row(m, i, f);
    assert forall|v: Seq<u8>| v.len() == k && #[trigger] orthogonal(n, v) implies all_zero(v) by {
        assert forall|r: int| 0 <= r < k implies #[trigger] dot(m[r], v) == 0 by {
            assert(dot(n[r], v) == 0);
            if r == i {
                lemma_dot_scale(m[i], f, v, n[i]);
                if dot(m[i], v) != 0 {
                    lemma_mul_nonzero(f, dot(m[i], v));
                }
            }
        }
        assert(orthogonal(m, v));
    }
}

proof fn lemma_clear_regular(m: Seq<Seq<u8>>, by: Seq<Seq<u8>>, k: nat, i: int)
    requires
        square(m, k),
        regular(m),
        0 <= i < k,
    ensures
        regular(clear_column(m, by, i)),
{
    broadcast use lemma_xor;

    let n = clear_column(m, by, i);
    assert forall|v: Seq<u8>| v.len() == k && #[trigger] orthogonal(n, v) implies all_zero(v) by {
        assert(dot(n[i], v) == 0);
        assert forall|r: int| 0 <= r < k implies #[trigger] dot(m[r], v) == 0 by {
            assert(dot(n[r], v) == 0);
            if r != i {
                lemma_dot_add(m[r], by[r][i], m[i], v, n[r]);
                lemma_mul_unit(by[r][i]);
            }
        }
        assert(orthogonal(m, v));
    }
}

/// Only zero is orthogonal to every row of the identity.
proof fn lemma_identity_regular(k: nat)
    ensures
        regular(identity(k)),
{
    assert forall|v: Seq<u8>| v.len() == k && #[trigger] orthogonal(identity(k), v) implies all_zero(v) by {
        assert forall|c: int| 0 <= c < k implies #[trigger] v[c] == 0 by {
            lemma_dot_unit(v, k, c);
            assert(dot(identity(k)[c], v) == 0);
        }
    }
}

/// A row of the identity picks out an entry.
proof fn lemma_dot_unit(v: Seq<u8>, k: nat, j: int)
    requires
        v.len() == k,
        0 <= j < k,
    ensures
        dot(identity(k)[j], v) == v[j],
        dot(v, identity(k)[j]) == v[j],
{
    let u = identity(k)[j];
    let f = |s: int| gf_mul(u[s], v[s]);
    let g = |s: int| gf_mul(v[s], u[s]);
    assert forall|s: int| 0 <= s < k && s != j implies #[trigger] f(s) == 0 by {
        lemma_mul_unit(v[s]);
    }
    assert forall|s: int| 0 <= s < k implies #[trigger] g(s) == f(s) by {
        lemma_mul_comm(v[s], u[s]);
    }
    lemma_mul_unit(v[j]);
    lemma_sum_single(f, k, j);
    lemma_sum_eq(g, f, k);
}

/// A matrix between two vectors can be taken with either first.
proof fn lemma_dot_assoc(a: Seq<u8>, m: Seq<Seq<u8>>, w: Seq<u8>, k: nat)
    requires
        square(m, k),
        a.len() == k,
        w.len() == k,
    ensures
        dot(a, Seq::new(k, |s: int| dot(m[s], w))) == dot(
            Seq::new(k, |t: int| dot(a, matrix_column(m, t))),
            w,
        ),
{
    let left = Seq::new(k, |s: int| dot(m[s], w));
    let right = Seq::new(k, |t: int| dot(a, matrix_column(m, t)));
    let g = |s: int, t: int| gf_mul(a[s], gf_mul(m[s][t], w[t]));
    let by_rows = |s: int| gf_sum(|t: int| g(s, t), k);
    let by_columns = |t: int| gf_sum(|s: int| g(s, t), k);
    let lhs = |s: int| gf_mul(a[s], left[s]);
    let rhs = |t: int| gf_mul(right[t], w[t]);
    assert forall|s: int| 0 <= s < k implies #[trigger] lhs(s) == by_rows(s) by {
        let h = |t: int| gf_mul(m[s][t], w[t]);
        lemma_sum_scale(a[s], h, k);
        lemma_sum_eq(|t: int| gf_mul(a[s], h(t)), |t: int| g(s, t), k);
    }
    assert forall|t: int| 0 <= t < k implies #[trigger] rhs(t) == by_columns(t) by {
        let c = matrix_column(m, t);
        let h = |s: int| gf_mul(a[s], c[s]);
        lemma_sum_scale(w[t], h, k);
        let scaled = |s: int| gf_mul(w[t], h(s));
        let column = |s: int| g(s, t);
        assert forall|s: int| 0 <= s < k implies #[trigger] scaled(s) == column(s) by {
            lemma_mul_assoc(a[s], m[s][t], w[t]);
            lemma_mul_comm(h(s), w[t]);
        }
        lemma_sum_eq(scaled, column, k);
        lemma_mul_comm(right[t], w[t]);
    }
    lemma_sum_eq(lhs, by_rows, k);
    lemma_sum_eq(rhs, by_columns, k);
    lemma_sum_swap(g, k, k);
}

/// The product of two matrices is the identity.
pub open spec fn product_is_identity(a: Seq<Seq<u8>>, b: Seq<Seq<u8>>, k: nat) -> bool {
    forall|r: int, c: int|
        0 <= r < k && 0 <= c < k ==> dot(#[trigger] a[r], #[trigger] matrix_column(b, c)) == (if r
            == c {
            1u8
        } else {
            0u8
        })
}

/// A matrix with a left inverse is regular.
pub proof fn lemma_invertible_regular(n: Seq<Seq<u8>>, m: Seq<Seq<u8>>)
    requires
        square(n, m.len()),
        square(m, m.len()),
        product_is_identity(n, m, m.len()),
    ensures
        regular(m),
{
    let k = m.len();
    assert forall|v: Seq<u8>| v.len() == k && #[trigger] orthogonal(m, v) implies all_zero(v) by {
        assert forall|r: int| 0 <= r < k implies #[trigger] v[r] == 0 by {
            lemma_dot_assoc(n[r], m, v, k);
            let image = Seq::new(k, |s: int| dot(m[s], v));
            assert(Seq::new(k, |t: int| dot(n[r], matrix_column(m, t))) =~= identity(k)[r]);
            lemma_dot_unit(v, k, r);
            let f = |s: int| gf_mul(n[r][s], image[s]);
            assert forall|s: int| 0 <= s < k implies #[trigger] f(s) == 0 by {
                assert(dot(m[s], v) == 0);
                lemma_mul_unit(n[r][s]);
            }
            lemma_sum_zero(f, k);
        }
    }
}

/// A left inverse of a left inverse of a matrix is the matrix.
proof fn lemma_left_inverses(n: Seq<Seq<u8>>, i: Seq<Seq<u8>>, m: Seq<Seq<u8>>, k: nat)
    requires
        square(n, k),
        square(i, k),
        square(m, k),
        product_is_identity(n, i, k),
        product_is_identity(i, m, k),
    ensures
        n == m,
{
    assert forall|r: int, c: int| 0 <= r < k && 0 <= c < k implies n[r][c] == m[r][c] by {
        let w = matrix_column(m, c);
        lemma_dot_assoc(n[r], i, w, k);
        assert(Seq::new(k, |s: int| dot(i[s], w)) =~= identity(k)[c]) by {
            assert forall|s: int| 0 <= s < k implies dot(i[s], w) == identity(k)[c][s] by {
                assert(dot(i[s], matrix_column(m, c)) == (if s == c {
                    1u8
                } else {
                    0u8
                }));
            }
        }
        assert(Seq::new(k, |t: int| dot(n[r], matrix_column(i, t))) =~= identity(k)[r]);
        lemma_dot_unit(n[r], k, c);
        lemma_dot_unit(w, k, r);
    }
    assert forall|r: int| 0 <= r < k implies n[r] == m[r] by {
        assert(n[r] =~= m[r]);
    }
    assert(n =~= m);
}

/// Elimination finds the inverse on both sides, and inverting twice gives the matrix back.
pub proof fn lemma_inverse_both_sides(m: Seq<Seq<u8>>)
    requires
        square(m, m.len()),
        regular(m),
    ensures
        product_is_identity(inverse_matrix(m), m, m.len()),
        product_is_identity(m, inverse_matrix(m), m.len()),
        regular(inverse_matrix(m)),
        inverse_matrix(inverse_matrix(m)) == m,
{
    let i = inverse_matrix(m);
    lemma_inverse_matrix(m);
    lemma_inverse_matrix(i);
    lemma_left_inverses(inverse_matrix(i), i, m, m.len());
}

proof fn lemma_pivot_row(m: Seq<Seq<u8>>, i: int, j: int)
    requires
        0 <= j <= m.len(),
    ensures
        j <= pivot_row(m, i, j) <= m.len(),
        forall|r: int| j <= r < pivot_row(m, i, j) ==> #[trigger] m[r][i] == 0,
        pivot_row(m, i, j) < m.len() ==> m[pivot_row(m, i, j)][i] != 0,
    decreases m.len() - j,
{
    if j < m.len() && m[j][i] == 0 {
        lemma_pivot_row(m, i, j + 1);
    }
}

/// A regular matrix with its first columns done has a nonzero entry further down column `i`.
proof fn lemma_pivot_exists(m: Seq<Seq<u8>>, k: nat, i: int)
    requires
        square(m, k),
        regular(m),
        unit_columns(m, i),
        0 <= i < k,
    ensures
        m[i][i] != 0 || pivot_row(m, i, i + 1) < k,
{
    broadcast use lemma_xor;

    lemma_pivot_row(m, i, i + 1);
    if m[i][i] == 0 && pivot_row(m, i, i + 1) >= k {
        let v = Seq::new(
            k,
            |c: int|
                if c < i {
                    m[c][i]
                } else if c == i {
                    1u8
                } else {
                    0u8
                },
        );
        assert forall|r: int| 0 <= r < k implies #[trigger] dot(m[r], v) == 0 by {
            let f = |c: int| gf_mul(m[r][c], v[c]);
            let at_i = |c: int|
                if c == i {
                    m[r][i]
                } else {
                    0u8
                };
            let at_r = |c: int|
                if c == r && r < i {
                    m[r][i]
                } else {
                    0u8
                };
            let both = |c: int| at_i(c) ^ at_r(c);
            assert forall|c: int| 0 <= c < k implies #[trigger] f(c) == both(c) by {
                lemma_mul_unit(m[r][c]);
                lemma_mul_unit(v[c]);
            }
            lemma_sum_eq(f, both, k);
            lemma_sum_xor(at_i, at_r, k);
            lemma_sum_single(at_i, k, i);
            if r < i {
                lemma_sum_single(at_r, k, r);
            } else {
                lemma_sum_zero(at_r, k);
            }
        }
        assert(orthogonal(m, v));
        assert(v[i] == 0);
    }
}

proof fn lemma_pivoted(m: Seq<Seq<u8>>, e: Elimination, k: nat, i: int)
    requires
        eliminating(m, e, k, i),
        0 <= i < k,
    ensures
        eliminating(m, pivoted(e, i), k, i),
        pivoted(e, i).left[i][i] != 0,
{
    lemma_pivot_exists(e.left, k, i);
    lemma_pivot_row(e.left, i, i + 1);
    let p = pivoted(e, i);
    let j = pivot_row(e.left, i, i + 1);
    if e.left[i][i] == 0 && j < k {
        lemma_swap_regular(e.left, k, i, j);
        lemma_swap_regular(e.right, k, i, j);
    }
}

proof fn lemma_normalized(m: Seq<Seq<u8>>, e: Elimination, k: nat, i: int)
    requires
        eliminating(m, e, k, i),
        0 <= i < k,
        e.left[i][i] != 0,
    ensures
        eliminating(m, normalized(e, i), k, i),
        normalized(e, i).left[i][i] == 1,
{
    let f = gf_inv(e.left[i][i]);
    let n = normalized(e, i);
    lemma_inv(e.left[i][i]);
    assert(f != 0) by {
        lemma_mul_unit(e.left[i][i]);
    }
    assert forall|r: int, c: int| 0 <= r < k && 0 <= c < k implies dot(
        #[trigger] n.right[r],
        #[trigger] matrix_column(m, c),
    ) == n.left[r][c] by {
        let w = matrix_column(m, c);
        assert(dot(e.right[r], w) == e.left[r][c]);
        if r == i {
            lemma_dot_scale(e.right[i], f, w, n.right[i]);
            lemma_mul_comm(f, e.left[i][c]);
        }
    }
    lemma_scale_regular(e.left, k, i, f);
    lemma_scale_regular(e.right, k, i, f);
    lemma_mul_unit(f);
}

proof fn lemma_cleared(m: Seq<Seq<u8>>, e: Elimination, k: nat, i: int)
    requires
        eliminating(m, e, k, i),
        0 <= i < k,
        e.left[i][i] == 1,
    ensures
        eliminating(m, cleared(e, i), k, i + 1),
{
    broadcast use lemma_xor;

    let n = cleared(e, i);
    assert forall|r: int, c: int| 0 <= r < k && 0 <= c < k implies dot(
        #[trigger] n.right[r],
        #[trigger] matrix_column(m, c),
    ) == n.left[r][c] by {
        let w = matrix_column(m, c);
        assert(dot(e.right[r], w) == e.left[r][c]);
        assert(dot(e.right[i], w) == e.left[i][c]);
        if r != i {
            lemma_dot_add(e.right[r], e.left[r][i], e.right[i], w, n.right[r]);
        }
    }
    lemma_clear_regular(e.left, e.left, k, i);
    lemma_clear_regular(e.right, e.left, k, i);
    assert forall|r: int, c: int| 0 <= r < k && 0 <= c < i + 1 implies #[trigger] n.left[r][c] == (
    if r == c {
        1u8
    } else {
        0u8
    }) by {
        lemma_mul_unit(e.left[r][i]);
        if c < i {
            assert(e.left[i][c] == 0);
            assert(e.left[r][c] == (if r == c {
                1u8
            } else {
                0u8
            }));
        }
    }
}

proof fn lemma_eliminated(m: Seq<Seq<u8>>, e: Elimination, k: nat, i: int)
    requires
        eliminating(m, e, k, i),
        0 <= i <= k,
    ensures
        eliminating(m, eliminated(e, i, k), k, k as int),
    decreases k - i,
{
    if i < k {
        lemma_pivoted(m, e, k, i);
        let p = pivoted(e, i);
        lemma_normalized(m, p, k, i);
        let n = normalized(p, i);
        lemma_cleared(m, n, k, i);
        lemma_eliminated(m, cleared(n, i), k, i + 1);
    }
}

/// Elimination inverts every regular matrix.
pub proof fn lemma_inverse_matrix(m: Seq<Seq<u8>>)
    requires
        square(m, m.len()),
        regular(m),
    ensures
        square(inverse_matrix(m), m.len()),
        regular(inverse_matrix(m)),
        forall|r: int, c: int|
            0 <= r < m.len() && 0 <= c < m.len() ==> dot(
                #[trigger] inverse_matrix(m)[r],
                #[trigger] matrix_column(m, c),
            ) == (if r == c {
                1u8
            } else {
                0u8
            }),
{
    let k = m.len();
    let e = Elimination { left: m, right: identity(k) };
    assert forall|r: int, c: int| 0 <= r < k && 0 <= c < k implies dot(
        #[trigger] e.right[r],
        #[trigger] matrix_column(m, c),
    ) == e.left[r][c] by {
        let w = matrix_column(m, c);
        let f = |s: int| gf_mul(e.right[r][s], w[s]);
        assert forall|s: int| 0 <= s < k && s != r implies #[trigger] f(s) == 0 by {
            lemma_mul_unit(w[s]);
        }
        lemma_mul_unit(w[r]);
        lemma_sum_single(f, k, r);
    }
    lemma_identity_regular(k);
    lemma_eliminated(m, e, k, 0);
    let done = eliminated(e, 0, k);
    assert forall|r: int, c: int| 0 <= r < k && 0 <= c < k implies dot(
        #[trigger] inverse_matrix(m)[r],
        #[trigger] matrix_column(m, c),
    ) == (if r == c {
        1u8
    } else {
        0u8
    }) by {
        assert(dot(done.right[r], matrix_column(m, c)) == done.left[r][c]);
    }
}

fn exchange_rows(m: &mut Vec<Gf>, k: usize, i: usize, j: usize)
    requires
        old(m)@.len() == k * k,
        i < k,
        j < k,
        i != j,
    ensures
        final(m)@.len() == k * k,
        rows(final(m)@, k as nat) == swap_rows(rows(old(m)@, k as nat), i as int, j as int),
{
    let ghost before = m@;
    let mut col: usize = 0;
    while col < k
        invariant
            col <= k,
            i < k,
            j < k,
            i != j,
            m@.len() == k * k,
            forall|r: int, c: int|
                0 <= r < k && 0 <= c < k ==> #[trigger] cell(m@, k as int, r, c) == (if c < col && r
                    == i {
                    cell(before, k as int, j as int, c)
                } else if c < col && r == j {
                    cell(before, k as int, i as int, c)
                } else {
                    cell(before, k as int, r, c)
                }),
        decreases k - col,
    {
        let a: Gf = cell_get(m, k, i, col, Ghost(k as int));
        let b: Gf = cell_get(m, k, j, col, Ghost(k as int));
        cell_set(m, k, i, col, b, Ghost(k as int));
        cell_set(m, k, j, col, a, Ghost(k as int));
        col = col + 1;
    }
    assert(rows(m@, k as nat) =~~= swap_rows(rows(before, k as nat), i as int, j as int));
}

fn multiply_row(tables: &GfTables, m: &mut Vec<Gf>, k: usize, i: usize, f: Gf)
    requires
        tables.wf(),
        old(m)@.len() == k * k,
        i < k,
    ensures
        final(m)@.len() == k * k,
        rows(final(m)@, k as nat) == scale_row(rows(old(m)@, k as nat), i as int, f),
{
    let ghost before = m@;
    let mut col: usize = 0;
    while col < k
        invariant
            col <= k,
            i < k,
            tables.wf(),
            m@.len() == k * k,
            forall|r: int, c: int|
                0 <= r < k && 0 <= c < k ==> #[trigger] cell(m@, k as int, r, c) == (if c < col && r
                    == i {
                    gf_mul(cell(before, k as int, r, c), f)
                } else {
                    cell(before, k as int, r, c)
                }),
        decreases k - col,
    {
        let v: Gf = cell_get(m, k, i, col, Ghost(k as int));
        let w: Gf = tables.gf_mul(v, f);
        cell_set(m, k, i, col, w, Ghost(k as int));
        col = col + 1;
    }
    assert(rows(m@, k as nat) =~~= scale_row(rows(before, k as nat), i as int, f));
}

/// Row `row` gains row `i` times `f`.
fn add_row(tables: &GfTables, m: &mut Vec<Gf>, k: usize, row: usize, i: usize, f: Gf)
    requires
        tables.wf(),
        old(m)@.len() == k * k,
        i < k,
        row < k,
        row != i,
    ensures
        final(m)@.len() == k * k,
        forall|r: int, c: int|
            0 <= r < k && 0 <= c < k ==> #[trigger] cell(final(m)@, k as int, r, c) == (if r == row {
                cell(old(m)@, k as int, r, c) ^ gf_mul(f, cell(old(m)@, k as int, i as int, c))
            } else {
                cell(old(m)@, k as int, r, c)
            }),
{
    let ghost before = m@;
    let mut col: usize = 0;
    while col < k
        invariant
            col <= k,
            i < k,
            row < k,
            row != i,
            tables.wf(),
            m@.len() == k * k,
            forall|r: int, c: int|
                0 <= r < k && 0 <= c < k ==> #[trigger] cell(m@, k as int, r, c) == (if c < col && r
                    == row {
                    cell(before, k as int, r, c) ^ gf_mul(f, cell(before, k as int, i as int, c))
                } else {
                    cell(before, k as int, r, c)
                }),
        decreases k - col,
    {
        let v: Gf = cell_get(m, k, row, col, Ghost(k as int));
        let p: Gf = cell_get(m, k, i, col, Ghost(k as int));
        let w: Gf = v ^ tables.gf_mul(f, p);
        cell_set(m, k, row, col, w, Ghost(k as int));
        col = col + 1;
    }
}

/// Clears column `i` of `tmp` off the diagonal, with the same row operations on `dst`.
fn clear_rows(tables: &GfTables, tmp: &mut Vec<Gf>, dst: &mut Vec<Gf>, k: usize, i: usize)
    requires
        tables.wf(),
        old(tmp)@.len() == k * k,
        old(dst)@.len() == k * k,
        i < k,
    ensures
        final(tmp)@.len() == k * k,
        final(dst)@.len() == k * k,
        rows(final(tmp)@, k as nat) == clear_column(
            rows(old(tmp)@, k as nat),
            rows(old(tmp)@, k as nat),
            i as int,
        ),
        rows(final(dst)@, k as nat) == clear_column(
            rows(old(dst)@, k as nat),
            rows(old(tmp)@, k as nat),
            i as int,
        ),
{
    let ghost t0 = tmp@;
    let ghost d0 = dst@;
    let mut row: usize = 0;
    while row < k
        invariant
            row <= k,
            i < k,
            tables.wf(),
            tmp@.len() == k * k,
            dst@.len() == k * k,
            forall|r: int, c: int|
                0 <= r < k && 0 <= c < k ==> #[trigger] cell(tmp@, k as int, r, c) == (if r < row && r
                    != i {
                    cell(t0, k as int, r, c) ^ gf_mul(
                        cell(t0, k as int, r, i as int),
                        cell(t0, k as int, i as int, c),
                    )
                } else {
                    cell(t0, k as int, r, c)
                }),
            forall|r: int, c: int|
                0 <= r < k && 0 <= c < k ==> #[trigger] cell(dst@, k as int, r, c) == (if r < row && r
                    != i {
                    cell(d0, k as int, r, c) ^ gf_mul(
                        cell(t0, k as int, r, i as int),
                        cell(d0, k as int, i as int, c),
                    )
                } else {
                    cell(d0, k as int, r, c)
                }),
        decreases k - row,
    {
        if row != i {
            let f: Gf = cell_get(tmp, k, row, i, Ghost(k as int));
            if f != 0 {
                add_row(tables, tmp, k, row, i, f);
                add_row(tables, dst, k, row, i, f);
            } else {
                proof {
                    broadcast use lemma_xor;

                    assert forall|c: int| 0 <= c < k implies cell(t0, k as int, row as int, c) ^ gf_mul(
                        f,
                        #[trigger] cell(t0, k as int, i as int, c),
                    ) == cell(t0, k as int, row as int, c) by {
                        lemma_mul_unit(cell(t0, k as int, i as int, c));
                    }
                    assert forall|c: int| 0 <= c < k implies cell(d0, k as int, row as int, c) ^ gf_mul(
                        f,
                        #[trigger] cell(d0, k as int, i as int, c),
                    ) == cell(d0, k as int, row as int, c) by {
                        lemma_mul_unit(cell(d0, k as int, i as int, c));
                    }
                }
            }
        }
        row = row + 1;
    }
    assert(rows(tmp@, k as nat) =~~= clear_column(rows(t0, k as nat), rows(t0, k as nat), i as int));
    assert(rows(dst@, k as nat) =~~= clear_column(rows(d0, k as nat), rows(t0, k as nat), i as int));
}

spec fn elimination_of(tmp: Seq<u8>, dst: Seq<u8>, k: nat) -> Elimination {
    Elimination { left: rows(tmp, k), right: rows(dst, k) }
}

/// Brings the first nonzero entry below a zero diagonal entry up to it.
fn find_pivot(tmp: &mut Vec<Gf>, dst: &mut Vec<Gf>, k: usize, i: usize)
    requires
        old(tmp)@.len() == k * k,
        old(dst)@.len() == k * k,
        i < k,
    ensures
        final(tmp)@.len() == k * k,
        final(dst)@.len() == k * k,
        elimination_of(final(tmp)@, final(dst)@, k as nat) == pivoted(
            elimination_of(old(tmp)@, old(dst)@, k as nat),
            i as int,
        ),
{
    let d: Gf = cell_get(tmp, k, i, i, Ghost(k as int));
    if d == 0 {
        let ghost left = rows(tmp@, k as nat);
        let mut j: usize = i + 1;
        while j < k
            invariant
                i < j <= k,
                tmp@ == old(tmp)@,
                dst@ == old(dst)@,
                tmp@.len() == k * k,
                dst@.len() == k * k,
                left == rows(tmp@, k as nat),
                left[i as int][i as int] == 0,
                pivot_row(left, i as int, i + 1) == pivot_row(left, i as int, j as int),
            decreases k - j,
        {
            let v: Gf = cell_get(tmp, k, j, i, Ghost(k as int));
            if v != 0 {
                exchange_rows(tmp, k, i, j);
                exchange_rows(dst, k, i, j);
                return;
            }
            j = j + 1;
        }
    }
}

/// Replaces a matrix by its inverse, as elimination finds it.
pub(crate) fn invert_mat(tables: &GfTables, src: &mut Vec<Gf>, k: usize)
    requires
        tables.wf(),
        old(src)@.len() == k * k,
    ensures
        final(src)@.len() == k * k,
        rows(final(src)@, k as nat) == inverse_matrix(rows(old(src)@, k as nat)),
{
    let cells: usize = src.len();
    let mut tmp: Vec<Gf> = vec![0u8; cells];
    let mut dst: Vec<Gf> = vec![0u8; cells];
    let mut i: usize = 0;
    while i < k
        invariant
            i <= k,
            src@.len() == k * k,
            tmp@.len() == k * k,
            dst@.len() == k * k,
            forall|r: int, c: int|
                0 <= r < i && 0 <= c < k ==> #[trigger] cell(tmp@, k as int, r, c) == cell(
                    src@,
                    k as int,
                    r,
                    c,
                ),
            forall|r: int, c: int|
                0 <= r < i && 0 <= c < k ==> #[trigger] cell(dst@, k as int, r, c) == (if r == c {
                    1u8
                } else {
                    0u8
                }),
        decreases k - i,
    {
        let mut j: usize = 0;
        while j < k
            invariant
                i < k,
                j <= k,
                src@.len() == k * k,
                tmp@.len() == k * k,
                dst@.len() == k * k,
                forall|r: int, c: int|
                    0 <= r < k && 0 <= c < k && (r < i || (r == i && c < j)) ==> #[trigger] cell(
                        tmp@,
                        k as int,
                        r,
                        c,
                    ) == cell(src@, k as int, r, c),
                forall|r: int, c: int|
                    0 <= r < k && 0 <= c < k && (r < i || (r == i && c < j)) ==> #[trigger] cell(
                        dst@,
                        k as int,
                        r,
                        c,
                    ) == (if r == c {
                        1u8
                    } else {
                        0u8
                    }),
            decreases k - j,
        {
            let v: Gf = cell_get(src, k, i, j, Ghost(k as int));
            cell_set(&mut tmp, k, i, j, v, Ghost(k as int));
            let one: Gf = if i == j {
                1
            } else {
                0
            };
            cell_set(&mut dst, k, i, j, one, Ghost(k as int));
            j = j + 1;
        }
        i = i + 1;
    }
    assert(rows(tmp@, k as nat) =~~= rows(src@, k as nat));
    assert(rows(dst@, k as nat) =~~= identity(k as nat));
    let ghost start = elimination_of(tmp@, dst@, k as nat);
    i = 0;
    while i < k
        invariant
            i <= k,
            tables.wf(),
            tmp@.len() == k * k,
            dst@.len() == k * k,
            eliminated(elimination_of(tmp@, dst@, k as nat), i as int, k as nat) == eliminated(
                start,
                0,
                k as nat,
            ),
        decreases k - i,
    {
        find_pivot(&mut tmp, &mut dst, k, i);
        let ghost e = elimination_of(tmp@, dst@, k as nat);
        let pivot: Gf = cell_get(&tmp, k, i, i, Ghost(k as int));
        if pivot != 1 {
            let inv: Gf = tables.inverse_of(pivot);
            multiply_row(tables, &mut tmp, k, i, inv);
            multiply_row(tables, &mut dst, k, i, inv);
        } else {
            proof {
                lemma_scale_by_one(e.left, k as nat, i as int);
                lemma_scale_by_one(e.right, k as nat, i as int);
                lemma_inverse_of_one();
            }
        }
        assert(elimination_of(tmp@, dst@, k as nat) == normalized(e, i as int));
        clear_rows(tables, &mut tmp, &mut dst, k, i);
        i = i + 1;
    }
    let mut t: usize = 0;
    while t < cells
        invariant
            t <= cells,
            src@.len() == cells,
            dst@.len() == cells,
            forall|s: int| 0 <= s < t ==> #[trigger] src@[s] == dst@[s],
        decreases cells - t,
    {
        src.set(t, dst[t]);
        t = t + 1;
    }
    assert(src@ =~= dst@);
}

proof fn lemma_inverse_of_one()
    ensures
        gf_inv(1) == 1,
{
    lemma_inv(1);
    lemma_mul_unit(gf_inv(1));
}

proof fn lemma_scale_by_one(m: Seq<Seq<u8>>, k: nat, i: int)
    requires
        square(m, k),
        0 <= i < k,
    ensures
        scale_row(m, i, 1) == m,
{
    assert forall|c: int| 0 <= c < k implies gf_mul(#[trigger] m[i][c], 1) == m[i][c] by {
        lemma_mul_unit(m[i][c]);
    }
    assert(scale_row(m, i, 1) =~~= m);
}

} // verus!
