use vstd::prelude::*;
use crate::model::{Expr, latex_of};
use crate::operations::{Operation, views_of};
use crate::text::push_text;
use crate::operations::push_str;

verus! {

/// A two-dimensional array of trees, held in an `ndarray::Array2`.
#[verifier::external_body]
pub struct ExprMatrix {
    cells: ndarray::Array2<Operation>,
}

/// The entries of a matrix, row by row, as models.
pub uninterp spec fn matrix_cells(m: ExprMatrix) -> Seq<Seq<Expr>>;

/// The rows of `entries` laid out `cols` to a row.
pub open spec fn row_major(rows: usize, cols: usize, entries: Seq<Operation>) -> Seq<Seq<Expr>> {
    Seq::new(rows as nat, |i: int| Seq::new(cols as nat, |j: int| entries[i * cols + j]@))
}

/// Relies on ndarray's `Array2::from_shape_vec`: a `rows` by `cols` array
/// filled row by row from `entries`; an error only when the entries are not
/// `rows * cols` in number or the shape overflows `isize`.
#[verifier::external_body]
fn array_from_entries(rows: usize, cols: usize, entries: Vec<Operation>) -> (r: Option<ExprMatrix>)
    ensures
        r matches Some(m) ==> entries@.len() == rows * cols && matrix_cells(m) == row_major(rows, cols, entries@),
        entries@.len() == rows * cols && rows <= isize::MAX && cols <= isize::MAX && rows * cols
            <= isize::MAX ==> r is Some,
{
    match ndarray::Array2::from_shape_vec((rows, cols), entries) {
        Ok(cells) => Some(ExprMatrix { cells }),
        Err(_) => None,
    }
}

/// Relies on ndarray's `ArrayBase::nrows`: the length of the first axis,
/// which is the number of rows.
#[verifier::external_body]
fn row_count(m: &ExprMatrix) -> (r: usize)
    ensures
        r == matrix_cells(*m).len(),
{
    m.cells.nrows()
}

/// Relies on ndarray's `ArrayBase::ncols`: the length of the second axis,
/// which every row has.
#[verifier::external_body]
fn column_count(m: &ExprMatrix) -> (r: usize)
    ensures
        forall|i: int| 0 <= i < matrix_cells(*m).len() ==> #[trigger] matrix_cells(*m)[i].len() == r,
{
    m.cells.ncols()
}

/// Relies on ndarray's indexing by `(row, column)`: the entry there. It
/// panics out of bounds, which the requirement rules out.
#[verifier::external_body]
fn entry(m: &ExprMatrix, i: usize, j: usize) -> (r: &Operation)
    requires
        i < matrix_cells(*m).len(),
        j < matrix_cells(*m)[i as int].len(),
    ensures
        r@ == matrix_cells(*m)[i as int][j as int],
{
    &m.cells[(i, j)]
}

pub open spec fn begin_matrix() -> Seq<char> {
    seq!['\\', 'b', 'e', 'g', 'i', 'n', '{', 'b', 'm', 'a', 't', 'r', 'i', 'x', '}']
}

pub open spec fn end_matrix() -> Seq<char> {
    seq!['\\', 'e', 'n', 'd', '{', 'b', 'm', 'a', 't', 'r', 'i', 'x', '}']
}

pub open spec fn column_sep() -> Seq<char> {
    seq![' ', '&', ' ']
}

pub open spec fn row_end() -> Seq<char> {
    seq!['\\', '\\']
}

/// The LaTeX of the first `n` entries of a row, ` & ` between two of them.
pub open spec fn row_latex(row: Seq<Expr>, n: int) -> Seq<char>
    decreases n,
{
    if n <= 0 || n > row.len() {
        seq![]
    } else {
        row_latex(row, n - 1) + latex_of(row[n - 1]) + (if n < row.len() { column_sep() } else { seq![] })
    }
}

/// The LaTeX of the first `n` rows, each ended by `\\\\`.
pub open spec fn rows_latex(rows: Seq<Seq<Expr>>, n: int) -> Seq<char>
    decreases n,
{
    if n <= 0 || n > rows.len() {
        seq![]
    } else {
        rows_latex(rows, n - 1) + row_latex(rows[n - 1], rows[n - 1].len() as int) + row_end()
    }
}

/// A LaTeX `bmatrix` of the entries.
pub open spec fn matrix_latex(rows: Seq<Seq<Expr>>) -> Seq<char> {
    begin_matrix() + rows_latex(rows, rows.len() as int) + end_matrix()
}

proof fn lemma_slot(k: int, jj: int, i: int, cols: int)
    requires
        0 <= k < i,
        0 <= jj < cols,
    ensures
        0 <= k * cols + jj < i * cols,
{
    assert(0 <= k * cols + jj < i * cols) by (nonlinear_arith)
        requires
            0 <= k < i,
            0 <= jj < cols,
    ;
}

impl ExprMatrix {
    /// A matrix of the given rows; `None` when they are not all of one
    /// length, or when the shape overflows `isize`.
    pub fn from_rows(rows: Vec<Vec<Operation>>) -> (r: Option<ExprMatrix>)
        ensures
            ({
                let c = if rows@.len() > 0 { rows@[0]@.len() } else { 0 };
                (forall|i: int| 0 <= i < rows@.len() ==> #[trigger] rows@[i]@.len() == c) && rows@.len()
                    <= isize::MAX && c <= isize::MAX && rows@.len() * c <= isize::MAX ==> r is Some
            }),
            r matches Some(m) ==> matrix_cells(m) == Seq::new(rows@.len(), |i: int| views_of(rows@[i]@)),
            r is Some ==> forall|i: int| 0 <= i < rows@.len() ==> #[trigger] rows@[i]@.len() == (if rows@.len() > 0 { rows@[0]@.len() } else { 0 }),
    {
        let n = rows.len();
        let cols: usize = if n > 0 { rows[0].len() } else { 0 };
        let mut entries: Vec<Operation> = Vec::new();
        let mut i: usize = 0;
        while i < n
            invariant
                n == rows@.len(),
                i <= n,
                n > 0 ==> cols == rows@[0]@.len(),
                forall|k: int| 0 <= k < i ==> #[trigger] rows@[k]@.len() == cols,
                entries@.len() == i * cols,
                forall|k: int, j: int| 0 <= k < i && 0 <= j < cols ==> #[trigger] entries@[k * cols + j]@
                    == rows@[k]@[j]@,
            decreases n - i,
        {
            if rows[i].len() != cols {
                return None;
            }
            let mut j: usize = 0;
            while j < cols
                invariant
                    n == rows@.len(),
                    i < n,
                    rows@[i as int]@.len() == cols,
                    j <= cols,
                    entries@.len() == i * cols + j,
                    forall|k: int, jj: int| 0 <= k < i && 0 <= jj < cols ==> #[trigger] entries@[k * cols + jj]@
                        == rows@[k]@[jj]@,
                    forall|jj: int| 0 <= jj < j ==> #[trigger] entries@[i * cols + jj]@ == rows@[i as int]@[jj]@,
                decreases cols - j,
            {
                let ghost before = entries@;
                entries.push(rows[i][j].duplicate());
                proof {
                    assert forall|k: int, jj: int| 0 <= k < i && 0 <= jj < cols implies #[trigger] entries@[k
                        * cols + jj]@ == rows@[k]@[jj]@ by {
                        lemma_slot(k, jj, i as int, cols as int);
                        assert(entries@[k * cols + jj] == before[k * cols + jj]);
                    }
                }
                j = j + 1;
            }
            proof {
                assert forall|k: int, jj: int| 0 <= k < i + 1 && 0 <= jj < cols implies #[trigger] entries@[k * cols + jj]@
                    == rows@[k]@[jj]@ by {
                    if k == i {
                    }
                }
                assert(entries@.len() == (i + 1) * cols) by (nonlinear_arith)
                    requires
                        entries@.len() == i * cols + cols,
                ;
            }
            i = i + 1;
        }
        let m = array_from_entries(n, cols, entries);
        match m {
            Some(x) => {
                proof {
                    let goal = Seq::new(rows@.len(), |i: int| views_of(rows@[i]@));
                    assert forall|k: int| 0 <= k < n implies #[trigger] matrix_cells(x)[k] =~= goal[k] by {
                        assert forall|jj: int| 0 <= jj < cols implies matrix_cells(x)[k][jj] == goal[k][jj] by {
                            lemma_slot(k, jj, n as int, cols as int);
                            assert(entries@[k * cols + jj]@ == rows@[k]@[jj]@);
                        }
                    }
                    assert(matrix_cells(x) =~= goal);
                }
                Some(x)
            },
            None => None,
        }
    }
}

/// A LaTeX `bmatrix` of the entries: each row's entries in LaTeX, ` & `
/// between two of them, and every row ended by `\\\\`.
pub fn matrix_to_latex(matrix: ExprMatrix) -> (r: String)
    ensures
        r@ == matrix_latex(matrix_cells(matrix)),
{
    let ghost cells = matrix_cells(matrix);
    let mut out = String::new();
    proof {
        reveal_strlit("\\begin{bmatrix}");
        reveal_strlit("\\end{bmatrix}");
        reveal_strlit(" & ");
        reveal_strlit("\\\\");
    }
    push_str(&mut out, "\\begin{bmatrix}");
    assert("\\begin{bmatrix}"@ =~= begin_matrix());
    assert(" & "@ =~= column_sep());
    assert("\\\\"@ =~= row_end());
    assert("\\end{bmatrix}"@ =~= end_matrix());
    let n = row_count(&matrix);
    let c = column_count(&matrix);
    let mut i: usize = 0;
    while i < n
        invariant
            n == cells.len(),
            cells == matrix_cells(matrix),
            forall|k: int| 0 <= k < cells.len() ==> #[trigger] cells[k].len() == c,
            i <= n,
            out@ == begin_matrix() + rows_latex(cells, i as int),
            " & "@ == column_sep(),
            "\\\\"@ == row_end(),
        decreases n - i,
    {
        assert(cells[i as int].len() == c);
        let ghost before = out@;
        let mut j: usize = 0;
        while j < c
            invariant
                i < n,
                n == cells.len(),
                cells == matrix_cells(matrix),
                cells[i as int].len() == c,
                j <= c,
                out@ == before + row_latex(cells[i as int], j as int),
                " & "@ == column_sep(),
            decreases c - j,
        {
            let x = entry(&matrix, i, j);
            let t = x.latex_string();
            push_text(&mut out, &t);
            if j != c - 1 {
                push_str(&mut out, " & ");
            }
            j = j + 1;
            assert(out@ =~= before + row_latex(cells[i as int], j as int));
        }
        push_str(&mut out, "\\\\");
        i = i + 1;
        assert(out@ =~= begin_matrix() + rows_latex(cells, i as int));
    }
    push_str(&mut out, "\\end{bmatrix}");
    out
}

} // verus!
