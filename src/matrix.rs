use crate::error::MathError;
use crate::vector::{
    dot, dot_fits, dot_product, dot_upto, fits_i64, lemma_prefix_fits_shorter, prefix_fits, term,
    Vector,
};
use crate::text::{decimal, decimal_text};
use vstd::prelude::*;
use vstd::string::StringExecFns;

verus! {

/// The mathematical content of a matrix: its shape and its row-major cells.
pub ghost struct MatrixModel {
    pub rows: nat,
    pub cols: nat,
    pub data: Seq<i64>,
}

impl MatrixModel {
    /// The buffer holds exactly one cell per row and column.
    pub open spec fn wf(self) -> bool {
        self.data.len() == self.rows * self.cols
    }

    /// The cell at row `i`, column `j`.
    pub open spec fn cell(self, i: int, j: int) -> i64 {
        self.data[i * self.cols + j]
    }

    /// Row `i` as a sequence of `cols` cells.
    pub open spec fn row(self, i: int) -> Seq<i64> {
        Seq::new(self.cols, |t: int| self.cell(i, t))
    }

    /// Column `j` as a sequence of `rows` cells.
    pub open spec fn col(self, j: int) -> Seq<i64> {
        Seq::new(self.rows, |t: int| self.cell(t, j))
    }
}

/// The textbook sum `a[i][0]*b[0][j] + ... + a[i][k-1]*b[k-1][j]`.
pub open spec fn cell_sum(a: MatrixModel, b: MatrixModel, i: int, j: int, k: int) -> int
    decreases k,
{
    if k <= 0 {
        0
    } else {
        cell_sum(a, b, i, j, k - 1) + a.cell(i, k - 1) * b.cell(k - 1, j)
    }
}

/// The cell `(i, j)` of the product of `a` and `b`.
pub open spec fn product_cell(a: MatrixModel, b: MatrixModel, i: int, j: int) -> int {
    cell_sum(a, b, i, j, a.cols as int)
}

/// Each cell of the product of `a` and `b` can be computed in `i64` without
/// overflow, in the order of the dot product.
pub open spec fn product_fits(a: MatrixModel, b: MatrixModel) -> bool {
    forall|i: int, j: int|
        0 <= i < a.rows && 0 <= j < b.cols ==> #[trigger] dot_fits(a.row(i), b.col(j))
}

/// A dense matrix stored row by row in a flat buffer.
#[derive(Debug)]
pub struct Matrix {
    data: Vec<i64>,
    rows: usize,
    cols: usize,
}

impl View for Matrix {
    type V = MatrixModel;

    closed spec fn view(&self) -> MatrixModel {
        MatrixModel { rows: self.rows as nat, cols: self.cols as nat, data: self.data@ }
    }
}

/// Offset `i * cols + j` of a cell inside a `rows` by `cols` buffer.
pub proof fn lemma_offset_in_bounds(rows: int, cols: int, i: int, j: int)
    requires
        0 <= i < rows,
        0 <= j < cols,
    ensures
        0 <= i * cols + j < rows * cols,
{
    assert(i * cols + j < rows * cols) by (nonlinear_arith)
        requires
            0 <= i < rows,
            0 <= j < cols,
    ;
    assert(0 <= i * cols) by (nonlinear_arith)
        requires
            0 <= i,
            0 <= j < cols,
    ;
}

impl Matrix {
    /// A `rows` by `cols` matrix whose cells are all zero.
    pub fn new(rows: usize, cols: usize) -> (r: Matrix)
        requires
            rows * cols <= usize::MAX,
        ensures
            r@.wf(),
            r@.rows == rows,
            r@.cols == cols,
            forall|k: int| 0 <= k < r@.data.len() ==> r@.data[k] == 0,
    {
        let n: usize = rows * cols;
        let mut data: Vec<i64> = Vec::new();
        while data.len() < n
            invariant
                data@.len() <= n,
                forall|k: int| 0 <= k < data@.len() ==> data@[k] == 0,
            decreases n - data@.len(),
        {
            data.push(0);
        }
        Matrix { data, rows, cols }
    }

    pub fn rows(&self) -> (r: usize)
        ensures
            r == self@.rows,
    {
        self.rows
    }

    pub fn cols(&self) -> (r: usize)
        ensures
            r == self@.cols,
    {
        self.cols
    }

    /// The row-major buffer.
    pub fn data(&self) -> (r: &Vec<i64>)
        ensures
            r@ == self@.data,
    {
        &self.data
    }

    /// The cell at row `i`, column `j`.
    pub fn get(&self, i: usize, j: usize) -> (r: i64)
        requires
            self@.wf(),
            i < self@.rows,
            j < self@.cols,
        ensures
            r == self@.cell(i as int, j as int),
    {
        let len: usize = self.data.len();
        proof {
            lemma_offset_in_bounds(self.rows as int, self.cols as int, i as int, j as int);
            assert(self.data@.len() == self.rows * self.cols);
        }
        self.data[i * self.cols + j]
    }

    /// Writes `val` into the cell at row `i`, column `j`.
    pub fn set(&mut self, i: usize, j: usize, val: i64)
        requires
            old(self)@.wf(),
            i < old(self)@.rows,
            j < old(self)@.cols,
        ensures
            final(self)@.rows == old(self)@.rows,
            final(self)@.cols == old(self)@.cols,
            final(self)@.data == old(self)@.data.update(i * old(self)@.cols + j, val),
    {
        let len: usize = self.data.len();
        proof {
            lemma_offset_in_bounds(self.rows as int, self.cols as int, i as int, j as int);
            assert(self.data@.len() == self.rows * self.cols);
        }
        self.data.set(i * self.cols + j, val);
    }

    /// The same shape with `data` as its row-major buffer.
    pub fn with_data(self, data: Vec<i64>) -> (r: Matrix)
        requires
            data@.len() == self@.rows * self@.cols,
        ensures
            r@.wf(),
            r@.rows == self@.rows,
            r@.cols == self@.cols,
            r@.data == data@,
    {
        Matrix { data, rows: self.rows, cols: self.cols }
    }
}

/// The dot product of row `i` of `a` and column `j` of `b`, taken over the
/// first `k` terms, is the textbook sum over those terms.
pub proof fn lemma_dot_is_cell_sum(a: MatrixModel, b: MatrixModel, i: int, j: int, k: int)
    requires
        0 <= k <= a.cols,
        a.cols == b.rows,
    ensures
        dot_upto(a.row(i), b.col(j), k) == cell_sum(a, b, i, j, k),
    decreases k,
{
    reveal(term);
    if k > 0 {
        lemma_dot_is_cell_sum(a, b, i, j, k - 1);
    }
}

/// One unit of work: the destination cell's linear index with owned copies of
/// the row and column whose dot product fills it.
pub struct MsgInput {
    pub idx: usize,
    pub row: Vector,
    pub col: Vector,
}

impl MsgInput {
    pub fn new(idx: usize, row: Vector, col: Vector) -> (r: MsgInput)
        ensures
            r == (MsgInput { idx, row, col }),
    {
        MsgInput { idx, row, col }
    }
}

/// The reply to one unit of work: the destination index it carries and the
/// value computed for it.
#[derive(Debug, Clone, Copy, PartialEq, Eq, Structural)]
pub struct MsgOutput {
    pub idx: usize,
    pub val: i64,
}

/// The worker that receives the unit of work with destination `idx`, among
/// `workers` workers.
pub fn worker_for(idx: usize, workers: usize) -> (r: usize)
    requires
        workers > 0,
    ensures
        r == idx % workers,
        r < workers,
{
    idx % workers
}

/// The unit of work for output cell `(i, j)` of the product of `a` and `b`.
pub fn work_item(a: &Matrix, b: &Matrix, i: usize, j: usize) -> (r: MsgInput)
    requires
        a@.wf(),
        b@.wf(),
        i < a@.rows,
        j < b@.cols,
        a@.rows * b@.cols <= usize::MAX,
    ensures
        r.idx == i * b@.cols + j,
        r.row@ == a@.row(i as int),
        r.col@ == b@.col(j as int),
{
    let mut row: Vec<i64> = Vec::new();
    let mut t: usize = 0;
    while t < a.cols()
        invariant
            a@.wf(),
            i < a@.rows,
            t <= a@.cols,
            row@ == a@.row(i as int).subrange(0, t as int),
        decreases a@.cols - t,
    {
        row.push(a.get(i, t));
        t = t + 1;
        assert(row@ =~= a@.row(i as int).subrange(0, t as int));
    }
    assert(row@ =~= a@.row(i as int));
    let mut col: Vec<i64> = Vec::new();
    let mut t: usize = 0;
    while t < b.rows()
        invariant
            b@.wf(),
            j < b@.cols,
            t <= b@.rows,
            col@ == b@.col(j as int).subrange(0, t as int),
        decreases b@.rows - t,
    {
        col.push(b.get(t, j));
        t = t + 1;
        assert(col@ =~= b@.col(j as int).subrange(0, t as int));
    }
    assert(col@ =~= b@.col(j as int));
    proof {
        lemma_offset_in_bounds(a@.rows as int, b@.cols as int, i as int, j as int);
    }
    MsgInput::new(i * b.cols() + j, Vector::from(row), Vector::from(col))
}

/// What a worker does with one unit of work: the dot product of its row and
/// column, tagged with its destination index.
pub fn process(item: MsgInput) -> (r: MsgOutput)
    requires
        item.row@.len() == item.col@.len(),
        dot_fits(item.row@, item.col@),
    ensures
        r.idx == item.idx,
        r.val == dot(item.row@, item.col@),
{
    let idx = item.idx;
    match dot_product(item.row, item.col) {
        Ok(val) => MsgOutput { idx, val },
        // The lengths agree, so the dot product cannot fail here.
        Err(_) => MsgOutput { idx, val: 0 },
    }
}

/// The buffer `init` after writing each reply's value at its index, in the
/// order of `replies`.
pub open spec fn scatter(init: Seq<i64>, replies: Seq<MsgOutput>) -> Seq<i64>
    decreases replies.len(),
{
    if replies.len() == 0 {
        init
    } else {
        let last = replies.last();
        scatter(init, replies.drop_last()).update(last.idx as int, last.val)
    }
}

/// No two replies carry the same destination index.
pub open spec fn distinct_indices(replies: Seq<MsgOutput>) -> bool {
    forall|s: int, t: int|
        0 <= s < replies.len() && 0 <= t < replies.len() && s != t ==> #[trigger] replies[s].idx
            != #[trigger] replies[t].idx
}

/// Every reply's destination lies inside a buffer of length `n`.
pub open spec fn indices_below(replies: Seq<MsgOutput>, n: nat) -> bool {
    forall|t: int| 0 <= t < replies.len() ==> #[trigger] replies[t].idx < n
}

/// A `rows * cols` buffer of zeros.
pub open spec fn zeros(n: nat) -> Seq<i64> {
    Seq::new(n, |k: int| 0i64)
}

/// Scattering keeps the buffer's length; a cell that no reply names keeps its
/// value, and a cell named by a reply holds the value of the last reply that
/// names it.
pub proof fn lemma_scatter_cells(init: Seq<i64>, replies: Seq<MsgOutput>)
    requires
        indices_below(replies, init.len()),
    ensures
        scatter(init, replies).len() == init.len(),
        forall|k: int|
            0 <= k < init.len() && (forall|t: int| 0 <= t < replies.len() ==> replies[t].idx != k)
                ==> #[trigger] scatter(init, replies)[k] == init[k],
        distinct_indices(replies) ==> forall|t: int|
            0 <= t < replies.len() ==> scatter(init, replies)[#[trigger] replies[t].idx as int]
                == replies[t].val,
    decreases replies.len(),
{
    if replies.len() > 0 {
        let rest = replies.drop_last();
        assert(indices_below(rest, init.len())) by {
            assert forall|t: int| 0 <= t < rest.len() implies #[trigger] rest[t].idx < init.len() by {
                assert(rest[t] == replies[t]);
            }
        }
        lemma_scatter_cells(init, rest);
        assert forall|k: int|
            0 <= k < init.len() && (forall|t: int|
                0 <= t < replies.len() ==> replies[t].idx != k) implies #[trigger] scatter(
            init,
            replies,
        )[k] == init[k] by {
            assert forall|t: int| 0 <= t < rest.len() implies rest[t].idx != k by {
                assert(rest[t] == replies[t]);
            }
            assert(replies[replies.len() - 1].idx != k);
        }
        if distinct_indices(replies) {
            assert(distinct_indices(rest)) by {
                assert forall|s: int, t: int|
                    0 <= s < rest.len() && 0 <= t < rest.len() && s != t implies #[trigger] rest[s].idx
                    != #[trigger] rest[t].idx by {
                    assert(rest[s] == replies[s]);
                    assert(rest[t] == replies[t]);
                }
            }
            assert forall|t: int| 0 <= t < replies.len() implies scatter(
                init,
                replies,
            )[#[trigger] replies[t].idx as int] == replies[t].val by {
                if t < replies.len() - 1 {
                    assert(rest[t] == replies[t]);
                    assert(replies[t].idx != replies[replies.len() - 1].idx);
                }
            }
        }
    }
}

/// A `rows` by `cols` matrix assembled from replies: each reply's value is
/// written at the cell its destination index names, all other cells stay zero.
pub fn assemble(rows: usize, cols: usize, replies: &Vec<MsgOutput>) -> (r: Matrix)
    requires
        rows * cols <= usize::MAX,
        indices_below(replies@, (rows * cols) as nat),
    ensures
        r@.wf(),
        r@.rows == rows,
        r@.cols == cols,
        r@.data == scatter(zeros((rows * cols) as nat), replies@),
{
    let mut result = Matrix::new(rows, cols);
    assert(result@.data =~= zeros((rows * cols) as nat));
    let mut t: usize = 0;
    while t < replies.len()
        invariant
            rows * cols <= usize::MAX,
            indices_below(replies@, (rows * cols) as nat),
            t <= replies@.len(),
            result@.wf(),
            result@.rows == rows,
            result@.cols == cols,
            result@.data == scatter(zeros((rows * cols) as nat), replies@.subrange(0, t as int)),
        decreases replies@.len() - t,
    {
        let reply = replies[t];
        assert(cols > 0) by (nonlinear_arith)
            requires
                reply.idx < rows * cols,
        ;
        let i: usize = reply.idx / cols;
        let j: usize = reply.idx % cols;
        proof {
            vstd::arithmetic::div_mod::lemma_fundamental_div_mod(reply.idx as int, cols as int);
            assert(i < rows) by (nonlinear_arith)
                requires
                    reply.idx < rows * cols,
                    reply.idx == cols * i + j,
                    0 <= j < cols,
            ;
        }
        result.set(i, j, reply.val);
        proof {
            let pre = replies@.subrange(0, t as int);
            let post = replies@.subrange(0, t + 1);
            assert(post.drop_last() =~= pre);
            assert(post.last() == reply);
            assert(i * cols + j == reply.idx) by (nonlinear_arith)
                requires
                    reply.idx == cols * i + j,
            ;
        }
        t = t + 1;
    }
    assert(replies@.subrange(0, replies@.len() as int) =~= replies@);
    result
}

/// `items` holds one unit of work per output cell of the product of `a` and
/// `b`, in row-major order: the `k`-th names destination `k` and carries row
/// `k / b.cols` of `a` and column `k % b.cols` of `b`.
pub open spec fn is_plan(a: MatrixModel, b: MatrixModel, items: Seq<MsgInput>) -> bool {
    &&& items.len() == a.rows * b.cols
    &&& forall|k: int|
        0 <= k < items.len() ==> (#[trigger] items[k]).idx == k && items[k].row@ == a.row(
            k / b.cols as int,
        ) && items[k].col@ == b.col(k % b.cols as int)
}

/// The units of work for every output cell of the product of `a` and `b`, in
/// row-major order; fails before building any when the inner dimensions differ.
pub fn dispatch_plan(a: &Matrix, b: &Matrix) -> (r: Result<Vec<MsgInput>, MathError>)
    requires
        a@.wf(),
        b@.wf(),
        a@.rows * b@.cols <= usize::MAX,
    ensures
        match r {
            Ok(items) => a@.cols == b@.rows && is_plan(a@, b@, items@),
            Err(e) => a@.cols != b@.rows && e == MathError::DimensionMismatch,
        },
{
    if a.cols() != b.rows() {
        return Err(MathError::DimensionMismatch);
    }
    let rows = a.rows();
    let cols = b.cols();
    let mut items: Vec<MsgInput> = Vec::new();
    let mut i: usize = 0;
    while i < rows
        invariant
            a@.wf(),
            b@.wf(),
            rows == a@.rows,
            cols == b@.cols,
            rows * cols <= usize::MAX,
            i <= rows,
            items@.len() == i * cols,
            forall|k: int|
                0 <= k < items@.len() ==> (#[trigger] items@[k]).idx == k && items@[k].row@
                    == a@.row(k / cols as int) && items@[k].col@ == b@.col(k % cols as int),
        decreases rows - i,
    {
        let mut j: usize = 0;
        while j < cols
            invariant
                a@.wf(),
                b@.wf(),
                rows == a@.rows,
                cols == b@.cols,
                rows * cols <= usize::MAX,
                i < rows,
                j <= cols,
                items@.len() == i * cols + j,
                forall|k: int|
                    0 <= k < items@.len() ==> (#[trigger] items@[k]).idx == k && items@[k].row@
                        == a@.row(k / cols as int) && items@[k].col@ == b@.col(k % cols as int),
            decreases cols - j,
        {
            let item = work_item(a, b, i, j);
            proof {
                vstd::arithmetic::div_mod::lemma_fundamental_div_mod_converse(
                    i * cols + j,
                    cols as int,
                    i as int,
                    j as int,
                );
            }
            items.push(item);
            j = j + 1;
        }
        assert((i + 1) * cols == i * cols + cols) by (nonlinear_arith);
        i = i + 1;
    }
    Ok(items)
}

/// The product of `a` and `b`: each output cell is computed as the dot
/// product of a row of `a` and a column of `b`, and the replies, which arrive
/// in reverse dispatch order, are scattered into place by the index they carry.
/// Fails when `a.cols != b.rows`, before any work is built.
pub fn multiply(a: &Matrix, b: &Matrix) -> (r: Result<Matrix, MathError>)
    requires
        a@.wf(),
        b@.wf(),
        a@.rows * b@.cols <= usize::MAX,
        a@.cols == b@.rows ==> product_fits(a@, b@),
    ensures
        match r {
            Ok(c) => {
                &&& a@.cols == b@.rows
                &&& c@.wf()
                &&& c@.rows == a@.rows
                &&& c@.cols == b@.cols
                &&& forall|i: int, j: int|
                    0 <= i < c@.rows && 0 <= j < c@.cols ==> c@.cell(i, j) == product_cell(
                        a@,
                        b@,
                        i,
                        j,
                    )
            },
            Err(e) => a@.cols != b@.rows && e == MathError::DimensionMismatch,
        },
{
    let mut plan = match dispatch_plan(a, b) {
        Ok(items) => items,
        Err(e) => return Err(e),
    };
    let ghost full = plan@;
    let cols = b.cols();
    let mut replies: Vec<MsgOutput> = Vec::new();
    while plan.len() > 0
        invariant
            a@.wf(),
            b@.wf(),
            a@.cols == b@.rows,
            cols == b@.cols,
            product_fits(a@, b@),
            is_plan(a@, b@, full),
            plan@ == full.subrange(0, plan@.len() as int),
            replies@.len() + plan@.len() == full.len(),
            forall|t: int|
                0 <= t < replies@.len() ==> (#[trigger] replies@[t]).idx == full.len() - 1 - t
                    && replies@[t].val == dot(
                    full[full.len() - 1 - t].row@,
                    full[full.len() - 1 - t].col@,
                ),
        decreases plan@.len(),
    {
        let ghost k = plan@.len() - 1;
        let item = match plan.pop() {
            Some(item) => item,
            // The loop condition leaves at least one item to take.
            None => return Err(MathError::DimensionMismatch),
        };
        proof {
            assert(full[k] == item);
            assert(plan@ =~= full.subrange(0, plan@.len() as int));
            vstd::arithmetic::div_mod::lemma_fundamental_div_mod(k, cols as int);
            let i = k / cols as int;
            let j = k % cols as int;
            assert(0 <= j < cols) by {
                vstd::arithmetic::div_mod::lemma_mod_bound(k, cols as int);
            }
            assert(0 <= i < a@.rows) by (nonlinear_arith)
                requires
                    0 <= k < a@.rows * cols,
                    k == cols * i + j,
                    0 <= j < cols,
            ;
            assert(dot_fits(a@.row(i), b@.col(j)));
        }
        let reply = process(item);
        replies.push(reply);
    }
    let c = assemble(a.rows(), cols, &replies);
    proof {
        let n = full.len() as int;
        assert(distinct_indices(replies@));
        assert(indices_below(replies@, n as nat));
        lemma_scatter_cells(zeros(n as nat), replies@);
        assert forall|i: int, j: int|
            0 <= i < c@.rows && 0 <= j < c@.cols implies c@.cell(i, j) == product_cell(
            a@,
            b@,
            i,
            j,
        ) by {
            lemma_offset_in_bounds(c@.rows as int, c@.cols as int, i, j);
            let k = i * cols + j;
            let t = n - 1 - k;
            assert(replies@[t].idx == k);
            vstd::arithmetic::div_mod::lemma_fundamental_div_mod_converse(k, cols as int, i, j);
            lemma_dot_is_cell_sum(a@, b@, i, j, a@.cols as int);
        }
    }
    Ok(c)
}

/// The first `n` cells of row `i`, space-separated.
pub open spec fn row_text(m: MatrixModel, i: int, n: int) -> Seq<char>
    decreases n,
{
    if n <= 0 {
        Seq::empty()
    } else if n == 1 {
        decimal(m.cell(i, 0) as int)
    } else {
        row_text(m, i, n - 1) + seq![' '] + decimal(m.cell(i, n - 1) as int)
    }
}

/// The first `n` rows, separated by a comma and a space.
pub open spec fn rows_text(m: MatrixModel, n: int) -> Seq<char>
    decreases n,
{
    if n <= 0 {
        Seq::empty()
    } else if n == 1 {
        row_text(m, 0, m.cols as int)
    } else {
        rows_text(m, n - 1) + seq![',', ' '] + row_text(m, n - 1, m.cols as int)
    }
}

/// The matrix written as `{r0c0 r0c1 ..., r1c0 r1c1 ...}`.
pub open spec fn display_text(m: MatrixModel) -> Seq<char> {
    seq!['{'] + rows_text(m, m.rows as int) + seq!['}']
}

impl Matrix {
    /// The matrix as text: rows separated by `", "`, cells within a row by a
    /// space, the whole wrapped in braces.
    pub fn to_string(&self) -> (r: String)
        requires
            self@.wf(),
        ensures
            r@ == display_text(self@),
    {
        proof {
            reveal_strlit("{");
            reveal_strlit("}");
            reveal_strlit(", ");
            reveal_strlit(" ");
        }
        let mut s = String::new();
        s.append("{");
        let mut i: usize = 0;
        while i < self.rows
            invariant
                self@.wf(),
                i <= self@.rows,
                s@ == seq!['{'] + rows_text(self@, i as int),
            decreases self@.rows - i,
        {
            proof {
                reveal_strlit(", ");
            }
            if i > 0 {
                s.append(", ");
            }
            let ghost head = s@;
            let mut j: usize = 0;
            while j < self.cols
                invariant
                    self@.wf(),
                    i < self@.rows,
                    j <= self@.cols,
                    s@ == head + row_text(self@, i as int, j as int),
                decreases self@.cols - j,
            {
                proof {
                    reveal_strlit(" ");
                }
                if j > 0 {
                    s.append(" ");
                }
                let d = decimal_text(self.get(i, j));
                s.append(d.as_str());
                j = j + 1;
                assert(s@ =~= head + row_text(self@, i as int, j as int));
            }
            i = i + 1;
            assert(s@ =~= seq!['{'] + rows_text(self@, i as int));
        }
        s.append("}");
        s
    }
}

/// A cell named by some reply ends up holding the value of a reply that names it.
pub proof fn lemma_scatter_named(init: Seq<i64>, replies: Seq<MsgOutput>, k: int)
    requires
        indices_below(replies, init.len()),
        0 <= k < init.len(),
        exists|t: int| 0 <= t < replies.len() && (#[trigger] replies[t]).idx == k,
    ensures
        exists|t: int|
            0 <= t < replies.len() && (#[trigger] replies[t]).idx == k && scatter(init, replies)[k]
                == replies[t].val,
    decreases replies.len(),
{
    let n = replies.len() - 1;
    let rest = replies.drop_last();
    assert(indices_below(rest, init.len())) by {
        assert forall|t: int| 0 <= t < rest.len() implies #[trigger] rest[t].idx < init.len() by {
            assert(rest[t] == replies[t]);
        }
    }
    lemma_scatter_cells(init, rest);
    if replies[n].idx == k {
        assert(scatter(init, replies)[k] == replies[n].val);
    } else {
        let t0 = choose|t: int| 0 <= t < replies.len() && (#[trigger] replies[t]).idx == k;
        assert(t0 < n);
        assert(rest[t0] == replies[t0]);
        lemma_scatter_named(init, rest, k);
        let t = choose|t: int|
            0 <= t < rest.len() && (#[trigger] rest[t]).idx == k && scatter(init, rest)[k]
                == rest[t].val;
        assert(rest[t] == replies[t]);
        assert(scatter(init, replies)[k] == scatter(init, rest)[k]);
    }
}

/// Assembly is a pure scatter by the index each reply carries: when no two
/// replies name the same cell, the assembled buffer does not depend on the
/// order in which the replies arrive.
pub proof fn lemma_assembly_order_independent(
    init: Seq<i64>,
    first: Seq<MsgOutput>,
    second: Seq<MsgOutput>,
)
    requires
        indices_below(first, init.len()),
        distinct_indices(first),
        forall|x: MsgOutput| first.contains(x) <==> second.contains(x),
    ensures
        scatter(init, first) == scatter(init, second),
{
    assert(indices_below(second, init.len())) by {
        assert forall|t: int| 0 <= t < second.len() implies #[trigger] second[t].idx < init.len() by {
            assert(second.contains(second[t]));
        }
    }
    lemma_scatter_cells(init, first);
    lemma_scatter_cells(init, second);
    assert forall|k: int| 0 <= k < init.len() implies scatter(init, first)[k] == scatter(
        init,
        second,
    )[k] by {
        if exists|t: int| 0 <= t < first.len() && (#[trigger] first[t]).idx == k {
            let t = choose|t: int| 0 <= t < first.len() && (#[trigger] first[t]).idx == k;
            assert(second.contains(first[t]));
            let u = choose|u: int| 0 <= u < second.len() && second[u] == first[t];
            assert(second[u].idx == k);
            lemma_scatter_named(init, second, k);
            let v = choose|v: int|
                0 <= v < second.len() && (#[trigger] second[v]).idx == k && scatter(init, second)[k]
                    == second[v].val;
            assert(first.contains(second[v]));
            let w = choose|w: int| 0 <= w < first.len() && first[w] == second[v];
            assert(w == t);
        } else {
            assert forall|u: int| 0 <= u < second.len() implies second[u].idx != k by {
                assert(first.contains(second[u]));
            }
        }
    }
    assert(scatter(init, first) =~= scatter(init, second));
}

/// The replies gathered worker by worker, workers `0` to `w - 1`, when each
/// of `n` workers takes, in dispatch order, the units whose destination index
/// is congruent to it modulo `n`.
pub open spec fn worker_order(replies: Seq<MsgOutput>, n: int, w: int) -> Seq<MsgOutput>
    decreases w,
{
    if w <= 0 {
        Seq::empty()
    } else {
        worker_order(replies, n, w - 1) + replies.filter(|r: MsgOutput| (r.idx as int) % n == w - 1)
    }
}

/// Gathering worker by worker keeps exactly the replies of the first `w`
/// workers.
pub proof fn lemma_worker_order_contents(replies: Seq<MsgOutput>, n: int, w: int)
    requires
        n > 0,
        0 <= w <= n,
    ensures
        forall|x: MsgOutput|
            #[trigger] worker_order(replies, n, w).contains(x) <==> replies.contains(x) && (x.idx as int)
                % n < w,
    decreases w,
{
    broadcast use vstd::seq_lib::group_filter_ensures;
    broadcast use vstd::seq_lib::lemma_seq_concat_contains_all_elements;

    if w > 0 {
        lemma_worker_order_contents(replies, n, w - 1);
        let pred = |r: MsgOutput| (r.idx as int) % n == w - 1;
        let prev = worker_order(replies, n, w - 1);
        assert(worker_order(replies, n, w) == prev + replies.filter(pred));
        assert forall|x: MsgOutput|
            #[trigger] worker_order(replies, n, w).contains(x) <==> replies.contains(x) && (x.idx as int)
                % n < w by {
            assert((prev + replies.filter(pred)).contains(x) <==> prev.contains(x) || replies.filter(
                pred,
            ).contains(x));
            if replies.filter(pred).contains(x) {
                replies.lemma_filter_contains_rev(pred, x);
                let i = choose|i: int| 0 <= i < replies.filter(pred).len() && replies.filter(pred)[i] == x;
                assert(pred(replies.filter(pred)[i]));
            }
            if replies.contains(x) && (x.idx as int) % n == w - 1 {
                let i = choose|i: int| 0 <= i < replies.len() && replies[i] == x;
                assert(replies.filter(pred).contains(replies[i]));
            }
        }
    }
}

/// The assembled result does not depend on the number of workers: replies
/// gathered from `n1` workers and from `n2` workers scatter to the same buffer.
pub proof fn lemma_worker_count_independent(
    init: Seq<i64>,
    replies: Seq<MsgOutput>,
    n1: int,
    n2: int,
)
    requires
        n1 > 0,
        n2 > 0,
        indices_below(replies, init.len()),
        distinct_indices(replies),
    ensures
        scatter(init, worker_order(replies, n1, n1)) == scatter(init, worker_order(replies, n2, n2)),
{
    lemma_worker_order_contents(replies, n1, n1);
    lemma_worker_order_contents(replies, n2, n2);
    assert forall|x: MsgOutput| replies.contains(x) implies (x.idx as int) % n1 < n1 && (x.idx as int)
        % n2 < n2 by {
        vstd::arithmetic::div_mod::lemma_mod_bound(x.idx as int, n1);
        vstd::arithmetic::div_mod::lemma_mod_bound(x.idx as int, n2);
    }
    lemma_assembly_order_independent(init, replies, worker_order(replies, n1, n1));
    lemma_assembly_order_independent(init, replies, worker_order(replies, n2, n2));
}

/// Whether cell `(i, j)` of the product of `a` and `b` can be computed in
/// `i64` without overflow.
fn cell_fits(a: &Matrix, b: &Matrix, i: usize, j: usize) -> (r: bool)
    requires
        a@.wf(),
        b@.wf(),
        a@.cols == b@.rows,
        i < a@.rows,
        j < b@.cols,
    ensures
        r == dot_fits(a@.row(i as int), b@.col(j as int)),
{
    let ghost row = a@.row(i as int);
    let ghost col = b@.col(j as int);
    let mut sum: i64 = 0;
    let mut t: usize = 0;
    let mut ok: bool = true;
    while t < a.cols()
        invariant
            a@.wf(),
            b@.wf(),
            a@.cols == b@.rows,
            i < a@.rows,
            j < b@.cols,
            row == a@.row(i as int),
            col == b@.col(j as int),
            t <= a@.cols,
            ok ==> sum == dot_upto(row, col, t as int),
            ok == prefix_fits(row, col, t as int),
            !ok ==> t == a@.cols && !prefix_fits(row, col, a@.cols as int),
        decreases a@.cols - t,
    {
        let x = a.get(i, t);
        let y = b.get(t, j);
        assert(row[t as int] == x);
        assert(col[t as int] == y);
        assert(term(row, col, t as int) == x * y) by {
            reveal(term);
        }
        assert(dot_upto(row, col, t + 1) == sum + x * y);
        let step = match x.checked_mul(y) {
            Some(p) => sum.checked_add(p),
            None => None,
        };
        match step {
            Some(next) => {
                sum = next;
                t = t + 1;
            },
            None => {
                proof {
                    if prefix_fits(row, col, a@.cols as int) {
                        lemma_prefix_fits_shorter(row, col, a@.cols as int, t + 1);
                    }
                }
                ok = false;
                t = a.cols();
            },
        }
    }
    ok
}

/// Whether every cell of the product of `a` and `b` can be computed in `i64`
/// without overflow.
pub fn products_fit(a: &Matrix, b: &Matrix) -> (r: bool)
    requires
        a@.wf(),
        b@.wf(),
        a@.cols == b@.rows,
    ensures
        r == product_fits(a@, b@),
{
    let mut i: usize = 0;
    while i < a.rows()
        invariant
            a@.wf(),
            b@.wf(),
            a@.cols == b@.rows,
            i <= a@.rows,
            forall|p: int, q: int|
                0 <= p < i && 0 <= q < b@.cols ==> #[trigger] dot_fits(a@.row(p), b@.col(q)),
        decreases a@.rows - i,
    {
        let mut j: usize = 0;
        while j < b.cols()
            invariant
                a@.wf(),
                b@.wf(),
                a@.cols == b@.rows,
                i < a@.rows,
                j <= b@.cols,
                forall|p: int, q: int|
                    0 <= p < i && 0 <= q < b@.cols ==> #[trigger] dot_fits(a@.row(p), b@.col(q)),
                forall|q: int| 0 <= q < j ==> #[trigger] dot_fits(a@.row(i as int), b@.col(q)),
            decreases b@.cols - j,
        {
            if !cell_fits(a, b, i, j) {
                return false;
            }
            j = j + 1;
        }
        i = i + 1;
    }
    true
}

} // verus!
