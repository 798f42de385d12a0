//! Dense matrices of binary32 values, held as bit patterns in row-major
//! order, with element-wise addition and a cache-blocked multiplication
//! whose accumulation order equals the naive ascending-index triple loop.

use crate::scalar::add_bits;
use crate::scalar::add_value;
use crate::scalar::mul_bits;
use crate::scalar::mul_value;
use crate::source::ScalarSource;
use vstd::pervasive::VecAdditionalExecFns;
use vstd::prelude::*;

verus! {

/// The side of the square tiles the multiplication works in.
pub const BLOCK_SIZE: usize = 64;

/// The mathematical content of a matrix: its shape and its row-major cell
/// sequence of binary32 bit patterns.
#[verifier::ext_equal]
pub ghost struct MatrixView {
    /// Number of rows.
    pub rows: nat,
    /// Number of columns.
    pub cols: nat,
    /// The cells, row-major.
    pub data: Seq<u32>,
}

impl MatrixView {
    /// Shape and storage agree, and the matrix fits in memory.
    pub open spec fn wf(self) -> bool {
        &&& self.data.len() == self.rows * self.cols
        &&& self.rows <= usize::MAX
        &&& self.cols <= usize::MAX
        &&& self.rows * self.cols <= usize::MAX
    }

    /// The cell in row `r`, column `c`.
    pub open spec fn cell(self, r: int, c: int) -> u32 {
        self.data[r * self.cols + c]
    }
}

/// The binary32 dot product of the first `k` entries of row `r` of `a`
/// and column `c` of `b`, accumulated in ascending inner index, starting
/// from positive zero. This is exactly the accumulation a naive
/// ascending-index triple loop performs for one output cell.
pub open spec fn dot(a: MatrixView, b: MatrixView, r: int, c: int, k: int) -> u32
    decreases k,
{
    if k <= 0 {
        0u32
    } else {
        add_bits(dot(a, b, r, c, k - 1), mul_bits(a.cell(r, k - 1), b.cell(k - 1, c)))
    }
}

/// A dense 2-D container of binary32 values, held as `u32` bit patterns
/// in a flat row-major vector.
#[derive(Clone, Debug, PartialEq)]
pub struct Matrix {
    /// Number of rows.
    pub rows: usize,
    /// Number of columns.
    pub cols: usize,
    /// The cells, row-major; always exactly `rows * cols` of them.
    pub data: Vec<u32>,
}

impl View for Matrix {
    type V = MatrixView;

    open spec fn view(&self) -> MatrixView {
        MatrixView { rows: self.rows as nat, cols: self.cols as nat, data: self.data@ }
    }
}

/// The cell of a flat row-major storage with `ncols` columns.
spec fn cell_of(rd: Seq<u32>, ncols: int, r: int, c: int) -> u32 {
    rd[r * ncols + c]
}

/// Every cell in rows `[r0, r1)`, columns `[c0, c1)` of the accumulator
/// holds the dot prefix of length `t`.
spec fn region_at(
    rd: Seq<u32>,
    a: MatrixView,
    b: MatrixView,
    r0: int,
    r1: int,
    c0: int,
    c1: int,
    t: int,
) -> bool {
    forall|r: int, c: int|
        r0 <= r < r1 && c0 <= c < c1 ==> #[trigger] cell_of(rd, b.cols as int, r, c) == dot(
            a,
            b,
            r,
            c,
            t,
        )
}

/// In a row-major layout of `nrows` by `ncols`, the flat index of a cell
/// is within the storage.
proof fn lemma_flat_index_bound(r: int, c: int, nrows: int, ncols: int)
    by (nonlinear_arith)
    requires
        0 <= r < nrows,
        0 <= c < ncols,
    ensures
        0 <= r * ncols + c < nrows * ncols,
{
}

/// In a row-major layout, distinct cells have distinct flat indices.
proof fn lemma_flat_index_injective(r1: int, c1: int, r2: int, c2: int, ncols: int)
    by (nonlinear_arith)
    requires
        0 <= c1 < ncols,
        0 <= c2 < ncols,
        0 <= r1,
        0 <= r2,
        r1 * ncols + c1 == r2 * ncols + c2,
    ensures
        r1 == r2 && c1 == c2,
{
}

impl Matrix {
    /// Wraps a caller-supplied row-major cell sequence of the exact length
    /// the shape demands.
    pub fn new(rows: usize, cols: usize, data: Vec<u32>) -> (m: Matrix)
        requires
            data@.len() == rows * cols,
        ensures
            m@ == (MatrixView { rows: rows as nat, cols: cols as nat, data: data@ }),
            m@.wf(),
    {
        let n: usize = data.len();
        assert(n == data@.len());
        Matrix { rows, cols, data }
    }

    /// A matrix of the given shape with every cell positive zero.
    pub fn new_zero(rows: usize, cols: usize) -> (m: Matrix)
        requires
            rows * cols <= usize::MAX,
        ensures
            m@ == (MatrixView {
                rows: rows as nat,
                cols: cols as nat,
                data: Seq::new((rows * cols) as nat, |i: int| 0u32),
            }),
            m@.wf(),
    {
        let n: usize = rows * cols;
        let mut data: Vec<u32> = Vec::new();
        while data.len() < n
            invariant
                data@.len() <= n,
                forall|j: int| 0 <= j < data@.len() ==> data@[j] == 0u32,
            decreases n - data@.len(),
        {
            data.push(0u32);
        }
        proof {
            assert(data@ =~= Seq::new((rows * cols) as nat, |i: int| 0u32));
        }
        Matrix { rows, cols, data }
    }

    /// A matrix of the given shape whose cells are drawn from the source,
    /// one call per cell, in row-major fill order.
    pub fn new_random<G: ScalarSource>(rows: usize, cols: usize, g: &mut G) -> (m: Matrix)
        requires
            rows * cols <= usize::MAX,
            old(g).ready((rows * cols) as nat),
        ensures
            m@ == (MatrixView {
                rows: rows as nat,
                cols: cols as nat,
                data: Seq::new(
                    (rows * cols) as nat,
                    |i: int| old(g).at((old(g).taken() + i) as nat),
                ),
            }),
            m@.wf(),
            final(g).taken() == old(g).taken() + rows * cols,
            forall|i: nat| final(g).at(i) == old(g).at(i),
            forall|n: nat| old(g).ready(n + (rows * cols) as nat) ==> final(g).ready(n),
    {
        let ghost g0 = *g;
        let n: usize = rows * cols;
        let mut data: Vec<u32> = Vec::new();
        while data.len() < n
            invariant
                data@.len() <= n,
                g.taken() == g0.taken() + data@.len(),
                forall|i: nat| g.at(i) == g0.at(i),
                forall|m: nat| g0.ready(m + data@.len()) ==> g.ready(m),
                g0.ready(n as nat),
                forall|j: int|
                    0 <= j < data@.len() ==> data@[j] == g0.at((g0.taken() + j) as nat),
            decreases n - data@.len(),
        {
            proof {
                g0.ready_weaken((1 + data@.len()) as nat, n as nat);
            }
            let v = g.next_value();
            data.push(v);
        }
        proof {
            assert(data@ =~= Seq::new(
                (rows * cols) as nat,
                |i: int| g0.at((g0.taken() + i) as nat),
            ));
        }
        Matrix { rows, cols, data }
    }

    /// Element-wise sum; the result takes this matrix's shape.
    pub fn add(self, rhs: &Matrix) -> (m: Matrix)
        requires
            self@.wf(),
            self.data@.len() == rhs.data@.len(),
        ensures
            m@ == (MatrixView {
                rows: self@.rows,
                cols: self@.cols,
                data: Seq::new(
                    self.data@.len(),
                    |i: int| add_bits(self.data@[i], rhs.data@[i]),
                ),
            }),
            m@.wf(),
    {
        let n: usize = self.data.len();
        let mut data: Vec<u32> = Vec::new();
        let mut i: usize = 0;
        while i < n
            invariant
                n == self.data@.len(),
                self.data@.len() == rhs.data@.len(),
                i <= n,
                data@.len() == i,
                forall|j: int|
                    0 <= j < i ==> data@[j] == add_bits(self.data@[j], rhs.data@[j]),
            decreases n - i,
        {
            data.push(add_value(self.data[i], rhs.data[i]));
            i = i + 1;
        }
        proof {
            assert(data@ =~= Seq::new(
                self.data@.len(),
                |i: int| add_bits(self.data@[i], rhs.data@[i]),
            ));
        }
        Matrix { rows: self.rows, cols: self.cols, data }
    }

    /// Matrix product by the cache-blocked (tiled) triple loop, with the
    /// per-block bounds clamped to the matrix extents. Every output cell
    /// accumulates in ascending inner index, so each cell equals the naive
    /// ascending-index triple-loop accumulation `dot`.
    #[verifier::loop_isolation(false)]
    #[verifier::rlimit(50)]
    pub fn mul(&self, rhs: &Matrix) -> (m: Matrix)
        requires
            self@.wf(),
            rhs@.wf(),
            self.cols == rhs.rows,
            self.rows * rhs.cols <= usize::MAX,
        ensures
            m@.rows == self@.rows,
            m@.cols == rhs@.cols,
            m@.wf(),
            forall|r: int, c: int|
                0 <= r < self@.rows && 0 <= c < rhs@.cols ==> m@.cell(r, c) == dot(
                    self@,
                    rhs@,
                    r,
                    c,
                    self@.cols as int,
                ),
    {
        let ghost av = self@;
        let ghost bv = rhs@;
        let rows: usize = self.rows;
        let cols: usize = rhs.cols;
        let inner: usize = self.cols;
        let ghost big_r = rows as int;
        let ghost big_c = cols as int;
        let ghost big_k = inner as int;
        let n: usize = rows * cols;
        let mut data: Vec<u32> = Vec::new();
        while data.len() < n
            invariant
                data@.len() <= n,
                forall|j: int| 0 <= j < data@.len() ==> data@[j] == 0u32,
            decreases n - data@.len(),
        {
            data.push(0u32);
        }
        proof {
            assert forall|r: int, c: int| 0 <= r < big_r && 0 <= c < big_c implies #[trigger] cell_of(
                data@,
                big_c,
                r,
                c,
            ) == dot(av, bv, r, c, 0) by {
                lemma_flat_index_bound(r, c, big_r, big_c);
            }
        }
        let mut block_row_start: usize = 0;
        while block_row_start < rows
            invariant
                block_row_start <= rows,
                data@.len() == n,
                region_at(data@, av, bv, 0, block_row_start as int, 0, big_c, big_k),
                region_at(data@, av, bv, block_row_start as int, big_r, 0, big_c, 0),
            decreases rows - block_row_start,
        {
            let block_row_end: usize = if rows - block_row_start < BLOCK_SIZE {
                rows
            } else {
                block_row_start + BLOCK_SIZE
            };
            let mut block_col_start: usize = 0;
            while block_col_start < cols
                invariant
                    block_row_start < block_row_end <= rows,
                    block_col_start <= cols,
                    data@.len() == n,
                    region_at(data@, av, bv, 0, block_row_start as int, 0, big_c, big_k),
                    region_at(
                        data@,
                        av,
                        bv,
                        block_row_start as int,
                        block_row_end as int,
                        0,
                        block_col_start as int,
                        big_k,
                    ),
                    region_at(
                        data@,
                        av,
                        bv,
                        block_row_start as int,
                        block_row_end as int,
                        block_col_start as int,
                        big_c,
                        0,
                    ),
                    region_at(data@, av, bv, block_row_end as int, big_r, 0, big_c, 0),
                decreases cols - block_col_start,
            {
                let block_col_end: usize = if cols - block_col_start < BLOCK_SIZE {
                    cols
                } else {
                    block_col_start + BLOCK_SIZE
                };
                let mut block_inner_start: usize = 0;
                while block_inner_start < inner
                    invariant
                        block_row_start < block_row_end <= rows,
                        block_col_start < block_col_end <= cols,
                        block_inner_start <= inner,
                        data@.len() == n,
                        region_at(data@, av, bv, 0, block_row_start as int, 0, big_c, big_k),
                        region_at(
                            data@,
                            av,
                            bv,
                            block_row_start as int,
                            block_row_end as int,
                            0,
                            block_col_start as int,
                            big_k,
                        ),
                        region_at(
                            data@,
                            av,
                            bv,
                            block_row_start as int,
                            block_row_end as int,
                            block_col_start as int,
                            block_col_end as int,
                            block_inner_start as int,
                        ),
                        region_at(
                            data@,
                            av,
                            bv,
                            block_row_start as int,
                            block_row_end as int,
                            block_col_end as int,
                            big_c,
                            0,
                        ),
                        region_at(data@, av, bv, block_row_end as int, big_r, 0, big_c, 0),
                    decreases inner - block_inner_start,
                {
                    let block_inner_end: usize = if inner - block_inner_start < BLOCK_SIZE {
                        inner
                    } else {
                        block_inner_start + BLOCK_SIZE
                    };
                    let mut row_index: usize = block_row_start;
                    while row_index < block_row_end
                        invariant
                            block_row_start <= row_index <= block_row_end,
                            data@.len() == n,
                            region_at(data@, av, bv, 0, block_row_start as int, 0, big_c, big_k),
                            region_at(
                                data@,
                                av,
                                bv,
                                block_row_start as int,
                                block_row_end as int,
                                0,
                                block_col_start as int,
                                big_k,
                            ),
                            region_at(
                                data@,
                                av,
                                bv,
                                block_row_start as int,
                                row_index as int,
                                block_col_start as int,
                                block_col_end as int,
                                block_inner_end as int,
                            ),
                            region_at(
                                data@,
                                av,
                                bv,
                                row_index as int,
                                block_row_end as int,
                                block_col_start as int,
                                block_col_end as int,
                                block_inner_start as int,
                            ),
                            region_at(
                                data@,
                                av,
                                bv,
                                block_row_start as int,
                                block_row_end as int,
                                block_col_end as int,
                                big_c,
                                0,
                            ),
                            region_at(data@, av, bv, block_row_end as int, big_r, 0, big_c, 0),
                        decreases block_row_end - row_index,
                    {
                        let mut inner_index: usize = block_inner_start;
                        while inner_index < block_inner_end
                            invariant
                                block_inner_start <= inner_index <= block_inner_end,
                                data@.len() == n,
                                region_at(
                                    data@,
                                    av,
                                    bv,
                                    0,
                                    block_row_start as int,
                                    0,
                                    big_c,
                                    big_k,
                                ),
                                region_at(
                                    data@,
                                    av,
                                    bv,
                                    block_row_start as int,
                                    block_row_end as int,
                                    0,
                                    block_col_start as int,
                                    big_k,
                                ),
                                region_at(
                                    data@,
                                    av,
                                    bv,
                                    block_row_start as int,
                                    row_index as int,
                                    block_col_start as int,
                                    block_col_end as int,
                                    block_inner_end as int,
                                ),
                                region_at(
                                    data@,
                                    av,
                                    bv,
                                    row_index as int,
                                    row_index + 1,
                                    block_col_start as int,
                                    block_col_end as int,
                                    inner_index as int,
                                ),
                                region_at(
                                    data@,
                                    av,
                                    bv,
                                    row_index + 1,
                                    block_row_end as int,
                                    block_col_start as int,
                                    block_col_end as int,
                                    block_inner_start as int,
                                ),
                                region_at(
                                    data@,
                                    av,
                                    bv,
                                    block_row_start as int,
                                    block_row_end as int,
                                    block_col_end as int,
                                    big_c,
                                    0,
                                ),
                                region_at(data@, av, bv, block_row_end as int, big_r, 0, big_c, 0),
                            decreases block_inner_end - inner_index,
                        {
                            proof {
                                lemma_flat_index_bound(row_index as int, inner_index as int, big_r, big_k);
                                lemma_flat_index_bound(inner_index as int, 0, big_k, big_c);
                                lemma_flat_index_bound(row_index as int, 0, big_r, big_c);
                            }
                            let self_value: u32 = self.data[row_index * inner + inner_index];
                            let rhs_row_offset: usize = inner_index * cols;
                            let result_row_offset: usize = row_index * cols;
                            let mut col_index: usize = block_col_start;
                            while col_index < block_col_end
                                invariant
                                    block_col_start <= col_index <= block_col_end,
                                    data@.len() == n,
                                    self_value == av.cell(row_index as int, inner_index as int),
                                    rhs_row_offset == inner_index * cols,
                                    result_row_offset == row_index * cols,
                                    region_at(
                                        data@,
                                        av,
                                        bv,
                                        0,
                                        block_row_start as int,
                                        0,
                                        big_c,
                                        big_k,
                                    ),
                                    region_at(
                                        data@,
                                        av,
                                        bv,
                                        block_row_start as int,
                                        block_row_end as int,
                                        0,
                                        block_col_start as int,
                                        big_k,
                                    ),
                                    region_at(
                                        data@,
                                        av,
                                        bv,
                                        block_row_start as int,
                                        row_index as int,
                                        block_col_start as int,
                                        block_col_end as int,
                                        block_inner_end as int,
                                    ),
                                    region_at(
                                        data@,
                                        av,
                                        bv,
                                        row_index as int,
                                        row_index + 1,
                                        block_col_start as int,
                                        col_index as int,
                                        inner_index + 1,
                                    ),
                                    region_at(
                                        data@,
                                        av,
                                        bv,
                                        row_index as int,
                                        row_index + 1,
                                        col_index as int,
                                        block_col_end as int,
                                        inner_index as int,
                                    ),
                                    region_at(
                                        data@,
                                        av,
                                        bv,
                                        row_index + 1,
                                        block_row_end as int,
                                        block_col_start as int,
                                        block_col_end as int,
                                        block_inner_start as int,
                                    ),
                                    region_at(
                                        data@,
                                        av,
                                        bv,
                                        block_row_start as int,
                                        block_row_end as int,
                                        block_col_end as int,
                                        big_c,
                                        0,
                                    ),
                                    region_at(
                                        data@,
                                        av,
                                        bv,
                                        block_row_end as int,
                                        big_r,
                                        0,
                                        big_c,
                                        0,
                                    ),
                                decreases block_col_end - col_index,
                            {
                                proof {
                                    lemma_flat_index_bound(
                                        inner_index as int,
                                        col_index as int,
                                        big_k,
                                        big_c,
                                    );
                                    lemma_flat_index_bound(
                                        row_index as int,
                                        col_index as int,
                                        big_r,
                                        big_c,
                                    );
                                }
                                let rhs_value: u32 = rhs.data[rhs_row_offset + col_index];
                                let result_index: usize = result_row_offset + col_index;
                                let ghost rd1 = data@;
                                let acc: u32 = add_value(
                                    data[result_index],
                                    mul_value(self_value, rhs_value),
                                );
                                data.set(result_index, acc);
                                proof {
                                    assert forall|r: int, c: int|
                                        0 <= r < big_r && 0 <= c < big_c && !(r == row_index && c
                                            == col_index) implies #[trigger] cell_of(
                                        data@,
                                        big_c,
                                        r,
                                        c,
                                    ) == cell_of(rd1, big_c, r, c) by {
                                        lemma_flat_index_bound(r, c, big_r, big_c);
                                        if r * big_c + c == result_index {
                                            lemma_flat_index_injective(
                                                r,
                                                c,
                                                row_index as int,
                                                col_index as int,
                                                big_c,
                                            );
                                        }
                                    }
                                    assert(cell_of(rd1, big_c, row_index as int, col_index as int)
                                        == dot(av, bv, row_index as int, col_index as int, inner_index as int));
                                    assert(rhs_value == bv.cell(inner_index as int, col_index as int));
                                    assert(cell_of(data@, big_c, row_index as int, col_index as int) == acc);
                                    assert(cell_of(data@, big_c, row_index as int, col_index as int)
                                        == dot(av, bv, row_index as int, col_index as int, inner_index + 1));
                                }
                                col_index = col_index + 1;
                            }
                            inner_index = inner_index + 1;
                        }
                        row_index = row_index + 1;
                    }
                    block_inner_start = block_inner_end;
                }
                block_col_start = block_col_end;
            }
            block_row_start = block_row_end;
        }
        proof {
            assert forall|r: int, c: int| 0 <= r < big_r && 0 <= c < big_c implies (MatrixView {
                rows: rows as nat,
                cols: cols as nat,
                data: data@,
            }).cell(r, c) == dot(av, bv, r, c, big_k) by {
                assert(cell_of(data@, big_c, r, c) == dot(av, bv, r, c, big_k));
            }
        }
        Matrix { rows, cols, data }
    }
}

} // verus!
