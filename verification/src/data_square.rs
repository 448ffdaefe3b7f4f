//! The square matrix of chunks at the heart of the scheme, stored in
//! row-major and column-major order at once, with extension logic that
//! doubles the width with erasure-coded parity and binds every row and
//! column to a commitment root.

use vstd::prelude::*;

use crate::codec::{self, codeword_of, equal_lens, Codec, ReedSolomonCodec};
use crate::merkle_tree::{self, root_spec, MerkleTree};
use crate::{Error, Matrix2D, Matrix3D};

verus! {

broadcast use crate::lemma_bytes_deep_view, crate::lemma_opt_bytes_deep_view, crate::lemma_matrix_deep_view_index, crate::lemma_sparse_deep_view_index;

/// Indexing a chunk grid's deep view reads the row's deep view.
pub broadcast proof fn lemma_grid_deep_view_index(m: Vec<Vec<Vec<u8>>>, i: int)
    requires
        0 <= i < m@.len(),
    ensures
        #[trigger] m.deep_view()[i] == m@[i].deep_view(),
{
}

/// `g` is a `w`-row grid of `w`-chunk rows, every chunk `size` bytes.
pub open spec fn grid_wf(g: Seq<Seq<Seq<u8>>>, w: nat, size: nat) -> bool {
    &&& g.len() == w
    &&& forall|i: int| 0 <= i < w ==> #[trigger] g[i].len() == w
    &&& forall|i: int, j: int|
        0 <= i < w && 0 <= j < w ==> #[trigger] g[i][j].len() == size
}

/// The central representation invariant: the column-major view mirrors the
/// row-major one, `rows[i][j] == cols[j][i]` everywhere.
pub open spec fn dual(rows: Seq<Seq<Seq<u8>>>, cols: Seq<Seq<Seq<u8>>>, w: nat) -> bool {
    forall|i: int, j: int|
        0 <= i < w && 0 <= j < w ==> #[trigger] rows[i][j] == cols[j][i]
}

/// A grid position is inside the flat chunk list.
pub proof fn lemma_grid_index(i: int, j: int, w: int)
    by (nonlinear_arith)
    requires
        0 <= i < w,
        0 <= j < w,
    ensures
        0 <= i * w + j < w * w,
{
}

/// No integer squares to `n` when `n` lies strictly between two squares.
pub proof fn lemma_no_square_between(n: int, w: int)
    requires
        0 <= w,
        w * w < n,
        n < (w + 1) * (w + 1),
    ensures
        forall|v: int| 0 <= v ==> #[trigger] (v * v) != n,
{
    assert forall|v: int| 0 <= v implies #[trigger] (v * v) != n by {
        if v <= w {
            assert(v * v <= w * w) by (nonlinear_arith)
                requires
                    0 <= v <= w,
            ;
        } else {
            assert((w + 1) * (w + 1) <= v * v) by (nonlinear_arith)
                requires
                    w + 1 <= v,
                    0 <= w,
            ;
        }
    }
}

/// Integer square root: the largest `r` with `r * r <= n`.
pub fn isqrt(n: usize) -> (r: usize)
    ensures
        r * r <= n,
        n < (r + 1) * (r + 1),
{
    let mut r: usize = 0;
    loop
        invariant_except_break
            r * r <= n,
            r <= n,
        ensures
            r * r <= n,
            n < (r + 1) * (r + 1),
        decreases n - r,
    {
        proof {
            assert(r < usize::MAX) by (nonlinear_arith)
                requires
                    r * r <= n,
                    n <= usize::MAX,
                    usize::MAX >= 3,
            ;
        }
        let q = n / (r + 1);
        let ghost rem = n as int % ((r + 1) as int);
        proof {
            vstd::arithmetic::div_mod::lemma_fundamental_div_mod(n as int, (r + 1) as int);
            assert(q == n as int / ((r + 1) as int));
            assert(n == q * (r + 1) + rem);
            assert(0 <= rem < r + 1);
        }
        if r + 1 <= q {
            proof {
                assert((r + 1) * (r + 1) <= n) by (nonlinear_arith)
                    requires
                        r + 1 <= q,
                        n == q * (r + 1) + rem,
                        0 <= rem,
                ;
            }
            r = r + 1;
        } else {
            proof {
                assert(n < (r + 1) * (r + 1)) by (nonlinear_arith)
                    requires
                        q < r + 1,
                        n == q * (r + 1) + rem,
                        rem < r + 1,
                        0 <= q,
                ;
            }
            break;
        }
    }
    r
}

/// Copy a list of chunks.
pub fn clone_matrix(m: &Matrix2D) -> (r: Matrix2D)
    ensures
        r.deep_view() == m.deep_view(),
        r@.len() == m@.len(),
{
    let mut r: Matrix2D = Vec::new();
    let mut i: usize = 0;
    while i < m.len()
        invariant
            0 <= i <= m@.len(),
            r@.len() == i,
            r.deep_view() =~= m.deep_view().take(i as int),
        decreases m@.len() - i,
    {
        let ghost pre = r.deep_view();
        let c = codec::clone_chunk(&m[i]);
        let ghost cv = c@;
        r.push(c);
        proof {
            assert(r.deep_view() =~= pre.push(cv));
            assert(r.deep_view() =~= m.deep_view().take(i + 1));
        }
        i += 1;
    }
    proof {
        assert(m.deep_view().take(m@.len() as int) =~= m.deep_view());
    }
    r
}

/// The column-major mirror of a `width`-wide grid.
pub fn transpose(m: &Matrix3D, width: usize) -> (t: Matrix3D)
    requires
        m.deep_view().len() == width,
        forall|i: int| 0 <= i < width ==> #[trigger] m.deep_view()[i].len() == width,
    ensures
        t.deep_view().len() == width,
        forall|j: int| 0 <= j < width ==> #[trigger] t.deep_view()[j].len() == width,
        dual(m.deep_view(), t.deep_view(), width as nat),
        dual(t.deep_view(), m.deep_view(), width as nat),
{
    let mut t: Matrix3D = Vec::new();
    let mut j: usize = 0;
    while j < width
        invariant
            0 <= j <= width,
            m.deep_view().len() == width,
            m@.len() == width,
            forall|i: int| 0 <= i < width ==> #[trigger] m.deep_view()[i].len() == width,
            t@.len() == j,
            forall|b: int| 0 <= b < j ==> #[trigger] t.deep_view()[b].len() == width,
            forall|a: int, b: int|
                0 <= a < width && 0 <= b < j ==> #[trigger] t.deep_view()[b][a]
                    == m.deep_view()[a][b],
        decreases width - j,
    {
        let mut col: Matrix2D = Vec::new();
        let mut i: usize = 0;
        while i < width
            invariant
                0 <= i <= width,
                0 <= j < width,
                m.deep_view().len() == width,
                m@.len() == width,
                forall|a: int| 0 <= a < width ==> #[trigger] m.deep_view()[a].len() == width,
                col@.len() == i,
                forall|a: int|
                    0 <= a < i ==> #[trigger] col.deep_view()[a] == m.deep_view()[a][j as int],
            decreases width - i,
        {
            proof {
                assert(m@[i as int]@.len() == m.deep_view()[i as int].len());
            }
            let ghost pre = col.deep_view();
            let c = codec::clone_chunk(&m[i][j]);
            let ghost cv = c@;
            col.push(c);
            proof {
                assert(cv == m.deep_view()[i as int][j as int]);
                assert(col.deep_view() =~= pre.push(cv));
            }
            i += 1;
        }
        let ghost tpre = t.deep_view();
        let ghost colv = col.deep_view();
        t.push(col);
        proof {
            assert(t.deep_view() =~= tpre.push(colv));
        }
        j += 1;
    }
    t
}

/// A share list with its parity appended: the full codeword.
fn extend_with_parity(codec: &ReedSolomonCodec, shares: Matrix2D) -> (r: Result<Matrix2D, Error>)
    requires
        codec.wf(),
        shares@.len() == codec.data_len_spec(),
        equal_lens(shares.deep_view()),
        shares.deep_view()[0].len() >= 1,
    ensures
        r is Ok,
        r matches Ok(f) ==> {
            &&& f.deep_view() == codeword_of(shares.deep_view())
            &&& f@.len() == 2 * codec.data_len_spec()
            &&& codeword_of(shares.deep_view()).len() == 2 * codec.data_len_spec()
            &&& codeword_of(shares.deep_view()).take(codec.data_len_spec() as int)
                == shares.deep_view()
            &&& forall|k: int|
                0 <= k < f@.len() ==> #[trigger] f.deep_view()[k].len()
                    == shares.deep_view()[0].len()
        },
{
    let copy = clone_matrix(&shares);
    let parity = match codec.encode(copy) {
        Ok(p) => p,
        Err(_) => {
            return Err(Error::CodecConstructionFailure);
        },
    };
    let ghost sv = shares.deep_view();
    let ghost pv = parity.deep_view();
    let mut f = shares;
    let mut k: usize = 0;
    while k < parity.len()
        invariant
            0 <= k <= parity@.len(),
            pv == parity.deep_view(),
            f@.len() == sv.len() + k,
            f.deep_view() =~= sv + pv.take(k as int),
        decreases parity@.len() - k,
    {
        let ghost pre = f.deep_view();
        let c = codec::clone_chunk(&parity[k]);
        let ghost cv = c@;
        f.push(c);
        proof {
            assert(cv == pv[k as int]);
            assert(f.deep_view() =~= pre.push(cv));
            assert(f.deep_view() =~= sv + pv.take(k + 1));
        }
        k += 1;
    }
    proof {
        assert(pv.take(pv.len() as int) =~= pv);
        assert(f.deep_view() =~= sv + pv);
        assert(codeword_of(sv) == sv + pv);
    }
    Ok(f)
}

/// Every share list of `rows`, extended with its parity.
fn extend_each(codec: &ReedSolomonCodec, rows: &Matrix3D) -> (r: Result<Matrix3D, Error>)
    requires
        codec.wf(),
        forall|i: int|
            0 <= i < rows@.len() ==> #[trigger] rows.deep_view()[i].len()
                == codec.data_len_spec(),
        forall|i: int| 0 <= i < rows@.len() ==> equal_lens(#[trigger] rows.deep_view()[i]),
        forall|i: int| 0 <= i < rows@.len() ==> (#[trigger] rows.deep_view()[i])[0].len() >= 1,
    ensures
        r is Ok,
        r matches Ok(f) ==> {
            &&& f@.len() == rows@.len()
            &&& forall|i: int|
                0 <= i < rows@.len() ==> #[trigger] f.deep_view()[i] == codeword_of(
                    rows.deep_view()[i],
                )
            &&& forall|i: int|
                0 <= i < rows@.len() ==> (#[trigger] f.deep_view()[i]).len() == 2
                    * codec.data_len_spec()
            &&& forall|i: int|
                0 <= i < rows@.len() ==> codeword_of(#[trigger] rows.deep_view()[i]).take(
                    codec.data_len_spec() as int,
                ) == rows.deep_view()[i]
            &&& forall|i: int, k: int|
                #![trigger f.deep_view()[i][k]]
                0 <= i < rows@.len() && 0 <= k < 2 * codec.data_len_spec()
                    ==> f.deep_view()[i][k].len() == rows.deep_view()[i][0].len()
        },
{
    let mut f: Matrix3D = Vec::new();
    let mut i: usize = 0;
    while i < rows.len()
        invariant
            0 <= i <= rows@.len(),
            codec.wf(),
            forall|a: int|
                0 <= a < rows@.len() ==> #[trigger] rows.deep_view()[a].len()
                    == codec.data_len_spec(),
            forall|a: int| 0 <= a < rows@.len() ==> equal_lens(#[trigger] rows.deep_view()[a]),
            forall|a: int|
                0 <= a < rows@.len() ==> (#[trigger] rows.deep_view()[a])[0].len() >= 1,
            f@.len() == i,
            forall|a: int|
                0 <= a < i ==> #[trigger] f.deep_view()[a] == codeword_of(rows.deep_view()[a]),
            forall|a: int|
                0 <= a < i ==> (#[trigger] f.deep_view()[a]).len() == 2 * codec.data_len_spec(),
            forall|a: int|
                0 <= a < i ==> codeword_of(#[trigger] rows.deep_view()[a]).take(
                    codec.data_len_spec() as int,
                ) == rows.deep_view()[a],
            forall|a: int, k: int|
                #![trigger f.deep_view()[a][k]]
                0 <= a < i && 0 <= k < 2 * codec.data_len_spec()
                    ==> f.deep_view()[a][k].len() == rows.deep_view()[a][0].len(),
        decreases rows@.len() - i,
    {
        let shares = clone_matrix(&rows[i]);
        proof {
            assert(shares.deep_view() == rows.deep_view()[i as int]);
            assert(shares@.len() == shares.deep_view().len());
        }
        let full = match extend_with_parity(codec, shares) {
            Ok(x) => x,
            Err(_) => {
                return Err(Error::CodecConstructionFailure);
            },
        };
        let ghost fullv = full.deep_view();
        let ghost pre = f.deep_view();
        f.push(full);
        proof {
            assert(f.deep_view() =~= pre.push(fullv));
        }
        i += 1;
    }
    Ok(f)
}

/// Row `k` of `r` gathers slot `n + k` of every list of `src`: the tail
/// halves of `src`'s lists, read crosswise.
fn gather_tails(src: &Matrix3D, n: usize) -> (r: Matrix3D)
    requires
        n <= 128,
        src@.len() == n,
        forall|j: int| 0 <= j < n ==> #[trigger] src.deep_view()[j].len() == 2 * n,
    ensures
        r@.len() == n,
        forall|k: int| 0 <= k < n ==> #[trigger] r.deep_view()[k].len() == n,
        forall|k: int, j: int|
            #![trigger r.deep_view()[k][j]]
            0 <= k < n && 0 <= j < n ==> r.deep_view()[k][j] == src.deep_view()[j][n + k],
{
    let mut r: Matrix3D = Vec::new();
    let mut k: usize = 0;
    while k < n
        invariant
            0 <= k <= n,
            n <= 128,
            src@.len() == n,
            forall|j: int| 0 <= j < n ==> #[trigger] src.deep_view()[j].len() == 2 * n,
            r@.len() == k,
            forall|a: int| 0 <= a < k ==> #[trigger] r.deep_view()[a].len() == n,
            forall|a: int, j: int|
                #![trigger r.deep_view()[a][j]]
                0 <= a < k && 0 <= j < n ==> r.deep_view()[a][j] == src.deep_view()[j][n + a],
        decreases n - k,
    {
        let mut row: Matrix2D = Vec::new();
        let mut j: usize = 0;
        while j < n
            invariant
                0 <= j <= n,
                0 <= k < n,
                n <= 128,
                src@.len() == n,
                forall|b: int| 0 <= b < n ==> #[trigger] src.deep_view()[b].len() == 2 * n,
                row@.len() == j,
                forall|b: int|
                    0 <= b < j ==> #[trigger] row.deep_view()[b] == src.deep_view()[b][n + k],
            decreases n - j,
        {
            proof {
                assert(src@[j as int]@.len() == src.deep_view()[j as int].len());
            }
            let ghost pre = row.deep_view();
            let c = codec::clone_chunk(&src[j][n + k]);
            let ghost cv = c@;
            row.push(c);
            proof {
                assert(cv == src.deep_view()[j as int][n + k]);
                assert(row.deep_view() =~= pre.push(cv));
            }
            j += 1;
        }
        let ghost rowv = row.deep_view();
        let ghost pre = r.deep_view();
        r.push(row);
        proof {
            assert(r.deep_view() =~= pre.push(rowv));
        }
        k += 1;
    }
    r
}

/// The root of every line of `g`.
fn all_roots(g: &Matrix3D) -> (r: Result<Matrix2D, Error>)
    requires
        forall|i: int| 0 <= i < g@.len() ==> (#[trigger] g.deep_view()[i]).len() > 0,
    ensures
        r is Ok,
        r matches Ok(rr) ==> {
            &&& rr@.len() == g@.len()
            &&& forall|i: int|
                0 <= i < g@.len() ==> #[trigger] rr.deep_view()[i] == root_spec(
                    g.deep_view()[i],
                )
        },
{
    let mut rr: Matrix2D = Vec::new();
    let mut i: usize = 0;
    while i < g.len()
        invariant
            0 <= i <= g@.len(),
            forall|a: int| 0 <= a < g@.len() ==> (#[trigger] g.deep_view()[a]).len() > 0,
            rr@.len() == i,
            forall|a: int|
                0 <= a < i ==> #[trigger] rr.deep_view()[a] == root_spec(g.deep_view()[a]),
        decreases g@.len() - i,
    {
        proof {
            assert(g@[i as int]@.len() == g.deep_view()[i as int].len());
        }
        let h = match chunks_root(&g[i]) {
            Ok(h) => h,
            Err(_) => {
                return Err(Error::EmptyInput);
            },
        };
        let ghost hv = h@;
        let ghost pre = rr.deep_view();
        rr.push(h);
        proof {
            assert(rr.deep_view() =~= pre.push(hv));
        }
        i += 1;
    }
    Ok(rr)
}

/// The commitment root over one line of chunks, in order.
pub fn chunks_root(chunks: &Matrix2D) -> (r: Result<Vec<u8>, Error>)
    ensures
        r is Ok <==> chunks@.len() > 0,
        r matches Ok(h) ==> h@ == root_spec(chunks.deep_view()),
        r matches Err(e) ==> e == Error::EmptyInput,
{
    let mut t = merkle_tree::new();
    let mut i: usize = 0;
    while i < chunks.len()
        invariant
            0 <= i <= chunks@.len(),
            t.wf(),
            t.leaves() =~= chunks.deep_view().take(i as int),
        decreases chunks@.len() - i,
    {
        let ghost pre = t.leaves();
        match t.push(chunks[i].as_slice()) {
            Ok(()) => {},
            Err(_) => {
                return Err(Error::EmptyInput);
            },
        }
        proof {
            assert(t.leaves() =~= pre.push(chunks.deep_view()[i as int]));
            assert(t.leaves() =~= chunks.deep_view().take(i + 1));
        }
        i += 1;
    }
    proof {
        assert(chunks.deep_view().take(chunks@.len() as int) =~= chunks.deep_view());
    }
    t.root()
}


/// The `w`-wide square that a flat chunk list fills in row-major order.
pub open spec fn square_of(d: Seq<Seq<u8>>, w: int) -> Seq<Seq<Seq<u8>>> {
    Seq::new(w as nat, |i: int| Seq::new(w as nat, |j: int| d[i * w + j]))
}

/// Column `j` of a full grid of width `w`.
pub open spec fn col_of(t: Seq<Seq<Seq<u8>>>, j: int, w: int) -> Seq<Seq<u8>> {
    Seq::new(w as nat, |i: int| t[i][j])
}

/// Column `j` of the unextended square `d`.
pub open spec fn orig_col(d: Seq<Seq<Seq<u8>>>, j: int, n: int) -> Seq<Seq<u8>> {
    Seq::new(n as nat, |i: int| d[i][j])
}

/// Row `n + k` of the extended square before its own parity: slot `n + k`
/// of every extended original column.
pub open spec fn bottom_left_row(d: Seq<Seq<Seq<u8>>>, k: int, n: int) -> Seq<Seq<u8>> {
    Seq::new(n as nat, |j: int| codeword_of(orig_col(d, j, n))[n + k])
}

/// Column `n + m` of the extended square before its own parity: slot `n + m`
/// of every extended original row.
pub open spec fn right_top_col(d: Seq<Seq<Seq<u8>>>, m: int, n: int) -> Seq<Seq<u8>> {
    Seq::new(n as nat, |i: int| codeword_of(d[i])[n + m])
}

/// The two derivations of the cross-parity quadrant agree: row-extending the
/// column parity meets column-extending the row parity at every cell. A
/// linear code satisfies this; the extension checks it and refuses to build
/// a square on which the codec breaks it.
pub open spec fn cross_consistent(d: Seq<Seq<Seq<u8>>>, n: int) -> bool {
    forall|k: int, m: int|
        0 <= k < n && 0 <= m < n ==> codeword_of(#[trigger] bottom_left_row(d, k, n))[n + m]
            == codeword_of(#[trigger] right_top_col(d, m, n))[n + k]
}

/// Store all data for an original data square (ODS) or extended data square
/// (EDS). Data is duplicated in row-major and column-major order so both row
/// and column slices are directly available.
#[derive(Debug)]
pub struct DataSquare {
    pub square_row: Matrix3D,
    pub square_col: Matrix3D,
    pub width: usize,
    pub original_width: usize,
    pub chunk_size: usize,
    pub row_roots: Matrix2D,
    pub col_roots: Matrix2D,
    pub codec: ReedSolomonCodec,
}

impl DataSquare {
    /// The row-major chunks, as mathematical sequences.
    pub open spec fn rows(&self) -> Seq<Seq<Seq<u8>>> {
        self.square_row.deep_view()
    }

    /// The column-major chunks, as mathematical sequences.
    pub open spec fn cols(&self) -> Seq<Seq<Seq<u8>>> {
        self.square_col.deep_view()
    }

    /// The square has been extended to twice its original width.
    pub open spec fn is_extended(&self) -> bool {
        self.width == 2 * self.original_width
    }

    /// Internal consistency: shapes, the duality invariant, a codec sized to
    /// the original width, and roots exactly when the square is extended.
    pub open spec fn wf(&self) -> bool {
        &&& 1 <= self.original_width <= 128
        &&& self.width == self.original_width || self.width == 2 * self.original_width
        &&& grid_wf(self.rows(), self.width as nat, self.chunk_size as nat)
        &&& grid_wf(self.cols(), self.width as nat, self.chunk_size as nat)
        &&& dual(self.rows(), self.cols(), self.width as nat)
        &&& dual(self.cols(), self.rows(), self.width as nat)
        &&& self.codec.wf()
        &&& self.codec.data_len_spec() == self.original_width
        &&& if self.is_extended() {
            self.roots_wf()
        } else {
            self.row_roots@.len() == 0 && self.col_roots@.len() == 0
        }
    }

    /// One root per row and per column, each committing to its line.
    pub open spec fn roots_wf(&self) -> bool {
        &&& self.row_roots@.len() == self.width
        &&& self.col_roots@.len() == self.width
        &&& forall|i: int|
            0 <= i < self.width ==> #[trigger] self.row_roots.deep_view()[i] == root_spec(
                self.rows()[i],
            )
        &&& forall|j: int|
            0 <= j < self.width ==> #[trigger] self.col_roots.deep_view()[j] == root_spec(
                self.cols()[j],
            )
    }

    /// Every row completes its own first half's codeword.
    pub open spec fn rows_are_codewords(&self) -> bool {
        forall|i: int|
            0 <= i < self.width ==> #[trigger] self.rows()[i] == codeword_of(
                self.rows()[i].take(self.original_width as int),
            )
    }

    /// Every column completes its own first half's codeword.
    pub open spec fn cols_are_codewords(&self) -> bool {
        forall|j: int|
            0 <= j < self.width ==> #[trigger] self.cols()[j] == codeword_of(
                self.cols()[j].take(self.original_width as int),
            )
    }

    /// The error `new` reports for a chunk list it rejects.
    pub open spec fn new_error(d: Seq<Seq<u8>>) -> Error {
        if d.len() == 0 {
            Error::EmptyInput
        } else if !(exists|w: int| 0 <= w && #[trigger] (w * w) == d.len()) {
            Error::NotSquareCount
        } else if !equal_lens(d) {
            Error::UnequalChunkSize
        } else {
            Error::CodecConstructionFailure
        }
    }

    /// Create a new data square from the flat chunk list, in row-major fill
    /// order. The chunk count must be a positive perfect square, all chunks
    /// equally sized, and the width within the codec's reach.
    pub fn new(original_data: Matrix2D) -> (r: Result<DataSquare, Error>)
        ensures
            r is Ok <==> (original_data@.len() >= 1 && (exists|w: int|
                0 <= w && #[trigger] (w * w) == original_data@.len() && w <= 128) && equal_lens(
                original_data.deep_view(),
            )),
            r matches Ok(sq) ==> {
                &&& sq.wf()
                &&& !sq.is_extended()
                &&& sq.width == sq.original_width
                &&& sq.width * sq.width == original_data@.len()
                &&& sq.chunk_size == original_data.deep_view()[0].len()
                &&& forall|i: int, j: int|
                    0 <= i < sq.width && 0 <= j < sq.width ==> #[trigger] sq.rows()[i][j]
                        == original_data.deep_view()[i * sq.width + j]
            },
            r matches Err(e) ==> e == Self::new_error(original_data.deep_view()),
    {
        if original_data.len() == 0 {
            return Err(Error::EmptyInput);
        }
        let width = isqrt(original_data.len());
        if width * width != original_data.len() {
            proof {
                lemma_no_square_between(original_data@.len() as int, width as int);
            }
            return Err(Error::NotSquareCount);
        }
        proof {
            assert(width >= 1) by (nonlinear_arith)
                requires
                    width * width == original_data@.len(),
                    original_data@.len() >= 1,
            ;
        }
        let chunk_size = original_data[0].len();
        let mut i: usize = 0;
        while i < original_data.len()
            invariant
                0 <= i <= original_data@.len(),
                chunk_size == original_data.deep_view()[0].len(),
                original_data@.len() >= 1,
                width * width == original_data@.len(),
                forall|k: int|
                    0 <= k < i ==> #[trigger] original_data.deep_view()[k].len() == chunk_size,
            decreases original_data@.len() - i,
        {
            if original_data[i].len() != chunk_size {
                proof {
                    assert(original_data.deep_view()[i as int].len() != original_data.deep_view()[0].len());
                    if equal_lens(original_data.deep_view()) {
                        assert(false);
                    }
                    assert((width as int) * (width as int) == original_data@.len());
                }
                return Err(Error::UnequalChunkSize);
            }
            i += 1;
        }
        assert(equal_lens(original_data.deep_view()));
        let codec = match codec::new(width) {
            Ok(c) => c,
            Err(e) => {
                proof {
                    assert((width as int) * (width as int) == original_data@.len());
                    assert(width * width == original_data@.len() && width > 128);
                    assert forall|w: int|
                        0 <= w && #[trigger] (w * w) == original_data@.len() implies w > 128 by {
                        assert(w == width) by (nonlinear_arith)
                            requires
                                0 <= w,
                                0 <= width,
                                w * w == width * width,
                        ;
                    }
                }
                return Err(e);
            },
        };
        let ghost d = original_data.deep_view();
        let mut square_row: Matrix3D = Vec::new();
        i = 0;
        while i < width
            invariant
                0 <= i <= width,
                1 <= width,
                width * width == original_data@.len(),
                original_data@.len() <= usize::MAX,
                d == original_data.deep_view(),
                chunk_size == d[0].len(),
                forall|k: int| 0 <= k < d.len() ==> #[trigger] d[k].len() == chunk_size,
                square_row@.len() == i,
                forall|a: int| 0 <= a < i ==> #[trigger] square_row.deep_view()[a].len() == width,
                forall|a: int, b: int|
                    0 <= a < i && 0 <= b < width ==> #[trigger] square_row.deep_view()[a][b] == d[a
                        * width + b],
            decreases width - i,
        {
            let mut row: Matrix2D = Vec::new();
            let mut j: usize = 0;
            while j < width
                invariant
                    0 <= j <= width,
                    0 <= i < width,
                    1 <= width,
                    width * width == original_data@.len(),
                    original_data@.len() <= usize::MAX,
                    d == original_data.deep_view(),
                    row@.len() == j,
                    forall|b: int|
                        0 <= b < j ==> #[trigger] row.deep_view()[b] == d[i as int * width + b],
                decreases width - j,
            {
                proof {
                    lemma_grid_index(i as int, j as int, width as int);
                }
                let ghost pre = row.deep_view();
                let c = codec::clone_chunk(&original_data[i * width + j]);
                let ghost cv = c@;
                row.push(c);
                proof {
                    assert(cv == d[i as int * width + j]);
                    assert(row.deep_view() =~= pre.push(cv));
                }
                j += 1;
            }
            let ghost rpre = square_row.deep_view();
            let ghost rowv = row.deep_view();
            square_row.push(row);
            proof {
                assert(square_row.deep_view() =~= rpre.push(rowv));
            }
            i += 1;
        }
        let square_col = transpose(&square_row, width);
        let sq = DataSquare {
            square_row,
            square_col,
            width,
            original_width: width,
            chunk_size,
            row_roots: Vec::new(),
            col_roots: Vec::new(),
            codec,
        };
        proof {
            assert((width as int) * (width as int) == original_data@.len());
            assert forall|a: int, b: int|
                0 <= a < width && 0 <= b < width implies #[trigger] sq.rows()[a][b].len()
                == chunk_size by {
                lemma_grid_index(a, b, width as int);
            }
            assert(grid_wf(sq.rows(), width as nat, chunk_size as nat));
            assert forall|a: int, b: int|
                0 <= a < width && 0 <= b < width implies #[trigger] sq.cols()[a][b].len()
                == chunk_size by {
                assert(sq.cols()[a][b] == sq.rows()[b][a]);
            }
            assert(grid_wf(sq.cols(), width as nat, chunk_size as nat));
        }
        Ok(sq)
    }

    /// The error `erasure_extend_square` reports when it refuses to extend.
    pub open spec fn extend_error(sq: DataSquare) -> Error {
        if sq.width != sq.original_width {
            Error::AlreadyExtended
        } else if sq.chunk_size == 0 {
            Error::CodecConstructionFailure
        } else {
            Error::CrossParityMismatch
        }
    }

    /// Extend the original square horizontally and vertically: erasure-code
    /// every row and every column, fill the cross-parity quadrant by both
    /// derivations and check that they agree, and bind every row and column
    /// of the doubled square to its root. Runs exactly once; an extended
    /// square is rejected.
    #[verifier::rlimit(60)]
    pub fn erasure_extend_square(&mut self) -> (r: Result<(), Error>)
        requires
            old(self).wf(),
        ensures
            final(self).wf(),
            r is Err ==> *final(self) == *old(self),
            r is Ok <==> (old(self).width == old(self).original_width && old(self).chunk_size >= 1
                && cross_consistent(old(self).rows(), old(self).original_width as int)),
            r matches Err(e) ==> e == Self::extend_error(*old(self)),
            r matches Ok(()) ==> {
                &&& final(self).is_extended()
                &&& final(self).width == 2 * old(self).width
                &&& final(self).original_width == old(self).width
                &&& final(self).chunk_size == old(self).chunk_size
                &&& forall|i: int, j: int|
                    #![trigger final(self).rows()[i][j]]
                    0 <= i < old(self).width && 0 <= j < old(self).width
                        ==> final(self).rows()[i][j] == old(self).rows()[i][j]
                &&& final(self).rows_are_codewords()
                &&& final(self).cols_are_codewords()
            },
    {
        if self.width != self.original_width {
            return Err(Error::AlreadyExtended);
        }
        if self.chunk_size == 0 {
            return Err(Error::CodecConstructionFailure);
        }
        let n = self.width;
        let ghost d = self.rows();
        let ghost c0 = self.cols();
        let ghost cs = self.chunk_size;
        proof {
            assert forall|i: int| 0 <= i < n implies equal_lens(#[trigger] self.rows()[i]) by {
                assert forall|k: int|
                    0 <= k < self.rows()[i].len() implies #[trigger] self.rows()[i][k].len()
                    == self.rows()[i][0].len() by {
                    assert(self.rows()[i][k].len() == self.chunk_size);
                    assert(self.rows()[i][0].len() == self.chunk_size);
                }
            }
            assert forall|j: int| 0 <= j < n implies equal_lens(#[trigger] self.cols()[j]) by {
                assert forall|k: int|
                    0 <= k < self.cols()[j].len() implies #[trigger] self.cols()[j][k].len()
                    == self.cols()[j][0].len() by {
                    assert(self.cols()[j][k].len() == self.chunk_size);
                    assert(self.cols()[j][0].len() == self.chunk_size);
                }
            }
        }
        // the helpers' contracts rule their error cases out here: every row and
        // column has the codec's share count, equal chunk sizes, and chunks of
        // at least one byte
        let top = match extend_each(&self.codec, &self.square_row) {
            Ok(t) => t,
            Err(_) => {
                return Err(Error::CrossParityMismatch);
            },
        };
        let colext = match extend_each(&self.codec, &self.square_col) {
            Ok(c) => c,
            Err(_) => {
                return Err(Error::CrossParityMismatch);
            },
        };
        let ghost topv = top.deep_view();
        let ghost colextv = colext.deep_view();
        proof {
            assert forall|i: int|
                #![trigger d[i]]
                0 <= i < n implies topv[i] == codeword_of(d[i]) && codeword_of(d[i]).take(
                n as int,
            ) == d[i] && codeword_of(d[i]).len() == 2 * n && topv[i].len() == 2 * n by {
                assert(self.rows()[i] == d[i]);
                assert(top.deep_view()[i] == codeword_of(self.rows()[i]));
                assert(codeword_of(self.rows()[i]).take(n as int) == self.rows()[i]);
                assert(top.deep_view()[i].len() == 2 * n);
            }
            assert forall|i: int, k2: int|
                #![trigger topv[i][k2]]
                0 <= i < n && 0 <= k2 < 2 * n implies topv[i][k2].len() == cs by {
                assert(self.rows()[i][0].len() == cs);
                assert(top.deep_view()[i][k2].len() == self.rows()[i][0].len());
            }
            assert forall|j: int|
                #![trigger c0[j]]
                0 <= j < n implies colextv[j] == codeword_of(c0[j]) && codeword_of(c0[j]).take(
                n as int,
            ) == c0[j] && codeword_of(c0[j]).len() == 2 * n && colextv[j].len() == 2 * n && c0[j]
                == orig_col(d, j, n as int) by {
                assert(self.cols()[j] == c0[j]);
                assert(colext.deep_view()[j] == codeword_of(self.cols()[j]));
                assert(codeword_of(self.cols()[j]).take(n as int) == self.cols()[j]);
                assert(colext.deep_view()[j].len() == 2 * n);
                assert(self.cols()[j] =~= orig_col(d, j, n as int));
            }
            assert forall|j: int, k2: int|
                #![trigger colextv[j][k2]]
                0 <= j < n && 0 <= k2 < 2 * n implies colextv[j][k2].len() == cs by {
                assert(self.cols()[j][0].len() == cs);
                assert(colext.deep_view()[j][k2].len() == self.cols()[j][0].len());
            }
        }
        let bl = gather_tails(&colext, n);
        let rt = gather_tails(&top, n);
        let ghost blv = bl.deep_view();
        let ghost rtv = rt.deep_view();
        proof {
            assert forall|k: int|
                #![trigger blv[k]]
                0 <= k < n implies blv[k] == bottom_left_row(d, k, n as int) && blv[k].len() == n
                && equal_lens(blv[k]) && blv[k][0].len() == cs by {
                assert forall|j: int|
                    0 <= j < n implies bl.deep_view()[k][j] == bottom_left_row(d, k, n as int)[j]
                    && bl.deep_view()[k][j].len() == cs by {
                    assert(bl.deep_view()[k][j] == colext.deep_view()[j][n + k]);
                    assert(colextv[j] == codeword_of(c0[j]));
                    assert(c0[j] == orig_col(d, j, n as int));
                    assert(colextv[j][n + k].len() == cs);
                }
                assert(bl.deep_view()[k] =~= bottom_left_row(d, k, n as int));
                assert forall|a: int, b: int|
                    0 <= a < n && 0 <= b < n implies blv[k][a].len() == blv[k][b].len() by {}
            }
            assert forall|m: int|
                #![trigger rtv[m]]
                0 <= m < n implies rtv[m] == right_top_col(d, m, n as int) && rtv[m].len() == n
                && equal_lens(rtv[m]) && rtv[m][0].len() == cs by {
                assert forall|i: int|
                    0 <= i < n implies rt.deep_view()[m][i] == right_top_col(d, m, n as int)[i]
                    && rt.deep_view()[m][i].len() == cs by {
                    assert(rt.deep_view()[m][i] == top.deep_view()[i][n + m]);
                    assert(topv[i] == codeword_of(d[i]));
                    assert(topv[i][n + m].len() == cs);
                }
                assert(rt.deep_view()[m] =~= right_top_col(d, m, n as int));
                assert forall|a: int, b: int|
                    0 <= a < n && 0 <= b < n implies rtv[m][a].len() == rtv[m][b].len() by {}
            }
        }
        let bottom = match extend_each(&self.codec, &bl) {
            Ok(b) => b,
            Err(_) => {
                return Err(Error::CrossParityMismatch);
            },
        };
        let right = match extend_each(&self.codec, &rt) {
            Ok(x) => x,
            Err(_) => {
                return Err(Error::CrossParityMismatch);
            },
        };
        let ghost bottomv = bottom.deep_view();
        let ghost rightv = right.deep_view();
        proof {
            assert forall|k: int|
                #![trigger bottomv[k]]
                0 <= k < n implies bottomv[k] == codeword_of(blv[k]) && codeword_of(blv[k]).take(
                n as int,
            ) == blv[k] && bottomv[k].len() == 2 * n by {
                assert(bottom.deep_view()[k] == codeword_of(bl.deep_view()[k]));
                assert(codeword_of(bl.deep_view()[k]).take(n as int) == bl.deep_view()[k]);
                assert(bottom.deep_view()[k].len() == 2 * n);
            }
            assert forall|k: int, k2: int|
                #![trigger bottomv[k][k2]]
                0 <= k < n && 0 <= k2 < 2 * n implies bottomv[k][k2].len() == cs by {
                assert(bottom.deep_view()[k][k2].len() == bl.deep_view()[k][0].len());
                assert(blv[k][0].len() == cs);
            }
            assert forall|m: int|
                #![trigger rightv[m]]
                0 <= m < n implies rightv[m] == codeword_of(rtv[m]) && codeword_of(rtv[m]).take(
                n as int,
            ) == rtv[m] && rightv[m].len() == 2 * n by {
                assert(right.deep_view()[m] == codeword_of(rt.deep_view()[m]));
                assert(codeword_of(rt.deep_view()[m]).take(n as int) == rt.deep_view()[m]);
                assert(right.deep_view()[m].len() == 2 * n);
            }
        }
        let mut m: usize = 0;
        while m < n
            invariant
                0 <= m <= n,
                1 <= n <= 128,
                d.len() == n,
                *self == *old(self),
                old(self).wf(),
                old(self).width == old(self).original_width,
                old(self).chunk_size >= 1,
                n == old(self).width,
                d == old(self).rows(),
                bottom@.len() == n,
                right@.len() == n,
                bottomv == bottom.deep_view(),
                rightv == right.deep_view(),
                forall|k: int| #![trigger bottomv[k]] 0 <= k < n ==> bottomv[k].len() == 2 * n
                    && bottomv[k] == codeword_of(bottom_left_row(d, k, n as int)),
                forall|mm: int| #![trigger rightv[mm]] 0 <= mm < n ==> rightv[mm].len() == 2 * n
                    && rightv[mm] == codeword_of(right_top_col(d, mm, n as int)),
                forall|k: int, mm: int|
                    #![trigger bottomv[k][n + mm], rightv[mm][n + k]]
                    0 <= k < n && 0 <= mm < m ==> bottomv[k][n + mm] == rightv[mm][n + k],
            decreases n - m,
        {
            let mut k: usize = 0;
            while k < n
                invariant
                    0 <= k <= n,
                    0 <= m < n,
                    1 <= n <= 128,
                    d.len() == n,
                    *self == *old(self),
                    old(self).wf(),
                    old(self).width == old(self).original_width,
                    old(self).chunk_size >= 1,
                    n == old(self).width,
                    d == old(self).rows(),
                    bottom@.len() == n,
                    right@.len() == n,
                    bottomv == bottom.deep_view(),
                    rightv == right.deep_view(),
                    forall|a: int| #![trigger bottomv[a]] 0 <= a < n ==> bottomv[a].len() == 2 * n
                        && bottomv[a] == codeword_of(bottom_left_row(d, a, n as int)),
                    forall|a: int| #![trigger rightv[a]] 0 <= a < n ==> rightv[a].len() == 2 * n
                        && rightv[a] == codeword_of(right_top_col(d, a, n as int)),
                    forall|kk: int|
                        #![trigger bottomv[kk][n + m]]
                        0 <= kk < k ==> bottomv[kk][n + m] == rightv[m as int][n + kk],
                decreases n - k,
            {
                proof {
                    assert(bottom@[k as int]@.len() == bottom.deep_view()[k as int].len());
                    assert(right@[m as int]@.len() == right.deep_view()[m as int].len());
                }
                if !crate::bytes_eq(&bottom[k][n + m], &right[m][n + k]) {
                    proof {
                        assert(bottomv[k as int][n + m] != rightv[m as int][n + k]);
                        if cross_consistent(d, n as int) {
                            assert(codeword_of(bottom_left_row(d, k as int, n as int))[n + m]
                                == codeword_of(right_top_col(d, m as int, n as int))[n + k]);
                            assert(false);
                        }
                    }
                    return Err(Error::CrossParityMismatch);
                }
                proof {
                    assert(bottomv[k as int][n + m] == rightv[m as int][n + k]);
                }
                k += 1;
            }
            m += 1;
        }
        proof {
            assert forall|k: int, mm: int|
                0 <= k < n && 0 <= mm < n implies codeword_of(
                #[trigger] bottom_left_row(d, k, n as int),
            )[n + mm] == codeword_of(#[trigger] right_top_col(d, mm, n as int))[n + k] by {
                assert(bottomv[k][n + mm] == rightv[mm][n + k]);
            }
            assert(cross_consistent(d, n as int));
        }
        let ghost topq = top@;
        let ghost bottomq = bottom@;
        let mut rows_new = top;
        let mut bottom_moved = bottom;
        rows_new.append(&mut bottom_moved);
        let w2 = 2 * n;
        proof {
            assert(rows_new@ == topq + bottomq);
            assert(rows_new@.len() == 2 * n);
            assert forall|i: int|
                0 <= i < 2 * n implies #[trigger] rows_new.deep_view()[i] == (if i < n {
                topv[i]
            } else {
                bottomv[i - n]
            }) by {
                if i < n {
                    assert(rows_new@[i] == topq[i]);
                    assert(rows_new.deep_view()[i] == topq[i].deep_view());
                    assert(topv[i] == topq[i].deep_view());
                } else {
                    assert(rows_new@[i] == bottomq[i - n]);
                    assert(rows_new.deep_view()[i] == bottomq[i - n].deep_view());
                    assert(bottomv[i - n] == bottomq[i - n].deep_view());
                }
            }
            assert forall|i: int|
                0 <= i < w2 implies #[trigger] rows_new.deep_view()[i].len() == w2 by {}
        }
        let cols_new = transpose(&rows_new, w2);
        proof {
            assert forall|i: int|
                0 <= i < w2 implies (#[trigger] cols_new.deep_view()[i]).len() > 0 by {}
            assert forall|i: int|
                0 <= i < w2 implies (#[trigger] rows_new.deep_view()[i]).len() > 0 by {}
        }
        let row_roots = match all_roots(&rows_new) {
            Ok(x) => x,
            Err(_) => {
                return Err(Error::CrossParityMismatch);
            },
        };
        let col_roots = match all_roots(&cols_new) {
            Ok(x) => x,
            Err(_) => {
                return Err(Error::CrossParityMismatch);
            },
        };
        let ghost rnv = rows_new.deep_view();
        let ghost cnv = cols_new.deep_view();
        let ghost rrv = row_roots.deep_view();
        let ghost crv = col_roots.deep_view();
        self.square_row = rows_new;
        self.square_col = cols_new;
        self.original_width = n;
        self.width = w2;
        self.row_roots = row_roots;
        self.col_roots = col_roots;
        proof {
            assert(self.rows() == rnv);
            assert(self.cols() == cnv);
            assert(self.row_roots.deep_view() == rrv);
            assert(self.col_roots.deep_view() == crv);
            // every row of the doubled square is the codeword of its first half
            assert forall|i: int|
                0 <= i < w2 implies #[trigger] self.rows()[i] == codeword_of(
                self.rows()[i].take(n as int),
            ) by {
                if i < n {
                    assert(rnv[i] == topv[i]);
                    assert(topv[i] == codeword_of(d[i]));
                    assert(self.rows()[i].take(n as int) == d[i]);
                } else {
                    let k = i - n;
                    assert(rnv[i] == bottomv[k]);
                    assert(bottomv[k] == codeword_of(blv[k]));
                    assert(self.rows()[i].take(n as int) == blv[k]);
                }
            }
            // chunk sizes survive into every quadrant
            assert forall|i: int, j: int|
                0 <= i < w2 && 0 <= j < w2 implies #[trigger] self.rows()[i][j].len() == cs by {
                if i < n {
                    assert(rnv[i] == topv[i]);
                    assert(topv[i][j].len() == cs);
                } else {
                    assert(rnv[i] == bottomv[i - n]);
                    assert(bottomv[i - n][j].len() == cs);
                }
            }
            assert(grid_wf(self.rows(), w2 as nat, cs as nat));
            assert forall|i: int, j: int|
                0 <= i < w2 && 0 <= j < w2 implies #[trigger] self.cols()[i][j].len() == cs by {
                assert(self.cols()[i][j] == self.rows()[j][i]);
            }
            assert(grid_wf(self.cols(), w2 as nat, cs as nat));
            // the original quadrant is unchanged
            assert forall|i: int, j: int|
                #![trigger self.rows()[i][j]]
                0 <= i < n && 0 <= j < n implies self.rows()[i][j] == d[i][j] by {
                assert(rnv[i] == topv[i]);
                assert(topv[i] == codeword_of(d[i]));
                assert(codeword_of(d[i]).take(n as int) == d[i]);
                assert(codeword_of(d[i])[j] == codeword_of(d[i]).take(n as int)[j]);
            }
            // left columns complete the codewords of the original columns
            assert forall|j: int|
                0 <= j < n implies #[trigger] self.cols()[j] == codeword_of(
                orig_col(d, j, n as int),
            ) by {
                assert(c0[j] == orig_col(d, j, n as int));
                assert forall|i: int|
                    0 <= i < w2 implies cnv[j][i] == codeword_of(orig_col(d, j, n as int))[i] by {
                    assert(cnv[j][i] == rnv[i][j]);
                    assert(codeword_of(orig_col(d, j, n as int)) == codeword_of(c0[j]));
                    if i < n {
                        assert(rnv[i] == topv[i]);
                        assert(topv[i] == codeword_of(d[i]));
                        assert(codeword_of(d[i])[j] == codeword_of(d[i]).take(n as int)[j]);
                        assert(rnv[i][j] == d[i][j]);
                        assert(codeword_of(c0[j])[i] == codeword_of(c0[j]).take(n as int)[i]);
                        assert(codeword_of(c0[j]).take(n as int) == c0[j]);
                        assert(c0[j][i] == orig_col(d, j, n as int)[i]);
                        assert(orig_col(d, j, n as int)[i] == d[i][j]);
                    } else {
                        let k = i - n;
                        assert(rnv[i] == bottomv[k]);
                        assert(bottomv[k] == codeword_of(blv[k]));
                        assert(codeword_of(blv[k])[j] == codeword_of(blv[k]).take(n as int)[j]);
                        assert(codeword_of(blv[k]).take(n as int) == blv[k]);
                        assert(bottomv[k][j] == blv[k][j]);
                        assert(blv[k] == bottom_left_row(d, k, n as int));
                        assert(bottom_left_row(d, k, n as int)[j] == codeword_of(
                            orig_col(d, j, n as int),
                        )[n + k]);
                    }
                }
                assert(codeword_of(orig_col(d, j, n as int)).len() == 2 * n) by {
                    assert(codeword_of(orig_col(d, j, n as int)) == codeword_of(c0[j]));
                }
                assert(cnv[j] =~= codeword_of(orig_col(d, j, n as int)));
            }
            // right columns complete the codewords of the row-parity columns
            assert forall|m: int|
                0 <= m < n implies #[trigger] self.cols()[n + m] == codeword_of(
                right_top_col(d, m, n as int),
            ) by {
                assert(rtv[m] == right_top_col(d, m, n as int));
                assert(codeword_of(right_top_col(d, m, n as int)) == codeword_of(rtv[m]));
                assert(rightv[m] == codeword_of(rtv[m]));
                assert(rightv[m].len() == 2 * n);
                assert forall|i: int|
                    0 <= i < w2 implies cnv[n + m][i] == codeword_of(rtv[m])[i] by {
                    assert(cnv[n + m][i] == rnv[i][n + m]);
                    assert(rightv[m] == codeword_of(rtv[m]));
                    assert(rightv[m].len() == 2 * n);
                    if i < n {
                        assert(rnv[i] == topv[i]);
                        assert(topv[i] == codeword_of(d[i]));
                        assert(right_top_col(d, m, n as int)[i] == codeword_of(d[i])[n + m]);
                        assert(codeword_of(rtv[m]).take(n as int) == rtv[m]);
                        assert(codeword_of(rtv[m])[i] == codeword_of(rtv[m]).take(n as int)[i]);
                    } else {
                        let k = i - n;
                        assert(rnv[i] == bottomv[k]);
                        assert(bottomv[k][n + m] == rightv[m][n + k]);
                        assert(rightv[m] == codeword_of(rtv[m]));
                    }
                }
                assert(codeword_of(rtv[m]).len() == 2 * n) by {
                    assert(rightv[m] == codeword_of(rtv[m]));
                }
                assert(cnv[n + m] =~= codeword_of(rtv[m]));
            }
            // hence every column completes its own first half's codeword
            assert forall|j: int|
                0 <= j < w2 implies #[trigger] self.cols()[j] == codeword_of(
                self.cols()[j].take(n as int),
            ) by {
                if j < n {
                    assert(self.cols()[j] == codeword_of(orig_col(d, j, n as int)));
                    assert(codeword_of(c0[j]).take(n as int) == c0[j]);
                    assert(codeword_of(orig_col(d, j, n as int)) == codeword_of(c0[j]));
                    assert(self.cols()[j].take(n as int) == orig_col(d, j, n as int));
                } else {
                    let m = j - n;
                    assert(self.cols()[j] == codeword_of(right_top_col(d, m, n as int)));
                    assert(codeword_of(rtv[m]).take(n as int) == rtv[m]);
                    assert(codeword_of(right_top_col(d, m, n as int)) == codeword_of(rtv[m]));
                    assert(self.cols()[j].take(n as int) == right_top_col(d, m, n as int));
                }
            }
        }
        Ok(())
    }
}

/// Duality law: in every well-formed square the two storage orders mirror
/// each other, `square_row[i][j] == square_col[j][i]` at every cell.
pub proof fn lemma_duality(sq: DataSquare)
    requires
        sq.wf(),
    ensures
        dual(sq.rows(), sq.cols(), sq.width as nat),
        dual(sq.cols(), sq.rows(), sq.width as nat),
{
}

/// Represent an extended piece of data: a data square after extension,
/// carrying one root per row and one per column.
#[derive(Debug)]
pub struct ExtendedDataSquare {
    pub data_square: DataSquare,
}

impl ExtendedDataSquare {
    /// A well-formed extended square.
    pub open spec fn wf(&self) -> bool {
        &&& self.data_square.wf()
        &&& self.data_square.is_extended()
    }
}

} // verus!
