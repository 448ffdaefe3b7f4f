//! The two-dimensional scheme tied together: compute an extended data square
//! from original chunks, import a sparse one, and repair it against trusted
//! row and column roots by the iterative row/column reconstruction fixed
//! point.

use vstd::prelude::*;

use crate::codec::{
    self, codeword_of, consistent_with, present_count, Codec, ReedSolomonCodec,
};
use crate::data_square::{
    chunks_root, col_of, cross_consistent, DataSquare, ExtendedDataSquare, grid_wf,
};
use crate::merkle_tree::{root_spec, MerkleTreeImpl};
use crate::{Error, Matrix2D};

verus! {

broadcast use crate::lemma_bytes_deep_view, crate::lemma_opt_bytes_deep_view, crate::lemma_matrix_deep_view_index, crate::lemma_sparse_deep_view_index, crate::data_square::lemma_grid_deep_view_index;

/// Indexing a sparse grid's deep view reads the row's deep view.
pub broadcast proof fn lemma_sparse_grid_deep_view_index(m: Vec<Vec<Option<Vec<u8>>>>, i: int)
    requires
        0 <= i < m@.len(),
    ensures
        #[trigger] m.deep_view()[i] == m@[i].deep_view(),
{
}

/// The chunks of a fully present line, in order.
pub open spec fn unwrap_row(s: Seq<Option<Seq<u8>>>) -> Seq<Seq<u8>> {
    Seq::new(s.len(), |j: int| s[j]->0)
}

/// Every slot of the line holds a chunk.
pub open spec fn row_complete(s: Seq<Option<Seq<u8>>>) -> bool {
    forall|j: int| 0 <= j < s.len() ==> #[trigger] s[j] is Some
}

/// At most `s.len()` slots are present, with equality exactly on complete
/// lines.
proof fn lemma_present_count_bounds(s: Seq<Option<Seq<u8>>>)
    ensures
        present_count(s) <= s.len(),
        present_count(s) == s.len() <==> row_complete(s),
    decreases s.len(),
{
    if s.len() > 0 {
        lemma_present_count_bounds(s.drop_last());
        assert forall|j: int| 0 <= j < s.len() - 1 implies s.drop_last()[j] == s[j] by {}
        if present_count(s) == s.len() {
            assert forall|j: int| 0 <= j < s.len() implies #[trigger] s[j] is Some by {
                if j < s.len() - 1 {
                    assert(s.drop_last()[j] is Some);
                }
            }
        }
        if row_complete(s) {
            assert(row_complete(s.drop_last()));
            assert(s.last() is Some);
        }
    }
}

/// A line with a present slot has one at some index.
proof fn lemma_present_count_pos(s: Seq<Option<Seq<u8>>>)
    ensures
        present_count(s) > 0 ==> exists|j: int| 0 <= j < s.len() && #[trigger] s[j] is Some,
    decreases s.len(),
{
    if s.len() > 0 {
        lemma_present_count_pos(s.drop_last());
        if present_count(s) > 0 {
            if s.last() is Some {
                assert(s[s.len() - 1] is Some);
            } else {
                assert(present_count(s.drop_last()) > 0);
                let j = choose|j: int| 0 <= j < s.len() - 1 && #[trigger] s.drop_last()[j]
                    is Some;
                assert(s[j] is Some);
            }
        }
    }
}

/// What a line must be for repair to trust it against `root`: the right
/// width, a codeword of its own first half, agreement with every present
/// slot, the root it is committed by, and enough present shares to pin it.
pub open spec fn line_premise(
    tr: Seq<Seq<u8>>,
    line: Seq<Option<Seq<u8>>>,
    root: Seq<u8>,
    n: nat,
) -> bool {
    &&& tr.len() == 2 * n
    &&& tr == codeword_of(tr.take(n as int))
    &&& consistent_with(line, tr)
    &&& root == root_spec(tr)
    &&& present_count(line) >= n
}

/// Count the present slots of a line.
fn count_present(row: &Vec<Option<Vec<u8>>>) -> (c: usize)
    ensures
        c == present_count(row.deep_view()),
{
    let ghost s = row.deep_view();
    let mut c: usize = 0;
    let mut i: usize = 0;
    while i < row.len()
        invariant
            0 <= i <= row@.len(),
            s == row.deep_view(),
            c == present_count(s.take(i as int)),
            c <= i,
        decreases row@.len() - i,
    {
        proof {
            crate::codec::lemma_present_count_take_step(s, i as int);
        }
        match &row[i] {
            Some(_) => {
                c = c + 1;
            },
            None => {},
        }
        i += 1;
    }
    proof {
        assert(s.take(row@.len() as int) =~= s);
    }
    c
}

/// Copy a sparse line.
fn clone_sparse(row: &Vec<Option<Vec<u8>>>) -> (r: Vec<Option<Vec<u8>>>)
    ensures
        r.deep_view() == row.deep_view(),
        r@.len() == row@.len(),
{
    let mut r: Vec<Option<Vec<u8>>> = Vec::new();
    let mut i: usize = 0;
    while i < row.len()
        invariant
            0 <= i <= row@.len(),
            r@.len() == i,
            r.deep_view() =~= row.deep_view().take(i as int),
        decreases row@.len() - i,
    {
        let ghost pre = r.deep_view();
        let c: Option<Vec<u8>> = match &row[i] {
            Some(c) => Some(codec::clone_chunk(c)),
            None => None,
        };
        let ghost cv = c.deep_view();
        r.push(c);
        proof {
            assert(cv == row.deep_view()[i as int]);
            assert(r.deep_view() =~= pre.push(cv));
            assert(r.deep_view() =~= row.deep_view().take(i + 1));
        }
        i += 1;
    }
    proof {
        assert(row.deep_view().take(row@.len() as int) =~= row.deep_view());
    }
    r
}

/// The chunks of a complete line.
fn unwrap_line(row: &Vec<Option<Vec<u8>>>) -> (r: Matrix2D)
    requires
        row_complete(row.deep_view()),
    ensures
        r@.len() == row@.len(),
        r.deep_view() == unwrap_row(row.deep_view()),
{
    let mut r: Matrix2D = Vec::new();
    let mut i: usize = 0;
    while i < row.len()
        invariant
            0 <= i <= row@.len(),
            row_complete(row.deep_view()),
            r@.len() == i,
            r.deep_view() =~= unwrap_row(row.deep_view()).take(i as int),
        decreases row@.len() - i,
    {
        let ghost pre = r.deep_view();
        proof {
            assert(row.deep_view()[i as int] is Some);
        }
        let c = match &row[i] {
            Some(c) => codec::clone_chunk(c),
            None => {
                return r;
            },
        };
        let ghost cv = c@;
        r.push(c);
        proof {
            assert(cv == unwrap_row(row.deep_view())[i as int]);
            assert(r.deep_view() =~= pre.push(cv));
            assert(r.deep_view() =~= unwrap_row(row.deep_view()).take(i + 1));
        }
        i += 1;
    }
    proof {
        assert(unwrap_row(row.deep_view()).take(row@.len() as int) =~= unwrap_row(
            row.deep_view(),
        ));
    }
    r
}

/// A complete line from a sparse one: present chunks kept, missing slots
/// taken from the reconstructed originals and parity.
fn merge_line(
    row: &Vec<Option<Vec<u8>>>,
    originals: &Matrix2D,
    parity: &Matrix2D,
    n: usize,
) -> (full: Matrix2D)
    requires
        row@.len() == 2 * n,
        originals@.len() == n,
        parity@.len() == n,
    ensures
        full@.len() == 2 * n,
        forall|j: int|
            0 <= j < 2 * n ==> #[trigger] full.deep_view()[j] == (if row.deep_view()[j]
                is Some {
                row.deep_view()[j]->0
            } else if j < n {
                originals.deep_view()[j]
            } else {
                parity.deep_view()[j - n]
            }),
{
    let mut full: Matrix2D = Vec::new();
    let mut j: usize = 0;
    while j < row.len()
        invariant
            0 <= j <= row@.len(),
            row@.len() == 2 * n,
            originals@.len() == n,
            parity@.len() == n,
            full@.len() == j,
            forall|b: int|
                0 <= b < j ==> #[trigger] full.deep_view()[b] == (if row.deep_view()[b]
                    is Some {
                    row.deep_view()[b]->0
                } else if b < n {
                    originals.deep_view()[b]
                } else {
                    parity.deep_view()[b - n]
                }),
        decreases row@.len() - j,
    {
        let ghost pre = full.deep_view();
        let c = match &row[j] {
            Some(c) => codec::clone_chunk(c),
            None => {
                if j < n {
                    codec::clone_chunk(&originals[j])
                } else {
                    codec::clone_chunk(&parity[j - n])
                }
            },
        };
        let ghost cv = c@;
        full.push(c);
        proof {
            assert(full.deep_view() =~= pre.push(cv));
        }
        j += 1;
    }
    full
}

/// All slots of a complete line, present.
fn line_of_some(full: &Matrix2D) -> (r: Vec<Option<Vec<u8>>>)
    ensures
        r@.len() == full@.len(),
        forall|j: int|
            0 <= j < full@.len() ==> #[trigger] r.deep_view()[j] == Some(full.deep_view()[j]),
{
    let mut r: Vec<Option<Vec<u8>>> = Vec::new();
    let mut j: usize = 0;
    while j < full.len()
        invariant
            0 <= j <= full@.len(),
            r@.len() == j,
            forall|b: int|
                0 <= b < j ==> #[trigger] r.deep_view()[b] == Some(full.deep_view()[b]),
        decreases full@.len() - j,
    {
        let ghost pre = r.deep_view();
        let c = codec::clone_chunk(&full[j]);
        let ghost cv = c@;
        r.push(Some(c));
        proof {
            assert(r.deep_view() =~= pre.push(Some(cv)));
        }
        j += 1;
    }
    r
}

/// What one pass step did to a line.
///
/// `Untouched` — the line was complete and its root verified, or it was
/// left alone for want of shares; `recovered` holds the full line where a
/// decode succeeded and verified.
struct LineOutcome {
    progress: bool,
    verified: bool,
    recovered: Option<Matrix2D>,
}

/// One repair step on one line, against its trusted root: verify it if it
/// is complete, decode and verify it if enough shares are present, and
/// leave it for a later pass otherwise. A verified reconstruction is handed
/// back complete; a root mismatch on a decodable or complete line is fatal.
fn process_line(
    line: &Vec<Option<Vec<u8>>>,
    codec: &ReedSolomonCodec,
    n: usize,
    root: &Vec<u8>,
    sz: Ghost<usize>,
) -> (r: Result<LineOutcome, Error>)
    requires
        codec.wf(),
        n == codec.data_len_spec(),
        1 <= n <= 128,
        line@.len() == 2 * n,
        sz@ >= 1,
        forall|j: int|
            #![trigger line.deep_view()[j]]
            0 <= j < 2 * n && line.deep_view()[j] is Some ==> line.deep_view()[j]->0.len()
                == sz@,
    ensures
        r matches Ok(o) ==> {
            &&& (o.recovered matches Some(full) ==> {
                &&& full@.len() == 2 * n
                &&& consistent_with(line.deep_view(), full.deep_view())
                &&& root_spec(full.deep_view()) == root@
                &&& o.progress
                &&& o.verified
                &&& forall|j: int|
                    0 <= j < 2 * n ==> #[trigger] full.deep_view()[j].len() == sz@
            })
            &&& (o.recovered is None ==> !o.progress)
            &&& (o.verified && o.recovered is None ==> row_complete(line.deep_view())
                && root_spec(unwrap_row(line.deep_view())) == root@)
            &&& (o.progress ==> o.recovered is Some && !row_complete(line.deep_view()))
            &&& (o.verified ==> o.progress || row_complete(line.deep_view()))
        },
        forall|tr: Seq<Seq<u8>>|
            #![trigger codeword_of(tr.take(n as int))]
            line_premise(tr, line.deep_view(), root@, n as nat) ==> (r matches Ok(o) && o.verified
                && (o.recovered matches Some(full) ==> full.deep_view() == tr) && (o.recovered
                is None ==> unwrap_row(line.deep_view()) == tr)),
        present_count(line.deep_view()) < n ==> (r matches Ok(o) && !o.progress && !o.verified
            && o.recovered is None),
        (row_complete(line.deep_view()) && root_spec(unwrap_row(line.deep_view())) == root@) ==> (
        r matches Ok(o) && !o.progress && o.verified && o.recovered is None),
        r matches Err(e) ==> e == Error::RootMismatch,
{
    let ghost s = line.deep_view();
    proof {
        lemma_present_count_bounds(s);
        assert(codec::present_uniform(s));
        assert(codec::present_nonempty(s));
    }
    let count = count_present(line);
    if count == 2 * n {
        let full = unwrap_line(line);
        let h = match chunks_root(&full) {
            Ok(h) => h,
            Err(_) => {
                return Err(Error::RootMismatch);
            },
        };
        if crate::bytes_eq(&h, root) {
            proof {
                assert forall|tr: Seq<Seq<u8>>|
                    #![trigger codeword_of(tr.take(n as int))]
                    line_premise(tr, s, root@, n as nat) implies unwrap_row(s) == tr by {
                    assert(unwrap_row(s) =~= tr);
                }
            }
            Ok(LineOutcome { progress: false, verified: true, recovered: None })
        } else {
            proof {
                assert forall|tr: Seq<Seq<u8>>|
                    #![trigger codeword_of(tr.take(n as int))]
                    !line_premise(tr, s, root@, n as nat) by {
                    if line_premise(tr, s, root@, n as nat) {
                        assert(unwrap_row(s) =~= tr);
                        assert(root_spec(unwrap_row(s)) == root@);
                        assert(false);
                    }
                }
            }
            Err(Error::RootMismatch)
        }
    } else if count >= n {
        let shares = clone_sparse(line);
        proof {
            assert(codec::decodable(shares.deep_view(), n as nat));
        }
        let originals = match codec.decode(shares) {
            Ok(o) => o,
            Err(_) => {
                return Err(Error::RootMismatch);
            },
        };
        proof {
            lemma_present_count_pos(s);
            let j0 = choose|j: int| 0 <= j < s.len() && #[trigger] s[j] is Some;
            assert forall|a: int|
                0 <= a < originals@.len() implies #[trigger] originals.deep_view()[a].len()
                == s[j0]->0.len() && originals.deep_view()[a].len() >= 1 by {
                assert(originals.deep_view()[a].len() == s[j0]->0.len());
            }
            assert(codec::equal_lens(originals.deep_view()));
            assert(originals.deep_view()[0].len() >= 1);
        }
        let originals2 = crate::data_square::clone_matrix(&originals);
        let parity = match codec.encode(originals2) {
            Ok(p) => p,
            Err(_) => {
                return Err(Error::RootMismatch);
            },
        };
        let full = merge_line(line, &originals, &parity, n);
        proof {
            assert forall|j: int|
                0 <= j < 2 * n implies #[trigger] full.deep_view()[j].len() == sz@ by {
                lemma_present_count_pos(s);
                let j0 = choose|a: int| 0 <= a < s.len() && #[trigger] s[a] is Some;
                if s[j] is Some {
                } else if j < n {
                    assert(originals.deep_view()[j].len() == s[j0]->0.len());
                } else {
                    assert(parity.deep_view()[j - n].len() == originals.deep_view()[0].len());
                    assert(originals.deep_view()[0].len() == s[j0]->0.len());
                }
            }
        }
        let h = match chunks_root(&full) {
            Ok(h) => h,
            Err(_) => {
                return Err(Error::RootMismatch);
            },
        };
        proof {
            assert(consistent_with(s, full.deep_view()));
        }
        if crate::bytes_eq(&h, root) {
            proof {
                assert forall|tr: Seq<Seq<u8>>|
                    #![trigger codeword_of(tr.take(n as int))]
                    line_premise(tr, s, root@, n as nat) implies full.deep_view() == tr by {
                    let d = tr.take(n as int);
                    assert(codeword_of(d).len() == 2 * n);
                    assert(codeword_of(d).take(n as int) =~= d);
                    assert(consistent_with(s, codeword_of(d)));
                    assert(originals.deep_view() == d);
                    assert(codeword_of(d) == originals.deep_view() + parity.deep_view());
                    assert forall|j: int|
                        0 <= j < 2 * n implies full.deep_view()[j] == tr[j] by {
                        if s[j] is Some {
                        } else if j < n {
                            assert(originals.deep_view()[j] == d[j]);
                            assert(d[j] == tr[j]);
                        } else {
                            assert(parity.deep_view()[j - n] == codeword_of(d)[j]);
                        }
                    }
                    assert(full.deep_view() =~= tr);
                }
            }
            Ok(
                LineOutcome {
                    progress: true,
                    verified: true,
                    recovered: Some(full),
                },
            )
        } else {
            proof {
                assert forall|tr: Seq<Seq<u8>>|
                    #![trigger codeword_of(tr.take(n as int))]
                    !line_premise(tr, s, root@, n as nat) by {
                    if line_premise(tr, s, root@, n as nat) {
                        let d = tr.take(n as int);
                        assert(codeword_of(d).take(n as int) =~= d);
                        assert(originals.deep_view() == d);
                        assert(codeword_of(d) == originals.deep_view() + parity.deep_view());
                        assert forall|j: int|
                            0 <= j < 2 * n implies full.deep_view()[j] == tr[j] by {
                            if s[j] is Some {
                            } else if j < n {
                                assert(originals.deep_view()[j] == d[j]);
                            } else {
                                assert(parity.deep_view()[j - n] == codeword_of(d)[j]);
                            }
                        }
                        assert(full.deep_view() =~= tr);
                        assert(root_spec(full.deep_view()) == root@);
                        assert(false);
                    }
                }
            }
            Err(Error::RootMismatch)
        }
    } else {
        proof {
            assert forall|tr: Seq<Seq<u8>>|
                #![trigger codeword_of(tr.take(n as int))]
                !line_premise(tr, s, root@, n as nat) by {}
        }
        Ok(LineOutcome { progress: false, verified: false, recovered: None })
    }
}

/// Column `j` of a sparse grid of width `w`.
pub open spec fn sparse_col(g: Seq<Seq<Option<Seq<u8>>>>, j: int, w: int) -> Seq<Option<Seq<u8>>> {
    Seq::new(w as nat, |i: int| g[i][j])
}

/// A `w`-wide sparse grid whose present chunks are `size` bytes each.
pub open spec fn sparse_shape(g: Seq<Seq<Option<Seq<u8>>>>, w: int, size: int) -> bool {
    &&& g.len() == w
    &&& forall|i: int| 0 <= i < w ==> (#[trigger] g[i]).len() == w
    &&& forall|i: int, j: int|
        #![trigger g[i][j]]
        0 <= i < w && 0 <= j < w && g[i][j] is Some ==> g[i][j]->0.len() == size
}

/// `b` extends `a`: every present slot of `a` is kept unchanged in `b`.
pub open spec fn grid_extends(
    b: Seq<Seq<Option<Seq<u8>>>>,
    a: Seq<Seq<Option<Seq<u8>>>>,
    w: int,
) -> bool {
    forall|i: int, j: int|
        #![trigger b[i][j], a[i][j]]
        0 <= i < w && 0 <= j < w && a[i][j] is Some ==> b[i][j] == a[i][j]
}

/// The sparse grid agrees with the full square `t` wherever it is present.
pub open spec fn grid_consistent(
    g: Seq<Seq<Option<Seq<u8>>>>,
    t: Seq<Seq<Seq<u8>>>,
    w: int,
) -> bool {
    forall|i: int| 0 <= i < w ==> consistent_with(#[trigger] g[i], t[i])
}

/// A full square the trusted roots commit to and the sparse grid could be
/// truthful data of: the right shapes, every row the codeword of its own
/// first half, the given roots, agreement wherever the grid is present, and
/// enough present shares in every row to pin each row down.
pub open spec fn recovery_premise(
    t: Seq<Seq<Seq<u8>>>,
    g: Seq<Seq<Option<Seq<u8>>>>,
    n: int,
    size: int,
    rr: Seq<Seq<u8>>,
    cr: Seq<Seq<u8>>,
) -> bool {
    &&& grid_wf(t, (2 * n) as nat, size as nat)
    &&& forall|i: int| 0 <= i < 2 * n ==> #[trigger] t[i] == codeword_of(t[i].take(n))
    &&& forall|i: int| 0 <= i < 2 * n ==> #[trigger] rr[i] == root_spec(t[i])
    &&& forall|j: int| 0 <= j < 2 * n ==> #[trigger] cr[j] == root_spec(col_of(t, j, 2 * n))
    &&& grid_consistent(g, t, 2 * n)
    &&& forall|i: int| 0 <= i < 2 * n ==> present_count(#[trigger] g[i]) >= n
}

/// Extension of sparse grids is transitive.
proof fn lemma_grid_extends_trans(
    c: Seq<Seq<Option<Seq<u8>>>>,
    b: Seq<Seq<Option<Seq<u8>>>>,
    a: Seq<Seq<Option<Seq<u8>>>>,
    w: int,
)
    requires
        grid_extends(c, b, w),
        grid_extends(b, a, w),
    ensures
        grid_extends(c, a, w),
{
    assert forall|i: int, j: int|
        #![trigger c[i][j], a[i][j]]
        0 <= i < w && 0 <= j < w && a[i][j] is Some implies c[i][j] == a[i][j] by {
        assert(b[i][j] == a[i][j]);
        assert(c[i][j] == b[i][j]);
    }
}

/// Filling slots never loses present ones.
proof fn lemma_present_count_mono(a: Seq<Option<Seq<u8>>>, b: Seq<Option<Seq<u8>>>)
    requires
        a.len() == b.len(),
        forall|j: int| 0 <= j < a.len() && a[j] is Some ==> #[trigger] b[j] is Some,
    ensures
        present_count(b) >= present_count(a),
    decreases a.len(),
{
    if a.len() > 0 {
        lemma_present_count_mono(a.drop_last(), b.drop_last());
        assert forall|j: int|
            0 <= j < a.len() - 1 && a.drop_last()[j] is Some implies #[trigger] b.drop_last()[j]
            is Some by {
            assert(a[j] is Some);
            assert(b[j] is Some);
        }
        if a.last() is Some {
            assert(a[a.len() - 1] is Some);
            assert(b[b.len() - 1] is Some);
        }
    }
}

/// Column `j` of the grid, as its own sparse line.
fn gather_col(g: &Vec<Vec<Option<Vec<u8>>>>, j: usize, w: usize) -> (r: Vec<Option<Vec<u8>>>)
    requires
        g@.len() == w,
        j < w,
        forall|i: int| 0 <= i < w ==> (#[trigger] g.deep_view()[i]).len() == w,
    ensures
        r@.len() == w,
        r.deep_view() == sparse_col(g.deep_view(), j as int, w as int),
{
    let mut r: Vec<Option<Vec<u8>>> = Vec::new();
    let mut i: usize = 0;
    while i < w
        invariant
            0 <= i <= w,
            j < w,
            g@.len() == w,
            forall|a: int| 0 <= a < w ==> (#[trigger] g.deep_view()[a]).len() == w,
            r@.len() == i,
            forall|a: int|
                0 <= a < i ==> #[trigger] r.deep_view()[a] == g.deep_view()[a][j as int],
        decreases w - i,
    {
        proof {
            assert(g@[i as int]@.len() == g.deep_view()[i as int].len());
        }
        let ghost pre = r.deep_view();
        let c: Option<Vec<u8>> = match &g[i][j] {
            Some(c) => Some(codec::clone_chunk(c)),
            None => None,
        };
        let ghost cv = c.deep_view();
        r.push(c);
        proof {
            assert(cv == g.deep_view()[i as int][j as int]);
            assert(r.deep_view() =~= pre.push(cv));
        }
        i += 1;
    }
    proof {
        assert(r.deep_view() =~= sparse_col(g.deep_view(), j as int, w as int));
    }
    r
}

/// The line with slot `j` replaced by a present chunk.
fn line_set_slot(row: &Vec<Option<Vec<u8>>>, j: usize, c: Vec<u8>) -> (r: Vec<Option<Vec<u8>>>)
    requires
        j < row@.len(),
    ensures
        r@.len() == row@.len(),
        r.deep_view() == row.deep_view().update(j as int, Some(c@)),
{
    let ghost cv = c@;
    let mut r: Vec<Option<Vec<u8>>> = Vec::new();
    let mut i: usize = 0;
    while i < row.len()
        invariant
            0 <= i <= row@.len(),
            j < row@.len(),
            cv == c@,
            r@.len() == i,
            forall|a: int|
                0 <= a < i ==> #[trigger] r.deep_view()[a] == (if a == j {
                    Some(cv)
                } else {
                    row.deep_view()[a]
                }),
        decreases row@.len() - i,
    {
        let ghost pre = r.deep_view();
        let x: Option<Vec<u8>> = if i == j {
            Some(codec::clone_chunk(&c))
        } else {
            match &row[i] {
                Some(y) => Some(codec::clone_chunk(y)),
                None => None,
            }
        };
        let ghost xv = x.deep_view();
        r.push(x);
        proof {
            assert(r.deep_view() =~= pre.push(xv));
        }
        i += 1;
    }
    proof {
        assert(r.deep_view() =~= row.deep_view().update(j as int, Some(cv)));
    }
    r
}

/// Write a reconstructed column back: slot `j` of every row becomes the
/// column's chunk; nothing else moves.
fn write_col(g: &mut Vec<Vec<Option<Vec<u8>>>>, j: usize, full: &Matrix2D, w: usize)
    requires
        old(g)@.len() == w,
        j < w,
        full@.len() == w,
        forall|i: int| 0 <= i < w ==> (#[trigger] old(g).deep_view()[i]).len() == w,
    ensures
        final(g)@.len() == w,
        forall|i: int| 0 <= i < w ==> (#[trigger] final(g).deep_view()[i]).len() == w,
        forall|i: int, b: int|
            #![trigger final(g).deep_view()[i][b]]
            0 <= i < w && 0 <= b < w && b != j ==> final(g).deep_view()[i][b] == old(
                g,
            ).deep_view()[i][b],
        forall|i: int|
            0 <= i < w ==> #[trigger] final(g).deep_view()[i][j as int] == Some(
                full.deep_view()[i],
            ),
{
    let mut i: usize = 0;
    while i < w
        invariant
            0 <= i <= w,
            j < w,
            g@.len() == w,
            full@.len() == w,
            forall|a: int| 0 <= a < w ==> (#[trigger] g.deep_view()[a]).len() == w,
            forall|a: int|
                i <= a < w ==> #[trigger] g.deep_view()[a] == old(g).deep_view()[a],
            forall|a: int, b: int|
                #![trigger g.deep_view()[a][b]]
                0 <= a < i && 0 <= b < w && b != j ==> g.deep_view()[a][b] == old(
                    g,
                ).deep_view()[a][b],
            forall|a: int|
                0 <= a < i ==> #[trigger] g.deep_view()[a][j as int] == Some(full.deep_view()[a]),
        decreases w - i,
    {
        proof {
            assert(g@[i as int]@.len() == g.deep_view()[i as int].len());
        }
        let ghost pre = g.deep_view();
        let new_row = line_set_slot(&g[i], j, codec::clone_chunk(&full[i]));
        let ghost nrv = new_row.deep_view();
        g.set(i, new_row);
        proof {
            assert forall|a: int| 0 <= a < w implies #[trigger] g.deep_view()[a] == (if a == i {
                nrv
            } else {
                pre[a]
            }) by {}
        }
        i += 1;
    }
}

/// The chunks of a grid with no missing slots.
fn unwrap_grid(g: &Vec<Vec<Option<Vec<u8>>>>) -> (r: crate::Matrix3D)
    requires
        forall|i: int| 0 <= i < g@.len() ==> row_complete(#[trigger] g.deep_view()[i]),
    ensures
        r@.len() == g@.len(),
        forall|i: int|
            0 <= i < g@.len() ==> #[trigger] r.deep_view()[i] == unwrap_row(g.deep_view()[i]),
{
    let mut r: crate::Matrix3D = Vec::new();
    let mut i: usize = 0;
    while i < g.len()
        invariant
            0 <= i <= g@.len(),
            forall|a: int| 0 <= a < g@.len() ==> row_complete(#[trigger] g.deep_view()[a]),
            r@.len() == i,
            forall|a: int|
                0 <= a < i ==> #[trigger] r.deep_view()[a] == unwrap_row(g.deep_view()[a]),
        decreases g@.len() - i,
    {
        let ghost pre = r.deep_view();
        proof {
            assert(g@[i as int].deep_view() == g.deep_view()[i as int]);
            assert(row_complete(g@[i as int].deep_view()));
        }
        let row = unwrap_line(&g[i]);
        let ghost rv = row.deep_view();
        r.push(row);
        proof {
            assert(rv == unwrap_row(g.deep_view()[i as int]));
            assert(r.deep_view() =~= pre.push(rv));
        }
        i += 1;
    }
    r
}

/// An extended data square whose chunk slots may be present or missing,
/// row-major, with its dimensions.
#[derive(Debug)]
pub struct SparseExtendedDataSquare {
    pub rows: Vec<Vec<Option<Vec<u8>>>>,
    pub width: usize,
    pub original_width: usize,
    pub chunk_size: usize,
}

impl SparseExtendedDataSquare {
    /// The sparse chunk slots, as mathematical sequences.
    pub open spec fn grid(&self) -> Seq<Seq<Option<Seq<u8>>>> {
        self.rows.deep_view()
    }

    /// Internal consistency: extended-square dimensions the codec can serve
    /// and equally sized present chunks.
    pub open spec fn wf(&self) -> bool {
        &&& 1 <= self.original_width <= 128
        &&& self.width == 2 * self.original_width
        &&& self.chunk_size >= 1
        &&& sparse_shape(self.grid(), self.width as int, self.chunk_size as int)
    }
}

/// Reed Solomon Merkle Tree 2D: compute an extended data square, import a
/// sparse one, and repair it against its trusted roots.
pub trait ReedSolomonMerkleTree2D: Sized {
    /// Compute the extended data square for some chunks of data.
    fn compute_extended_data_square(&self, data: Matrix2D) -> (r: Result<
        ExtendedDataSquare,
        Error,
    >)
        ensures
            r matches Ok(eds) ==> {
                &&& eds.wf()
                &&& eds.data_square.rows_are_codewords()
                &&& eds.data_square.cols_are_codewords()
                &&& eds.data_square.original_width * eds.data_square.original_width
                    == data@.len()
                &&& eds.data_square.chunk_size == data.deep_view()[0].len()
                &&& forall|i: int, j: int|
                    #![trigger eds.data_square.rows()[i][j]]
                    0 <= i < eds.data_square.original_width && 0 <= j
                        < eds.data_square.original_width ==> eds.data_square.rows()[i][j]
                        == data.deep_view()[i * eds.data_square.original_width + j]
            },
            r is Ok <==> (data@.len() >= 1 && codec::equal_lens(data.deep_view())
                && data.deep_view()[0].len() >= 1 && (exists|w: int|
                0 <= w <= 128 && #[trigger] (w * w) == data@.len() && cross_consistent(
                    crate::data_square::square_of(data.deep_view(), w),
                    w,
                ))),
    ;

    /// Import an extended data square, represented as flattened chunk
    /// slots in row-major order, missing chunks absent.
    fn import_extended_data_square(&self, data: Vec<Option<Vec<u8>>>) -> (r: Result<
        SparseExtendedDataSquare,
        Error,
    >)
        ensures
            r is Ok <==> (data@.len() >= 1 && (exists|n: int|
                1 <= n <= 128 && #[trigger] ((2 * n) * (2 * n)) == data@.len())
                && codec::present_uniform(data.deep_view()) && codec::present_nonempty(
                data.deep_view(),
            ) && present_count(data.deep_view()) >= 1),
            r matches Ok(sq) ==> {
                &&& sq.wf()
                &&& sq.width * sq.width == data@.len()
                &&& forall|i: int, j: int|
                    #![trigger sq.grid()[i][j]]
                    0 <= i < sq.width && 0 <= j < sq.width ==> sq.grid()[i][j]
                        == data.deep_view()[i * sq.width + j]
            },
    ;

    /// Attempt to repair an incomplete extended data square against its
    /// trusted row and column roots.
    fn repair(
        &self,
        square: SparseExtendedDataSquare,
        row_roots: Matrix2D,
        col_roots: Matrix2D,
    ) -> (r: Result<ExtendedDataSquare, Error>)
        requires
            square.wf(),
            row_roots@.len() == square.width,
            col_roots@.len() == square.width,
        ensures
            ({
                let g0 = square.grid();
                let n = square.original_width as int;
                let w = square.width as int;
                let size = square.chunk_size as int;
                let rr = row_roots.deep_view();
                let cr = col_roots.deep_view();
                &&& (r matches Ok(eds) ==> {
                    &&& eds.wf()
                    &&& eds.data_square.width == square.width
                    &&& eds.data_square.original_width == square.original_width
                    &&& eds.data_square.chunk_size == square.chunk_size
                    &&& eds.data_square.row_roots.deep_view() == rr
                    &&& eds.data_square.col_roots.deep_view() == cr
                    &&& forall|i: int|
                        0 <= i < w ==> root_spec(#[trigger] eds.data_square.rows()[i]) == rr[i]
                    &&& forall|j: int|
                        0 <= j < w ==> root_spec(#[trigger] eds.data_square.cols()[j]) == cr[j]
                    &&& forall|i: int, j: int|
                        #![trigger eds.data_square.rows()[i][j]]
                        0 <= i < w && 0 <= j < w && g0[i][j] is Some
                            ==> eds.data_square.rows()[i][j] == g0[i][j]->0
                })
                &&& (forall|t: Seq<Seq<Seq<u8>>>|
                    #[trigger] recovery_premise(t, g0, n, size, rr, cr) ==> (r matches Ok(eds)
                        && eds.data_square.rows() == t))
                &&& (((forall|i: int| 0 <= i < w ==> present_count(#[trigger] g0[i]) < n) && (
                forall|j: int|
                    0 <= j < w ==> present_count(#[trigger] sparse_col(g0, j, w)) < n)) ==> (r
                    matches Err(e) && e == Error::InsufficientShares))
                &&& (((forall|i: int| 0 <= i < w ==> row_complete(#[trigger] g0[i])) && (forall|
                    i: int,
                |
                    0 <= i < w ==> root_spec(unwrap_row(#[trigger] g0[i])) == rr[i]) && (forall|
                    j: int,
                |
                    0 <= j < w ==> root_spec(unwrap_row(#[trigger] sparse_col(g0, j, w)))
                        == cr[j])) ==> (r matches Ok(eds) && (forall|i: int|
                    0 <= i < w ==> #[trigger] eds.data_square.rows()[i] == unwrap_row(g0[i]))))
            }),
    ;
}

/// Create a new two-dimensional coder bound to the given commitment tree
/// capability; fresh trees of the same kind are grown for every row and
/// column root.
pub fn new(merkle_tree: MerkleTreeImpl) -> (r: ReedSolomonMerkleTree2DImpl) {
    ReedSolomonMerkleTree2DImpl { merkle_tree }
}

/// The bound implementation of the two-dimensional scheme.
pub struct ReedSolomonMerkleTree2DImpl {
    merkle_tree: MerkleTreeImpl,
}

/// Copy a sparse grid.
fn clone_grid(g: &Vec<Vec<Option<Vec<u8>>>>) -> (r: Vec<Vec<Option<Vec<u8>>>>)
    ensures
        r@.len() == g@.len(),
        r.deep_view() == g.deep_view(),
{
    let mut r: Vec<Vec<Option<Vec<u8>>>> = Vec::new();
    let mut i: usize = 0;
    while i < g.len()
        invariant
            0 <= i <= g@.len(),
            r@.len() == i,
            r.deep_view() =~= g.deep_view().take(i as int),
        decreases g@.len() - i,
    {
        let ghost pre = r.deep_view();
        let row = clone_sparse(&g[i]);
        let ghost rv = row.deep_view();
        r.push(row);
        proof {
            assert(rv == g.deep_view()[i as int]);
            assert(r.deep_view() =~= pre.push(rv));
            assert(r.deep_view() =~= g.deep_view().take(i + 1));
        }
        i += 1;
    }
    proof {
        assert(g.deep_view().take(g@.len() as int) =~= g.deep_view());
    }
    r
}

impl ReedSolomonMerkleTree2D for ReedSolomonMerkleTree2DImpl {
    fn compute_extended_data_square(&self, data: Matrix2D) -> (r: Result<
        ExtendedDataSquare,
        Error,
    >) {
        let ghost d = data.deep_view();
        let mut sq = match DataSquare::new(data) {
            Ok(s) => s,
            Err(e) => {
                proof {
                    if d.len() >= 1 && codec::equal_lens(d) && d[0].len() >= 1 && (exists|w: int|
                        0 <= w <= 128 && #[trigger] (w * w) == d.len() && cross_consistent(
                        crate::data_square::square_of(d, w),
                        w,
                    )) {
                        let w = choose|w: int|
                            0 <= w <= 128 && #[trigger] (w * w) == d.len() && cross_consistent(
                                crate::data_square::square_of(d, w),
                                w,
                            );
                        assert((w * w) == d.len() && w <= 128);
                        assert(false);
                    }
                }
                return Err(e);
            },
        };
        let ghost n0 = sq.width as int;
        proof {
            assert(sq.rows() =~= crate::data_square::square_of(d, n0)) by {
                assert forall|i: int|
                    0 <= i < n0 implies sq.rows()[i] =~= crate::data_square::square_of(d, n0)[i] by {
                    assert forall|j: int|
                        0 <= j < n0 implies sq.rows()[i][j] == d[i * n0 + j] by {}
                }
            }
        }
        match sq.erasure_extend_square() {
            Ok(()) => {},
            Err(e) => {
                proof {
                    if d.len() >= 1 && codec::equal_lens(d) && d[0].len() >= 1 && (exists|w: int|
                        0 <= w <= 128 && #[trigger] (w * w) == d.len() && cross_consistent(
                        crate::data_square::square_of(d, w),
                        w,
                    )) {
                        let w = choose|w: int|
                            0 <= w <= 128 && #[trigger] (w * w) == d.len() && cross_consistent(
                                crate::data_square::square_of(d, w),
                                w,
                            );
                        assert(w == n0) by (nonlinear_arith)
                            requires
                                0 <= w,
                                0 <= n0,
                                w * w == n0 * n0,
                        ;
                        assert(cross_consistent(crate::data_square::square_of(d, n0), n0));
                        assert(false);
                    }
                }
                return Err(e);
            },
        }
        proof {
            assert((n0 * n0) == d.len());
            assert(cross_consistent(crate::data_square::square_of(d, n0), n0));
        }
        Ok(ExtendedDataSquare { data_square: sq })
    }

    fn import_extended_data_square(&self, data: Vec<Option<Vec<u8>>>) -> (r: Result<
        SparseExtendedDataSquare,
        Error,
    >) {
        let ghost s = data.deep_view();
        if data.len() == 0 {
            return Err(Error::EmptyInput);
        }
        let w = crate::data_square::isqrt(data.len());
        if w * w != data.len() {
            proof {
                crate::data_square::lemma_no_square_between(s.len() as int, w as int);
                assert forall|n: int|
                    !(1 <= n <= 128 && #[trigger] ((2 * n) * (2 * n)) == s.len()) by {
                    if 1 <= n && ((2 * n) * (2 * n)) == s.len() {
                        assert((2 * n) * (2 * n) == (2 * n) * (2 * n));
                        assert(0 <= 2 * n);
                    }
                }
            }
            return Err(Error::NotSquareCount);
        }
        if w % 2 != 0 {
            proof {
                assert forall|n: int|
                    !(1 <= n <= 128 && #[trigger] ((2 * n) * (2 * n)) == s.len()) by {
                    if 1 <= n && ((2 * n) * (2 * n)) == s.len() {
                        assert(2 * n == w) by (nonlinear_arith)
                            requires
                                0 <= 2 * n,
                                0 <= w,
                                (2 * n) * (2 * n) == w * w,
                        ;
                    }
                }
            }
            return Err(Error::NotSquareCount);
        }
        let n = w / 2;
        proof {
            assert(w == 2 * n);
            assert(n >= 1) by (nonlinear_arith)
                requires
                    w * w == s.len(),
                    s.len() >= 1,
                    w == 2 * n,
                    0 <= n,
            ;
        }
        if n > 128 {
            proof {
                assert forall|m: int|
                    !(1 <= m <= 128 && #[trigger] ((2 * m) * (2 * m)) == s.len()) by {
                    if 1 <= m <= 128 && ((2 * m) * (2 * m)) == s.len() {
                        assert(2 * m == w) by (nonlinear_arith)
                            requires
                                0 <= 2 * m,
                                0 <= w,
                                (2 * m) * (2 * m) == w * w,
                        ;
                    }
                }
            }
            return Err(Error::CodecConstructionFailure);
        }
        let mut count: usize = 0;
        let mut first_len: usize = 0;
        let mut seen: bool = false;
        let ghost mut first_idx: int = 0;
        let mut i: usize = 0;
        while i < data.len()
            invariant
                0 <= i <= data@.len(),
                s == data.deep_view(),
                s.len() == data@.len(),
                count == present_count(s.take(i as int)),
                count <= i,
                !seen ==> count == 0,
                seen <==> (exists|j: int| 0 <= j < i && #[trigger] s[j] is Some),
                seen ==> 0 <= first_idx < i && (s[first_idx] matches Some(c) && c.len()
                    == first_len),
                forall|j: int|
                    0 <= j < i ==> ((#[trigger] s[j]) matches Some(c) ==> c.len() == first_len),
            decreases data@.len() - i,
        {
            proof {
                codec::lemma_present_count_take_step(s, i as int);
            }
            match &data[i] {
                Some(c) => {
                    if !seen {
                        seen = true;
                        first_len = c.len();
                        proof {
                            first_idx = i as int;
                        }
                    } else if c.len() != first_len {
                        proof {
                            assert(s[first_idx] matches Some(a) && a.len() == first_len);
                            assert(s[i as int] matches Some(b) && b.len() != first_len);
                            if codec::present_uniform(s) {
                                assert(false);
                            }
                        }
                        return Err(Error::UnequalChunkSize);
                    }
                    count = count + 1;
                },
                None => {},
            }
            i += 1;
        }
        proof {
            assert(s.take(data@.len() as int) =~= s);
            assert(codec::present_uniform(s)) by {
                assert forall|a: int, b: int| #![trigger s[a], s[b]]
                    0 <= a < s.len() && 0 <= b < s.len() && s[a] is Some && s[b] is Some
                    implies s[a]->0.len() == s[b]->0.len() by {
                    assert((s[a] matches Some(c) ==> c.len() == first_len) && (s[b] matches Some(
                        c,
                    ) ==> c.len() == first_len));
                }
            }
        }
        if count == 0 {
            return Err(Error::EmptyInput);
        }
        if first_len == 0 {
            proof {
                assert(seen);
                assert(s[first_idx] is Some);
                if codec::present_nonempty(s) {
                    assert(false);
                }
            }
            return Err(Error::CodecConstructionFailure);
        }
        proof {
            assert(codec::present_nonempty(s)) by {
                assert forall|j: int| 0 <= j < s.len() && s[j] is Some implies s[j]->0.len()
                    >= 1 by {
                    assert(s[j] matches Some(c) ==> c.len() == first_len);
                }
            }
            assert((2 * (n as int)) * (2 * (n as int)) == s.len());
        }
        let mut rows: Vec<Vec<Option<Vec<u8>>>> = Vec::new();
        i = 0;
        while i < w
            invariant
                0 <= i <= w,
                1 <= n <= 128,
                w == 2 * n,
                w * w == data@.len(),
                data@.len() <= usize::MAX,
                s == data.deep_view(),
                forall|k: int|
                    #![trigger s[k]]
                    0 <= k < s.len() && s[k] is Some ==> s[k]->0.len() == first_len,
                rows@.len() == i,
                forall|a: int| 0 <= a < i ==> (#[trigger] rows.deep_view()[a]).len() == w,
                forall|a: int, b: int|
                    #![trigger rows.deep_view()[a][b]]
                    0 <= a < i && 0 <= b < w ==> rows.deep_view()[a][b] == s[a * w + b],
            decreases w - i,
        {
            let mut row: Vec<Option<Vec<u8>>> = Vec::new();
            let mut j: usize = 0;
            while j < w
                invariant
                    0 <= j <= w,
                    0 <= i < w,
                    1 <= w,
                    w * w == data@.len(),
                    data@.len() <= usize::MAX,
                    s == data.deep_view(),
                    row@.len() == j,
                    forall|b: int|
                        0 <= b < j ==> #[trigger] row.deep_view()[b] == s[i as int * w + b],
                decreases w - j,
            {
                proof {
                    crate::data_square::lemma_grid_index(i as int, j as int, w as int);
                }
                let ghost pre = row.deep_view();
                let c: Option<Vec<u8>> = match &data[i * w + j] {
                    Some(c) => Some(codec::clone_chunk(c)),
                    None => None,
                };
                let ghost cv = c.deep_view();
                row.push(c);
                proof {
                    assert(cv == s[i as int * w + j]);
                    assert(row.deep_view() =~= pre.push(cv));
                }
                j += 1;
            }
            let ghost rv = row.deep_view();
            let ghost pre = rows.deep_view();
            rows.push(row);
            proof {
                assert(rows.deep_view() =~= pre.push(rv));
            }
            i += 1;
        }
        let sq = SparseExtendedDataSquare {
            rows,
            width: w,
            original_width: n,
            chunk_size: first_len,
        };
        proof {
            assert forall|a: int, b: int|
                #![trigger sq.grid()[a][b]]
                0 <= a < w && 0 <= b < w && sq.grid()[a][b] is Some implies sq.grid()[a][b]->0.len()
                == first_len by {
                crate::data_square::lemma_grid_index(a, b, w as int);
                assert(sq.grid()[a][b] == s[a * (w as int) + b]);
            }
            assert(sparse_shape(sq.grid(), w as int, first_len as int));
        }
        Ok(sq)
    }

    fn repair(
        &self,
        square: SparseExtendedDataSquare,
        row_roots: Matrix2D,
        col_roots: Matrix2D,
    ) -> (r: Result<ExtendedDataSquare, Error>) {
        let n = square.original_width;
        let w = square.width;
        let size = square.chunk_size;
        // a well-formed sparse square keeps the codec constructible
        let codec = match codec::new(n) {
            Ok(c) => c,
            Err(e) => {
                return Err(e);
            },
        };
        let ghost g0 = square.grid();
        let ghost nn = n as int;
        let ghost wi = w as int;
        let ghost szi = size as int;
        let ghost rrv = row_roots.deep_view();
        let ghost crv = col_roots.deep_view();
        let ghost p6h: bool = (forall|i: int| 0 <= i < wi ==> present_count(#[trigger] g0[i]) < nn)
            && (forall|j: int| 0 <= j < wi ==> present_count(#[trigger] sparse_col(g0, j, wi)) < nn);
        let ghost p7h: bool = (forall|i: int| 0 <= i < wi ==> row_complete(#[trigger] g0[i])) && (
        forall|i: int| 0 <= i < wi ==> root_spec(unwrap_row(#[trigger] g0[i])) == rrv[i]) && (
        forall|j: int|
            0 <= j < wi ==> root_spec(unwrap_row(#[trigger] sparse_col(g0, j, wi))) == crv[j]);
        let mut g = clone_grid(&square.rows);
        // Iterate full passes over all rows, then all columns, until the
        // square is complete and verified or a pass makes no progress. Every
        // pass that makes progress completes at least one whole row or
        // column, so 2 * width passes always suffice; the counter only
        // bounds the loop for the verifier.
        let mut pass: usize = 0;
        while pass < 2 * w + 2
            invariant
                0 <= pass <= 2 * w + 2,
                square.wf(),
                n == square.original_width,
                w == square.width,
                size == square.chunk_size,
                1 <= n <= 128,
                w == 2 * n,
                size >= 1,
                codec.wf(),
                n == codec.data_len_spec(),
                row_roots@.len() == w,
                col_roots@.len() == w,
                rrv == row_roots.deep_view(),
                crv == col_roots.deep_view(),
                g0 == square.grid(),
                nn == n as int,
                wi == w as int,
                szi == size as int,
                p6h == ((forall|i: int|
                    0 <= i < wi ==> present_count(#[trigger] g0[i]) < nn) && (forall|j: int|
                    0 <= j < wi ==> present_count(#[trigger] sparse_col(g0, j, wi)) < nn)),
                p7h == ((forall|i: int| 0 <= i < wi ==> row_complete(#[trigger] g0[i])) && (
                forall|i: int|
                    0 <= i < wi ==> root_spec(unwrap_row(#[trigger] g0[i])) == rrv[i]) && (forall|
                    j: int,
                |
                    0 <= j < wi ==> root_spec(unwrap_row(#[trigger] sparse_col(g0, j, wi)))
                        == crv[j])),
                g@.len() == w,
                sparse_shape(g.deep_view(), wi, szi),
                sparse_shape(g0, wi, szi),
                grid_extends(g.deep_view(), g0, wi),
                forall|t: Seq<Seq<Seq<u8>>>|
                    #[trigger] recovery_premise(t, g0, nn, szi, rrv, crv) ==> grid_consistent(
                        g.deep_view(),
                        t,
                        wi,
                    ),
                pass >= 1 ==> (forall|t: Seq<Seq<Seq<u8>>>|
                    !#[trigger] recovery_premise(t, g0, nn, szi, rrv, crv)),
                pass >= 1 ==> !p6h,
                pass >= 1 ==> !p7h,
                p6h ==> g.deep_view() == g0,
                p7h ==> g.deep_view() == g0,
            decreases 2 * w + 2 - pass,
        {
            let ghost g_start = g.deep_view();
            let mut progress: bool = false;
            let mut all_rows_ok: bool = true;
            let mut i: usize = 0;
            while i < w
                invariant
                    0 <= i <= w,
                    square.wf(),
                    n == square.original_width,
                    w == square.width,
                    size == square.chunk_size,
                    1 <= n <= 128,
                    w == 2 * n,
                    size >= 1,
                    codec.wf(),
                    n == codec.data_len_spec(),
                    row_roots@.len() == w,
                    col_roots@.len() == w,
                    rrv == row_roots.deep_view(),
                    crv == col_roots.deep_view(),
                    g0 == square.grid(),
                    nn == n as int,
                    wi == w as int,
                    szi == size as int,
                    p6h == ((forall|a: int|
                        0 <= a < wi ==> present_count(#[trigger] g0[a]) < nn) && (forall|j: int|
                        0 <= j < wi ==> present_count(#[trigger] sparse_col(g0, j, wi)) < nn)),
                    p7h == ((forall|a: int| 0 <= a < wi ==> row_complete(#[trigger] g0[a])) && (
                    forall|a: int|
                        0 <= a < wi ==> root_spec(unwrap_row(#[trigger] g0[a])) == rrv[a]) && (
                    forall|j: int|
                        0 <= j < wi ==> root_spec(unwrap_row(#[trigger] sparse_col(g0, j, wi)))
                            == crv[j])),
                    g@.len() == w,
                    sparse_shape(g.deep_view(), wi, szi),
                    sparse_shape(g0, wi, szi),
                    grid_extends(g.deep_view(), g0, wi),
                    forall|t: Seq<Seq<Seq<u8>>>|
                        #[trigger] recovery_premise(t, g0, nn, szi, rrv, crv) ==> grid_consistent(
                            g.deep_view(),
                            t,
                            wi,
                        ),
                    forall|t: Seq<Seq<Seq<u8>>>|
                        #[trigger] recovery_premise(t, g0, nn, szi, rrv, crv) ==> (all_rows_ok && (
                        forall|a: int|
                            0 <= a < i ==> row_complete(#[trigger] g.deep_view()[a])
                                && unwrap_row(g.deep_view()[a]) == t[a])),
                    all_rows_ok ==> (forall|a: int|
                        0 <= a < i ==> row_complete(#[trigger] g.deep_view()[a]) && root_spec(
                            unwrap_row(g.deep_view()[a]),
                        ) == rrv[a]),
                    !progress ==> g.deep_view() == g_start,
                    grid_extends(g.deep_view(), g_start, wi),
                    p6h ==> (g.deep_view() == g0 && !progress && (i >= 1 ==> !all_rows_ok)),
                    p7h ==> (g.deep_view() == g0 && !progress && all_rows_ok),
                decreases w - i,
            {
                proof {
                    assert(g@[i as int]@.len() == g.deep_view()[i as int].len());
                    if p6h {
                        assert(present_count(g0[i as int]) < nn);
                    }
                    if p7h {
                        assert(row_complete(g0[i as int]));
                        assert(root_spec(unwrap_row(g0[i as int])) == rrv[i as int]);
                    }
                }
                let outcome = match process_line(&g[i], &codec, n, &row_roots[i], Ghost(size)) {
                    Ok(o) => o,
                    Err(e) => {
                        proof {
                            assert forall|t: Seq<Seq<Seq<u8>>>|
                                !#[trigger] recovery_premise(t, g0, nn, szi, rrv, crv) by {
                                if recovery_premise(t, g0, nn, szi, rrv, crv) {
                                    assert(t[i as int] == codeword_of(t[i as int].take(nn)));
                                    assert(consistent_with(g.deep_view()[i as int], t[i as int]));
                                    lemma_present_count_mono(g0[i as int], g.deep_view()[i as int]);
                                    assert(line_premise(
                                        t[i as int],
                                        g.deep_view()[i as int],
                                        rrv[i as int],
                                        n as nat,
                                    ));
                                    assert(false);
                                }
                            }
                            if p6h {
                                assert(present_count(g.deep_view()[i as int]) < nn);
                                assert(false);
                            }
                            if p7h {
                                assert(row_complete(g.deep_view()[i as int]));
                                assert(root_spec(unwrap_row(g.deep_view()[i as int]))
                                    == rrv[i as int]);
                                assert(false);
                            }
                        }
                        return Err(e);
                    },
                };
                proof {
                    assert forall|t: Seq<Seq<Seq<u8>>>|
                        #[trigger] recovery_premise(t, g0, nn, szi, rrv, crv) implies (
                    outcome.verified && (outcome.recovered matches Some(full)
                        ==> full.deep_view() == t[i as int]) && (outcome.recovered is None
                        ==> unwrap_row(g.deep_view()[i as int]) == t[i as int])) by {
                        assert(t[i as int] == codeword_of(t[i as int].take(nn)));
                        assert(consistent_with(g.deep_view()[i as int], t[i as int]));
                        lemma_present_count_mono(g0[i as int], g.deep_view()[i as int]);
                        assert(line_premise(
                            t[i as int],
                            g.deep_view()[i as int],
                            rrv[i as int],
                            n as nat,
                        ));
                    }
                }
                if outcome.progress {
                    progress = true;
                }
                if !outcome.verified {
                    all_rows_ok = false;
                }
                let ghost gpre = g.deep_view();
                match outcome.recovered {
                    Some(full) => {
                        let new_row = line_of_some(&full);
                        let ghost nrv = new_row.deep_view();
                        g.set(i, new_row);
                        proof {
                            assert forall|a: int|
                                0 <= a < wi implies #[trigger] g.deep_view()[a] == (if a
                                == i as int {
                                nrv
                            } else {
                                gpre[a]
                            }) by {}
                            assert(row_complete(g.deep_view()[i as int]));
                            assert(unwrap_row(g.deep_view()[i as int]) =~= full.deep_view());
                            assert forall|a: int, b: int|
                                #![trigger g.deep_view()[a][b], gpre[a][b]]
                                0 <= a < wi && 0 <= b < wi && gpre[a][b] is Some implies g.deep_view()[a][b]
                                == gpre[a][b] by {
                                if a == i as int {
                                    assert(consistent_with(gpre[a], full.deep_view()));
                                    assert(gpre[a][b]->0 == full.deep_view()[b]);
                                    assert(g.deep_view()[a][b] == Some(full.deep_view()[b]));
                                }
                            }
                            lemma_grid_extends_trans(g.deep_view(), gpre, g0, wi);
                            lemma_grid_extends_trans(g.deep_view(), gpre, g_start, wi);
                        }
                    },
                    None => {},
                }
                i += 1;
            }
            let ghost g_mid = g.deep_view();
            let mut all_cols_ok: bool = true;
            let mut j: usize = 0;
            while j < w
                invariant
                    0 <= j <= w,
                    square.wf(),
                    n == square.original_width,
                    w == square.width,
                    size == square.chunk_size,
                    1 <= n <= 128,
                    w == 2 * n,
                    size >= 1,
                    codec.wf(),
                    n == codec.data_len_spec(),
                    row_roots@.len() == w,
                    col_roots@.len() == w,
                    rrv == row_roots.deep_view(),
                    crv == col_roots.deep_view(),
                    g0 == square.grid(),
                    nn == n as int,
                    wi == w as int,
                    szi == size as int,
                    p6h == ((forall|a: int|
                        0 <= a < wi ==> present_count(#[trigger] g0[a]) < nn) && (forall|b: int|
                        0 <= b < wi ==> present_count(#[trigger] sparse_col(g0, b, wi)) < nn)),
                    p7h == ((forall|a: int| 0 <= a < wi ==> row_complete(#[trigger] g0[a])) && (
                    forall|a: int|
                        0 <= a < wi ==> root_spec(unwrap_row(#[trigger] g0[a])) == rrv[a]) && (
                    forall|b: int|
                        0 <= b < wi ==> root_spec(unwrap_row(#[trigger] sparse_col(g0, b, wi)))
                            == crv[b])),
                    g@.len() == w,
                    sparse_shape(g.deep_view(), wi, szi),
                    sparse_shape(g0, wi, szi),
                    grid_extends(g.deep_view(), g0, wi),
                    grid_extends(g.deep_view(), g_mid, wi),
                    g_mid.len() == wi,
                    forall|a: int| 0 <= a < wi ==> (#[trigger] g_mid[a]).len() == wi,
                    forall|t: Seq<Seq<Seq<u8>>>|
                        #[trigger] recovery_premise(t, g0, nn, szi, rrv, crv) ==> grid_consistent(
                            g.deep_view(),
                            t,
                            wi,
                        ),
                    forall|t: Seq<Seq<Seq<u8>>>|
                        #[trigger] recovery_premise(t, g0, nn, szi, rrv, crv) ==> (all_rows_ok
                            && all_cols_ok && g.deep_view() == g_mid && (forall|a: int|
                            0 <= a < wi ==> row_complete(#[trigger] g_mid[a]) && unwrap_row(
                                g_mid[a],
                            ) == t[a])),
                    all_rows_ok ==> (forall|a: int|
                        0 <= a < wi ==> row_complete(#[trigger] g_mid[a]) && root_spec(
                            unwrap_row(g_mid[a]),
                        ) == rrv[a]),
                    all_rows_ok ==> g.deep_view() == g_mid,
                    all_cols_ok ==> (forall|b: int|
                        0 <= b < j ==> row_complete(
                            #[trigger] sparse_col(g.deep_view(), b, wi),
                        ) && root_spec(unwrap_row(sparse_col(g.deep_view(), b, wi))) == crv[b]),
                    !progress ==> g.deep_view() == g_start,
                    p6h ==> (g.deep_view() == g0 && !progress && !all_rows_ok),
                    p7h ==> (g.deep_view() == g0 && !progress && all_rows_ok && all_cols_ok),
                decreases w - j,
            {
                let col = gather_col(&g, j, w);
                proof {
                    assert forall|b: int|
                        #![trigger col.deep_view()[b]]
                        0 <= b < wi && col.deep_view()[b] is Some implies col.deep_view()[b]->0.len()
                        == szi by {
                        assert(col.deep_view()[b] == g.deep_view()[b][j as int]);
                    }
                    if p6h {
                        assert(sparse_col(g0, j as int, wi) =~= col.deep_view());
                        assert(present_count(col.deep_view()) < nn);
                    }
                    if p7h {
                        assert(sparse_col(g0, j as int, wi) =~= col.deep_view());
                        assert(row_complete(col.deep_view()));
                        assert(root_spec(unwrap_row(col.deep_view())) == crv[j as int]);
                    }
                    if all_rows_ok {
                        assert forall|a: int|
                            0 <= a < wi implies #[trigger] col.deep_view()[a] is Some by {
                            assert(col.deep_view()[a] == g_mid[a][j as int]);
                            assert(row_complete(g_mid[a]));
                        }
                        assert(row_complete(col.deep_view()));
                    }
                }
                let outcome = match process_line(&col, &codec, n, &col_roots[j], Ghost(size)) {
                    Ok(o) => o,
                    Err(e) => {
                        proof {
                            assert forall|t: Seq<Seq<Seq<u8>>>|
                                !#[trigger] recovery_premise(t, g0, nn, szi, rrv, crv) by {
                                if recovery_premise(t, g0, nn, szi, rrv, crv) {
                                    assert(row_complete(col.deep_view()));
                                    assert(unwrap_row(col.deep_view()) =~= col_of(
                                        t,
                                        j as int,
                                        wi,
                                    ));
                                    assert(root_spec(unwrap_row(col.deep_view())) == crv[j as int]);
                                    assert(false);
                                }
                            }
                            if p6h {
                                assert(false);
                            }
                            if p7h {
                                assert(false);
                            }
                        }
                        return Err(e);
                    },
                };
                proof {
                    assert forall|t: Seq<Seq<Seq<u8>>>|
                        #[trigger] recovery_premise(t, g0, nn, szi, rrv, crv) implies (
                    outcome.verified && outcome.recovered is None && !outcome.progress) by {
                        assert(row_complete(col.deep_view()));
                        assert(unwrap_row(col.deep_view()) =~= col_of(t, j as int, wi));
                        assert(root_spec(unwrap_row(col.deep_view())) == crv[j as int]);
                    }
                }
                if outcome.progress {
                    progress = true;
                }
                if !outcome.verified {
                    all_cols_ok = false;
                }
                let ghost gpre = g.deep_view();
                match outcome.recovered {
                    Some(full) => {
                        proof {
                            assert(!row_complete(col.deep_view()));
                        }
                        write_col(&mut g, j, &full, w);
                        proof {
                            assert forall|a: int, b: int|
                                #![trigger g.deep_view()[a][b], gpre[a][b]]
                                0 <= a < wi && 0 <= b < wi && gpre[a][b] is Some implies g.deep_view()[a][b]
                                == gpre[a][b] by {
                                if b == j as int {
                                    assert(col.deep_view()[a] == gpre[a][b]);
                                    assert(consistent_with(col.deep_view(), full.deep_view()));
                                    assert(full.deep_view()[a] == col.deep_view()[a]->0);
                                    assert(g.deep_view()[a][b] == Some(full.deep_view()[a]));
                                }
                            }
                            lemma_grid_extends_trans(g.deep_view(), gpre, g0, wi);
                            lemma_grid_extends_trans(g.deep_view(), gpre, g_mid, wi);
                            assert forall|b: int|
                                0 <= b < j && all_cols_ok implies row_complete(
                                #[trigger] sparse_col(g.deep_view(), b, wi),
                            ) && root_spec(unwrap_row(sparse_col(g.deep_view(), b, wi)))
                                == crv[b] by {
                                assert(sparse_col(g.deep_view(), b, wi) =~= sparse_col(
                                    gpre,
                                    b,
                                    wi,
                                ));
                                assert(unwrap_row(sparse_col(g.deep_view(), b, wi)) =~= unwrap_row(
                                    sparse_col(gpre, b, wi),
                                ));
                            }
                            if all_cols_ok {
                                assert(row_complete(sparse_col(g.deep_view(), j as int, wi)))
                                    by {
                                    assert forall|a: int|
                                        0 <= a < wi implies #[trigger] sparse_col(
                                        g.deep_view(),
                                        j as int,
                                        wi,
                                    )[a] is Some by {
                                        assert(g.deep_view()[a][j as int] == Some(
                                            full.deep_view()[a],
                                        ));
                                    }
                                }
                                assert(unwrap_row(sparse_col(g.deep_view(), j as int, wi))
                                    =~= full.deep_view());
                                assert(root_spec(full.deep_view()) == crv[j as int]);
                            }
                        }
                    },
                    None => {
                        proof {
                            if all_cols_ok {
                                assert(outcome.verified);
                                assert(row_complete(col.deep_view()));
                                assert(root_spec(unwrap_row(col.deep_view())) == crv[j as int]);
                                assert(sparse_col(g.deep_view(), j as int, wi) =~= col.deep_view());
                                assert(unwrap_row(sparse_col(g.deep_view(), j as int, wi))
                                    =~= unwrap_row(col.deep_view()));
                            }
                        }
                    },
                }
                j += 1;
            }
            if all_rows_ok && all_cols_ok {
                proof {
                    assert forall|a: int|
                        0 <= a < wi implies #[trigger] g.deep_view()[a] == g_mid[a]
                        && row_complete(g.deep_view()[a]) by {
                        assert(row_complete(g_mid[a]));
                        assert forall|b: int|
                            0 <= b < wi implies #[trigger] g.deep_view()[a][b] == g_mid[a][b] by {}
                        assert(g.deep_view()[a] =~= g_mid[a]);
                    }
                }
                let rows_full = unwrap_grid(&g);
                proof {
                    assert forall|a: int|
                        0 <= a < wi implies #[trigger] rows_full.deep_view()[a].len() == wi by {}
                }
                let cols_full = crate::data_square::transpose(&rows_full, w);
                let ds = DataSquare {
                    square_row: rows_full,
                    square_col: cols_full,
                    width: w,
                    original_width: n,
                    chunk_size: size,
                    row_roots,
                    col_roots,
                    codec,
                };
                let eds = ExtendedDataSquare { data_square: ds };
                proof {
                    let rows = eds.data_square.rows();
                    let cols = eds.data_square.cols();
                    assert forall|a: int, b: int|
                        0 <= a < wi && 0 <= b < wi implies #[trigger] rows[a][b].len() == szi by {
                        assert(rows[a] == unwrap_row(g.deep_view()[a]));
                        assert(g.deep_view()[a][b] is Some);
                        assert(rows[a][b] == g.deep_view()[a][b]->0);
                    }
                    assert(grid_wf(rows, wi as nat, szi as nat));
                    assert forall|a: int, b: int|
                        0 <= a < wi && 0 <= b < wi implies #[trigger] cols[a][b].len() == szi by {
                        assert(cols[a][b] == rows[b][a]);
                    }
                    assert(grid_wf(cols, wi as nat, szi as nat));
                    assert forall|a: int|
                        0 <= a < wi implies root_spec(#[trigger] rows[a]) == rrv[a] by {
                        assert(rows[a] == unwrap_row(g_mid[a]));
                    }
                    assert forall|b: int|
                        0 <= b < wi implies root_spec(#[trigger] cols[b]) == crv[b] by {
                        assert(cols[b] =~= unwrap_row(sparse_col(g.deep_view(), b, wi))) by {
                            assert forall|a: int|
                                0 <= a < wi implies cols[b][a] == unwrap_row(
                                sparse_col(g.deep_view(), b, wi),
                            )[a] by {
                                assert(cols[b][a] == rows[a][b]);
                                assert(rows[a][b] == g.deep_view()[a][b]->0);
                            }
                        }
                    }
                    assert(eds.data_square.roots_wf());
                    assert(eds.data_square.wf());
                    assert forall|t: Seq<Seq<Seq<u8>>>|
                        #[trigger] recovery_premise(t, g0, nn, szi, rrv, crv) implies rows
                        == t by {
                        assert forall|a: int| 0 <= a < wi implies rows[a] == t[a] by {
                            assert(unwrap_row(g_mid[a]) == t[a]);
                        }
                        assert(rows =~= t);
                    }
                    assert forall|a: int, b: int|
                        #![trigger rows[a][b]]
                        0 <= a < wi && 0 <= b < wi && g0[a][b] is Some implies rows[a][b]
                        == g0[a][b]->0 by {
                        assert(g.deep_view()[a][b] == g0[a][b]);
                        assert(rows[a][b] == g.deep_view()[a][b]->0);
                    }
                    if p7h {
                        assert forall|a: int|
                            0 <= a < wi implies #[trigger] rows[a] == unwrap_row(g0[a]) by {
                            assert(g.deep_view() == g0);
                            assert(rows[a] == unwrap_row(g.deep_view()[a]));
                        }
                    }
                    if p6h {
                        assert(!all_rows_ok || wi == 0);
                        assert(false);
                    }
                }
                return Ok(eds);
            }
            if !progress {
                proof {
                    assert forall|t: Seq<Seq<Seq<u8>>>|
                        !#[trigger] recovery_premise(t, g0, nn, szi, rrv, crv) by {
                        if recovery_premise(t, g0, nn, szi, rrv, crv) {
                            assert(all_rows_ok && all_cols_ok);
                            assert(false);
                        }
                    }
                    if p7h {
                        assert(all_rows_ok && all_cols_ok);
                        assert(false);
                    }
                }
                return Err(Error::InsufficientShares);
            }
            proof {
                assert forall|t: Seq<Seq<Seq<u8>>>|
                    !#[trigger] recovery_premise(t, g0, nn, szi, rrv, crv) by {
                    if recovery_premise(t, g0, nn, szi, rrv, crv) {
                        assert(all_rows_ok && all_cols_ok);
                        assert(false);
                    }
                }
                if p6h {
                    assert(!progress);
                    assert(false);
                }
                if p7h {
                    assert(all_rows_ok && all_cols_ok);
                    assert(false);
                }
            }
            pass += 1;
        }
        proof {
            assert(pass >= 1);
        }
        Err(Error::InsufficientShares)
    }
}

} // verus!
