//! Two-dimensional Reed-Solomon data-availability scheme: a square of
//! equal-size byte chunks is extended to twice its width with erasure-coded
//! parity, every row and column is bound to a commitment (a root), and a
//! sparse extended square can be repaired back to the full one — or proven
//! unrepairable — against those trusted roots.

use vstd::prelude::*;

pub mod codec;
pub mod data_square;
pub mod merkle_tree;
pub mod rsmt2d;

verus! {

/// A flat list of chunks; each chunk is one fixed-length byte vector.
pub type Matrix2D = Vec<Vec<u8>>;

/// A matrix of chunks: rows (or columns), each a list of chunks.
pub type Matrix3D = Vec<Vec<Vec<u8>>>;

/// Every failure the library reports.
#[derive(Clone, Copy, Debug, PartialEq, Eq, Structural)]
pub enum Error {
    /// Construction was given no chunks at all.
    EmptyInput,
    /// The chunk count is not a perfect square.
    NotSquareCount,
    /// Two chunks (or shares) have different byte lengths.
    UnequalChunkSize,
    /// The erasure coder cannot be built for the requested share count,
    /// or was handed shares it cannot process (for example empty ones).
    CodecConstructionFailure,
    /// The number of shares handed to the coder does not match its parameter.
    CodecShareCountMismatch,
    /// Repair stalled: every remaining incomplete row and column has fewer
    /// present shares than the coder needs.
    InsufficientShares,
    /// Reconstructed or complete data contradicts a trusted root.
    RootMismatch,
    /// The square is already extended; extension runs exactly once.
    AlreadyExtended,
    /// The two derivations of the cross-parity quadrant disagreed; the
    /// erasure code in use is not linear, which the scheme requires.
    CrossParityMismatch,
}

impl Error {
    /// A human-readable description of the failure.
    pub fn message(&self) -> (r: &'static str)
        ensures
            self is EmptyInput ==> r@ == "Data must not be empty."@,
            self is NotSquareCount ==> r@ == "Number of chunks must be a square number."@,
            self is UnequalChunkSize ==> r@ == "All chunks must be of equal size."@,
    {
        match self {
            Error::EmptyInput => "Data must not be empty.",
            Error::NotSquareCount => "Number of chunks must be a square number.",
            Error::UnequalChunkSize => "All chunks must be of equal size.",
            Error::CodecConstructionFailure => "The codec does not support this share count.",
            Error::CodecShareCountMismatch => "Share count does not match the codec parameter.",
            Error::InsufficientShares => "Too few shares are present to repair the square.",
            Error::RootMismatch => "Reconstructed data contradicts a trusted root.",
            Error::AlreadyExtended => "The square is already extended.",
            Error::CrossParityMismatch => "Cross-parity derivations disagree; the codec is not linear.",
        }
    }
}

/// A chunk's deep view is its view.
pub broadcast proof fn lemma_bytes_deep_view(v: Vec<u8>)
    ensures
        #[trigger] v.deep_view() == v@,
{
    assert(v.deep_view() =~= v@);
}

/// An optional chunk's deep view is its view's, slot for slot.
pub broadcast proof fn lemma_opt_bytes_deep_view(v: Option<Vec<u8>>)
    ensures
        (#[trigger] v.deep_view()) == match v {
            Some(c) => Some(c@),
            None => None::<Seq<u8>>,
        },
{
    match v {
        Some(c) => {
            assert(c.deep_view() =~= c@);
        },
        None => {},
    }
}

/// Indexing a chunk matrix's deep view reads the chunk's view.
pub broadcast proof fn lemma_matrix_deep_view_index(m: Vec<Vec<u8>>, i: int)
    requires
        0 <= i < m@.len(),
    ensures
        #[trigger] m.deep_view()[i] == m@[i]@,
{
    assert(m.deep_view()[i] == m@[i].deep_view());
    assert(m@[i].deep_view() =~= m@[i]@);
}

/// Indexing a sparse chunk list's deep view reads the slot's view.
pub broadcast proof fn lemma_sparse_deep_view_index(m: Vec<Option<Vec<u8>>>, i: int)
    requires
        0 <= i < m@.len(),
    ensures
        (#[trigger] m.deep_view()[i]) == match m@[i] {
            Some(c) => Some(c@),
            None => None::<Seq<u8>>,
        },
{
    assert(m.deep_view()[i] == m@[i].deep_view());
    match m@[i] {
        Some(c) => {
            assert(c.deep_view() =~= c@);
        },
        None => {},
    }
}

/// The chunks of `m` form a `count`-element list of `size`-byte chunks.
pub open spec fn chunks_wf(m: Seq<Seq<u8>>, count: nat, size: nat) -> bool {
    &&& m.len() == count
    &&& forall|i: int| 0 <= i < m.len() ==> #[trigger] m[i].len() == size
}

/// Compare two byte vectors; `==` over their mathematical views.
pub fn bytes_eq(a: &Vec<u8>, b: &Vec<u8>) -> (r: bool)
    ensures
        r <==> a@ == b@,
{
    if a.len() != b.len() {
        assert(a@.len() != b@.len());
        return false;
    }
    let mut i: usize = 0;
    while i < a.len()
        invariant
            0 <= i <= a.len(),
            a.len() == b.len(),
            forall|k: int| 0 <= k < i ==> a@[k] == b@[k],
        decreases a.len() - i,
    {
        if a[i] != b[i] {
            return false;
        }
        i += 1;
    }
    proof {
        assert(a@ =~= b@);
    }
    true
}

} // verus!
