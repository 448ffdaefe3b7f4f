//! Commitment over an ordered sequence of leaves, consumed through a
//! push-leaf / read-root capability. The scheme only needs the root to be a
//! deterministic, order-sensitive function of the leaf sequence; the
//! implementation here commits to the leaves by a length-prefixed
//! concatenation, and a cryptographic hash tree can stand behind the same
//! trait without changing any caller.

use vstd::prelude::*;

use crate::Error;

verus! {

/// Eight big-endian bytes of a 64-bit length.
pub open spec fn be8(n: u64) -> Seq<u8> {
    seq![
        (n >> 56) as u8,
        (n >> 48) as u8,
        (n >> 40) as u8,
        (n >> 32) as u8,
        (n >> 24) as u8,
        (n >> 16) as u8,
        (n >> 8) as u8,
        n as u8,
    ]
}

/// The root committing to an ordered leaf sequence: every leaf contributes
/// its length as eight big-endian bytes followed by its bytes.
pub open spec fn root_spec(leaves: Seq<Seq<u8>>) -> Seq<u8>
    decreases leaves.len(),
{
    if leaves.len() == 0 {
        Seq::empty()
    } else {
        be8(leaves[0].len() as u64) + leaves[0] + root_spec(leaves.drop_first())
    }
}

/// Appending one leaf extends the commitment by that leaf's encoding.
proof fn lemma_root_spec_snoc(l: Seq<Seq<u8>>, x: Seq<u8>)
    ensures
        root_spec(l.push(x)) == root_spec(l) + be8(x.len() as u64) + x,
    decreases l.len(),
{
    let lx = l.push(x);
    if l.len() == 0 {
        assert(lx[0] == x);
        assert(lx.drop_first() =~= Seq::<Seq<u8>>::empty());
        assert(root_spec(Seq::<Seq<u8>>::empty()) == Seq::<u8>::empty());
        assert(root_spec(lx) == be8(x.len() as u64) + x + root_spec(lx.drop_first()));
        assert(root_spec(lx) =~= root_spec(l) + be8(x.len() as u64) + x);
    } else {
        lemma_root_spec_snoc(l.drop_first(), x);
        assert(lx.drop_first() =~= l.drop_first().push(x));
        assert(lx[0] == l[0]);
        assert(root_spec(lx) == be8(l[0].len() as u64) + l[0] + root_spec(l.drop_first().push(x)));
        assert(root_spec(lx) =~= root_spec(l) + be8(x.len() as u64) + x);
    }
}

/// A commitment is empty exactly when no leaf was pushed.
proof fn lemma_root_spec_empty_iff(l: Seq<Seq<u8>>)
    ensures
        root_spec(l).len() == 0 <==> l.len() == 0,
{
    if l.len() > 0 {
        assert(root_spec(l).len() >= be8(l[0].len() as u64).len());
    }
}

/// Append-only, order-sensitive commitment capability.
pub trait MerkleTree: Sized {
    /// The tree's internal consistency, established by its constructor and
    /// preserved by every method.
    spec fn wf(&self) -> bool;

    /// The leaves pushed so far, in order.
    spec fn leaves(&self) -> Seq<Seq<u8>>;

    /// The root this tree computes over a given leaf sequence.
    spec fn root_of(leaves: Seq<Seq<u8>>) -> Seq<u8>;

    /// Append one leaf to the tree.
    fn push(&mut self, data: &[u8]) -> (r: Result<(), Error>)
        requires
            old(self).wf(),
        ensures
            final(self).wf(),
            r is Ok,
            final(self).leaves() == old(self).leaves().push(data@),
    ;

    /// The root over every leaf pushed so far; fails if none was.
    fn root(&self) -> (r: Result<Vec<u8>, Error>)
        requires
            self.wf(),
        ensures
            r is Ok <==> self.leaves().len() > 0,
            r matches Ok(h) ==> h@ == Self::root_of(self.leaves()),
            r matches Err(e) ==> e == Error::EmptyInput,
    ;
}

/// The bound commitment implementation: the length-prefixed concatenation
/// of the leaves, accumulated eagerly on push.
pub struct MerkleTreeImpl {
    acc: Vec<u8>,
    leaves: Ghost<Seq<Seq<u8>>>,
}

/// Create an empty tree.
pub fn new() -> (t: MerkleTreeImpl)
    ensures
        t.wf(),
        t.leaves() == Seq::<Seq<u8>>::empty(),
{
    MerkleTreeImpl { acc: Vec::new(), leaves: Ghost(Seq::empty()) }
}

impl MerkleTree for MerkleTreeImpl {
    closed spec fn wf(&self) -> bool {
        self.acc@ == root_spec(self.leaves@)
    }

    closed spec fn leaves(&self) -> Seq<Seq<u8>> {
        self.leaves@
    }

    open spec fn root_of(leaves: Seq<Seq<u8>>) -> Seq<u8> {
        root_spec(leaves)
    }

    fn push(&mut self, data: &[u8]) -> (r: Result<(), Error>) {
        let len64: u64 = data.len() as u64;
        self.acc.push((len64 >> 56) as u8);
        self.acc.push((len64 >> 48) as u8);
        self.acc.push((len64 >> 40) as u8);
        self.acc.push((len64 >> 32) as u8);
        self.acc.push((len64 >> 24) as u8);
        self.acc.push((len64 >> 16) as u8);
        self.acc.push((len64 >> 8) as u8);
        self.acc.push(len64 as u8);
        let mut i: usize = 0;
        while i < data.len()
            invariant
                0 <= i <= data@.len(),
                self.acc@ == root_spec(self.leaves@) + be8(data@.len() as u64) + data@.take(
                    i as int,
                ),
                self.leaves@ == old(self).leaves@,
            decreases data@.len() - i,
        {
            self.acc.push(data[i]);
            proof {
                assert(data@.take(i + 1) =~= data@.take(i as int).push(data@[i as int]));
            }
            i += 1;
        }
        proof {
            lemma_root_spec_snoc(self.leaves@, data@);
            assert(data@.take(data@.len() as int) =~= data@);
            self.leaves@ = self.leaves@.push(data@);
        }
        Ok(())
    }

    fn root(&self) -> (r: Result<Vec<u8>, Error>) {
        proof {
            lemma_root_spec_empty_iff(self.leaves@);
        }
        if self.acc.len() == 0 {
            Err(Error::EmptyInput)
        } else {
            let mut out: Vec<u8> = Vec::new();
            let mut i: usize = 0;
            while i < self.acc.len()
                invariant
                    0 <= i <= self.acc@.len(),
                    out@ == self.acc@.take(i as int),
                decreases self.acc@.len() - i,
            {
                out.push(self.acc[i]);
                proof {
                    assert(self.acc@.take(i + 1) =~= self.acc@.take(i as int).push(
                        self.acc@[i as int],
                    ));
                }
                i += 1;
            }
            proof {
                assert(self.acc@.take(self.acc@.len() as int) =~= self.acc@);
            }
            Ok(out)
        }
    }
}

} // verus!
