//! Systematic erasure coding over GF(2^8): `data_len` data shares are
//! extended with `data_len` parity shares, and the originals can be
//! reconstructed from any `data_len` of the `2 * data_len` coded shares.
//! The field arithmetic itself is done by the Reed-Solomon coder of the
//! `reed_solomon_erasure` crate, behind trusted wrappers.

use vstd::prelude::*;

use crate::{Error, Matrix2D};

verus! {

broadcast use crate::lemma_bytes_deep_view, crate::lemma_opt_bytes_deep_view, crate::lemma_matrix_deep_view_index, crate::lemma_sparse_deep_view_index;

/// The full systematic codeword the Reed-Solomon code over GF(2^8) assigns
/// to a share list `data`: `2 * data.len()` shares whose first half is
/// `data` itself. The codeword is a function of the data shares alone;
/// its value is known only through the coder.
pub uninterp spec fn codeword_of(data: Seq<Seq<u8>>) -> Seq<Seq<u8>>;

/// Every present share of `shares` agrees with the codeword `cw` at its
/// position.
pub open spec fn consistent_with(shares: Seq<Option<Seq<u8>>>, cw: Seq<Seq<u8>>) -> bool {
    forall|i: int|
        #![trigger shares[i]]
        0 <= i < shares.len() && shares[i] is Some ==> shares[i]->0 == cw[i]
}

/// Every share has the same byte length.
pub open spec fn equal_lens(d: Seq<Seq<u8>>) -> bool {
    forall|i: int| 0 <= i < d.len() ==> #[trigger] d[i].len() == d[0].len()
}

/// Any two present shares have the same byte length.
pub open spec fn present_uniform(s: Seq<Option<Seq<u8>>>) -> bool {
    forall|i: int, j: int|
        #![trigger s[i], s[j]]
        0 <= i < s.len() && 0 <= j < s.len() && s[i] is Some && s[j] is Some ==> s[i]->0.len()
            == s[j]->0.len()
}

/// Every present share is non-empty.
pub open spec fn present_nonempty(s: Seq<Option<Seq<u8>>>) -> bool {
    forall|i: int| #![trigger s[i]] 0 <= i < s.len() && s[i] is Some ==> s[i]->0.len() >= 1
}

/// How many shares are present.
pub open spec fn present_count(s: Seq<Option<Seq<u8>>>) -> nat
    decreases s.len(),
{
    if s.len() == 0 {
        0
    } else {
        present_count(s.drop_last()) + if s.last() is Some {
            1nat
        } else {
            0nat
        }
    }
}

/// Scanning one more slot adds one to the count exactly when it is present.
pub proof fn lemma_present_count_take_step(s: Seq<Option<Seq<u8>>>, i: int)
    requires
        0 <= i < s.len(),
    ensures
        present_count(s.take(i + 1)) == present_count(s.take(i)) + if s[i] is Some {
            1nat
        } else {
            0nat
        },
{
    assert(s.take(i + 1).drop_last() =~= s.take(i));
    assert(s.take(i + 1).last() == s[i]);
}

/// A share list `decode` can reconstruct from: the right count, shapes the
/// field accepts, and at least `n` shares present.
pub open spec fn decodable(s: Seq<Option<Seq<u8>>>, n: nat) -> bool {
    &&& s.len() == 2 * n
    &&& present_uniform(s)
    &&& present_nonempty(s)
    &&& present_count(s) >= n
}

/// The error `decode` reports for a share list it cannot reconstruct from.
pub open spec fn decode_error(s: Seq<Option<Seq<u8>>>, n: nat) -> Error {
    if s.len() != 2 * n {
        Error::CodecShareCountMismatch
    } else if !present_uniform(s) {
        Error::UnequalChunkSize
    } else if present_count(s) < n {
        Error::InsufficientShares
    } else {
        Error::CodecConstructionFailure
    }
}

/// The error `encode` reports for a share list it cannot encode.
pub open spec fn encode_error(d: Seq<Seq<u8>>, n: nat) -> Error {
    if d.len() != n {
        Error::CodecShareCountMismatch
    } else if !equal_lens(d) {
        Error::UnequalChunkSize
    } else {
        Error::CodecConstructionFailure
    }
}

/// What `decode` promises of its output `out` for the input `s`: any
/// original share list whose codeword is systematic, has the expected
/// width, and agrees with every present share of `s`, is exactly `out`.
pub open spec fn recovers(s: Seq<Option<Seq<u8>>>, out: Seq<Seq<u8>>, n: nat) -> bool {
    forall|d: Seq<Seq<u8>>|
        #![trigger codeword_of(d)]
        d.len() == n && codeword_of(d).len() == 2 * n && codeword_of(d).take(n as int) == d
            && consistent_with(s, codeword_of(d)) ==> out == d
}

/// Relies on `reed_solomon_erasure::galois_8::ReedSolomon::{new, encode}`:
/// `new(n, n)` succeeds for `1 <= n <= 128` (GF(2^8) admits 256 shards in
/// all), and `encode` on `2 * n` equally-sized non-empty shards overwrites
/// the last `n` of them with parity that is a deterministic function of the
/// first `n` alone, and touches nothing else.
#[verifier::external_body]
fn rs_encode(data_len: usize, shards: &mut Vec<Vec<u8>>) -> (r: Result<(), Error>)
    requires
        1 <= data_len <= 128,
        old(shards)@.len() == 2 * data_len,
        equal_lens(old(shards).deep_view()),
        old(shards).deep_view()[0].len() >= 1,
    ensures
        r is Ok,
        final(shards)@.len() == old(shards)@.len(),
        forall|i: int|
            0 <= i < data_len ==> #[trigger] final(shards).deep_view()[i] == old(
                shards,
            ).deep_view()[i],
        forall|i: int|
            0 <= i < final(shards)@.len() ==> #[trigger] final(shards).deep_view()[i].len() == old(
                shards,
            ).deep_view()[0].len(),
        final(shards).deep_view() == codeword_of(old(shards).deep_view().take(data_len as int)),
{
    let rs = match reed_solomon_erasure::galois_8::ReedSolomon::new(data_len, data_len) {
        Ok(rs) => rs,
        Err(_) => return Err(Error::CodecConstructionFailure),
    };
    match rs.encode(shards.as_mut_slice()) {
        Ok(()) => Ok(()),
        Err(_) => Err(Error::CodecConstructionFailure),
    }
}

/// Relies on `reed_solomon_erasure::galois_8::ReedSolomon::{new, reconstruct}`:
/// given `2 * n` slots of which at least `n` hold equally-sized non-empty
/// shares, `reconstruct` fills every empty slot and leaves the present ones
/// untouched; whenever the present shares agree with some codeword of the
/// code, the filled slots complete exactly that codeword (any `n` shares
/// determine the codeword uniquely).
#[verifier::external_body]
fn rs_reconstruct(data_len: usize, shards: &mut Vec<Option<Vec<u8>>>) -> (r: Result<(), Error>)
    requires
        1 <= data_len <= 128,
        old(shards)@.len() == 2 * data_len,
        present_uniform(old(shards).deep_view()),
        present_nonempty(old(shards).deep_view()),
        present_count(old(shards).deep_view()) >= data_len,
    ensures
        r is Ok,
        final(shards)@.len() == old(shards)@.len(),
        forall|i: int|
            0 <= i < final(shards)@.len() ==> #[trigger] final(shards).deep_view()[i] is Some,
        forall|i: int|
            0 <= i < old(shards)@.len() && old(shards).deep_view()[i] is Some
                ==> #[trigger] final(shards).deep_view()[i] == old(shards).deep_view()[i],
        present_uniform(final(shards).deep_view()),
        forall|i: int, j: int|
            #![trigger final(shards).deep_view()[i], old(shards).deep_view()[j]]
            0 <= i < final(shards)@.len() && 0 <= j < old(shards)@.len()
                && old(shards).deep_view()[j] is Some ==> final(shards).deep_view()[i]->0.len()
                == old(shards).deep_view()[j]->0.len(),
        forall|d: Seq<Seq<u8>>|
            #![trigger codeword_of(d)]
            d.len() == data_len && codeword_of(d).len() == 2 * data_len && consistent_with(
                old(shards).deep_view(),
                codeword_of(d),
            ) ==> (forall|i: int|
                0 <= i < final(shards)@.len() ==> ((#[trigger] final(shards).deep_view()[i])
                    matches Some(c) && c == codeword_of(d)[i])),
{
    let rs = match reed_solomon_erasure::galois_8::ReedSolomon::new(data_len, data_len) {
        Ok(rs) => rs,
        Err(_) => return Err(Error::CodecConstructionFailure),
    };
    match rs.reconstruct(shards.as_mut_slice()) {
        Ok(()) => Ok(()),
        Err(_) => Err(Error::CodecConstructionFailure),
    }
}

/// Codec handle for encoding and decoding data.
pub trait Codec: Sized {
    /// The codec's internal consistency, established by its constructor.
    spec fn wf(&self) -> bool;

    /// Number of original shares per coded row or column.
    spec fn data_len_spec(&self) -> nat;

    /// The full systematic codeword this codec assigns to a share list.
    spec fn codeword_spec(&self, data: Seq<Seq<u8>>) -> Seq<Seq<u8>>;

    /// Largest number of chunks a square this codec serves may hold.
    spec fn max_chunks_spec(&self) -> nat;

    /// Encode original data; there must be no missing shares. Only returns
    /// the parity shares; the data shares are their own first half of the
    /// codeword (systematic code).
    fn encode(&self, data: Matrix2D) -> (r: Result<Matrix2D, Error>)
        requires
            self.wf(),
        ensures
            r is Ok <==> (data@.len() == self.data_len_spec() && equal_lens(data.deep_view())
                && data.deep_view()[0].len() >= 1),
            r matches Ok(parity) ==> {
                &&& parity@.len() == self.data_len_spec()
                &&& self.codeword_spec(data.deep_view()) == data.deep_view() + parity.deep_view()
                &&& self.codeword_spec(data.deep_view()).take(self.data_len_spec() as int)
                    == data.deep_view()
                &&& forall|i: int|
                    0 <= i < parity@.len() ==> #[trigger] parity.deep_view()[i].len()
                        == data.deep_view()[0].len()
            },
            r matches Err(e) ==> e == encode_error(data.deep_view(), self.data_len_spec()),
    ;

    /// Decode sparse original + parity data; missing shares are `None`.
    /// Returns the original shares only.
    fn decode(&self, shares: Vec<Option<Vec<u8>>>) -> (r: Result<Matrix2D, Error>)
        requires
            self.wf(),
        ensures
            r is Ok <==> decodable(shares.deep_view(), self.data_len_spec()),
            r matches Ok(out) ==> {
                &&& out@.len() == self.data_len_spec()
                &&& forall|i: int, j: int|
                    #![trigger out.deep_view()[i], shares.deep_view()[j]]
                    0 <= i < out@.len() && 0 <= j < shares@.len() && shares.deep_view()[j] is Some
                        ==> out.deep_view()[i].len() == shares.deep_view()[j]->0.len()
                &&& recovers(shares.deep_view(), out.deep_view(), self.data_len_spec())
            },
            r matches Err(e) ==> e == decode_error(shares.deep_view(), self.data_len_spec()),
    ;

    /// The max. number of chunks each code supports in a 2D square.
    fn max_chunks(&self) -> (r: usize)
        ensures
            r == self.max_chunks_spec(),
    ;
}

/// Create a new Reed-Solomon codec for `data_len` original shares per coded
/// row or column. Mirrors the construction bounds of the GF(2^8) coder: at
/// least one data and one parity share, and at most 256 shards in all.
pub fn new(data_len: usize) -> (r: Result<ReedSolomonCodec, Error>)
    ensures
        r is Ok <==> 1 <= data_len <= 128,
        r matches Ok(c) ==> c.wf() && c.data_len_spec() == data_len,
        r matches Err(e) ==> e == Error::CodecConstructionFailure,
{
    if 1 <= data_len && data_len <= 128 {
        Ok(ReedSolomonCodec { data_len })
    } else {
        Err(Error::CodecConstructionFailure)
    }
}

/// Reed-Solomon codec over GF(2^8), systematic, with as many parity shares
/// as data shares.
#[derive(Debug)]
pub struct ReedSolomonCodec {
    data_len: usize,
}

/// Copy one chunk.
pub fn clone_chunk(v: &Vec<u8>) -> (r: Vec<u8>)
    ensures
        r@ == v@,
{
    let mut r: Vec<u8> = Vec::new();
    let mut i: usize = 0;
    while i < v.len()
        invariant
            0 <= i <= v@.len(),
            r@ == v@.take(i as int),
        decreases v@.len() - i,
    {
        r.push(v[i]);
        proof {
            assert(v@.take(i + 1) =~= v@.take(i as int).push(v@[i as int]));
        }
        i += 1;
    }
    proof {
        assert(v@.take(v@.len() as int) =~= v@);
    }
    r
}

/// An all-zero chunk of `size` bytes.
fn zero_chunk(size: usize) -> (r: Vec<u8>)
    ensures
        r@.len() == size,
{
    let mut r: Vec<u8> = Vec::new();
    let mut i: usize = 0;
    while i < size
        invariant
            0 <= i <= size,
            r@.len() == i,
        decreases size - i,
    {
        r.push(0);
        i += 1;
    }
    r
}

impl Codec for ReedSolomonCodec {
    closed spec fn wf(&self) -> bool {
        1 <= self.data_len <= 128
    }

    closed spec fn data_len_spec(&self) -> nat {
        self.data_len as nat
    }

    open spec fn codeword_spec(&self, data: Seq<Seq<u8>>) -> Seq<Seq<u8>> {
        codeword_of(data)
    }

    open spec fn max_chunks_spec(&self) -> nat {
        32768 * 32768
    }

    fn encode(&self, data: Matrix2D) -> (r: Result<Matrix2D, Error>) {
        let n = self.data_len;
        if data.len() != n {
            return Err(Error::CodecShareCountMismatch);
        }
        let size = data[0].len();
        let mut i: usize = 1;
        while i < data.len()
            invariant
                1 <= i <= data@.len(),
                self.wf(),
                n == self.data_len,
                data@.len() == n,
                size == data.deep_view()[0].len(),
                forall|k: int| 0 <= k < i ==> #[trigger] data.deep_view()[k].len() == size,
            decreases data@.len() - i,
        {
            if data[i].len() != size {
                proof {
                    assert(data.deep_view()[i as int].len() != data.deep_view()[0].len());
                    if equal_lens(data.deep_view()) {
                        assert(false);
                    }
                    assert(!equal_lens(data.deep_view()));
                    assert(encode_error(data.deep_view(), self.data_len_spec())
                        == Error::UnequalChunkSize);
                }
                return Err(Error::UnequalChunkSize);
            }
            i += 1;
        }
        assert(equal_lens(data.deep_view()));
        if size == 0 {
            return Err(Error::CodecConstructionFailure);
        }
        let mut shards: Vec<Vec<u8>> = Vec::new();
        i = 0;
        while i < data.len()
            invariant
                0 <= i <= data@.len(),
                shards.deep_view() =~= data.deep_view().take(i as int),
            decreases data@.len() - i,
        {
            let ghost pre = shards.deep_view();
            let c = clone_chunk(&data[i]);
            let ghost cv = c@;
            shards.push(c);
            proof {
                assert(shards.deep_view() =~= pre.push(cv));
                assert(shards.deep_view() =~= data.deep_view().take(i + 1));
            }
            i += 1;
        }
        proof {
            assert(data.deep_view().take(data@.len() as int) =~= data.deep_view());
        }
        i = 0;
        while i < n
            invariant
                0 <= i <= n,
                n == self.data_len,
                1 <= data@.len(),
                size == data.deep_view()[0].len(),
                shards@.len() == data@.len() + i,
                shards.deep_view().take(data@.len() as int) =~= data.deep_view(),
                forall|k: int|
                    0 <= k < shards@.len() ==> #[trigger] shards.deep_view()[k].len()
                        == data.deep_view()[0].len(),
            decreases n - i,
        {
            let z = zero_chunk(size);
            let ghost zv = z@;
            let ghost pre = shards.deep_view();
            shards.push(z);
            proof {
                assert(shards.deep_view() =~= pre.push(zv));
                assert(shards.deep_view().take(data@.len() as int) =~= pre.take(
                    data@.len() as int,
                ));
            }
            i += 1;
        }
        let ghost pre_call = shards.deep_view();
        match rs_encode(n, &mut shards) {
            Ok(()) => {},
            Err(e) => {
                return Err(e);
            },
        }
        proof {
            assert(pre_call.take(n as int) =~= data.deep_view());
        }
        let mut parity: Vec<Vec<u8>> = Vec::new();
        i = n;
        while i < shards.len()
            invariant
                n <= i <= shards@.len(),
                shards@.len() == 2 * n,
                parity.deep_view() =~= shards.deep_view().subrange(n as int, i as int),
                forall|k: int|
                    0 <= k < shards@.len() ==> #[trigger] shards.deep_view()[k].len()
                        == data.deep_view()[0].len(),
                shards.deep_view() == codeword_of(data.deep_view()),
                forall|k: int|
                    0 <= k < n ==> #[trigger] shards.deep_view()[k] == data.deep_view()[k],
            decreases shards@.len() - i,
        {
            let ghost pre = parity.deep_view();
            let c = clone_chunk(&shards[i]);
            let ghost cv = c@;
            parity.push(c);
            proof {
                assert(parity.deep_view() =~= pre.push(cv));
                assert(parity.deep_view() =~= shards.deep_view().subrange(n as int, i + 1));
            }
            i += 1;
        }
        proof {
            assert(codeword_of(data.deep_view()) =~= data.deep_view() + parity.deep_view());
            assert(codeword_of(data.deep_view()).take(n as int) =~= data.deep_view());
            assert forall|k: int|
                0 <= k < parity@.len() implies #[trigger] parity.deep_view()[k].len()
                == data.deep_view()[0].len() by {
                assert(parity.deep_view()[k] == shards.deep_view()[n + k]);
                assert(shards.deep_view()[n + k].len() == data.deep_view()[0].len());
            }
        }
        Ok(parity)
    }

    fn decode(&self, shares: Vec<Option<Vec<u8>>>) -> (r: Result<Matrix2D, Error>) {
        let n = self.data_len;
        if shares.len() != 2 * n {
            return Err(Error::CodecShareCountMismatch);
        }
        let ghost s = shares.deep_view();
        let mut count: usize = 0;
        let mut first_len: usize = 0;
        let mut seen: bool = false;
        let ghost mut first_idx: int = 0;
        let mut i: usize = 0;
        while i < shares.len()
            invariant
                0 <= i <= shares@.len(),
                self.wf(),
                n == self.data_len,
                shares@.len() == 2 * n,
                s == shares.deep_view(),
                s.len() == 2 * n,
                count == present_count(s.take(i as int)),
                count <= i,
                !seen ==> count == 0,
                seen <==> (exists|j: int| 0 <= j < i && #[trigger] s[j] is Some),
                seen ==> 0 <= first_idx < i && (s[first_idx] matches Some(c) && c.len()
                    == first_len),
                forall|j: int|
                    0 <= j < i ==> ((#[trigger] s[j]) matches Some(c) ==> c.len() == first_len),
            decreases shares@.len() - i,
        {
            proof {
                lemma_present_count_take_step(s, i as int);
            }
            match &shares[i] {
                Some(c) => {
                    if !seen {
                        seen = true;
                        first_len = c.len();
                        proof {
                            first_idx = i as int;
                        }
                    } else if c.len() != first_len {
                        proof {
                            assert(s[first_idx] matches Some(a) && a.len() == first_len);
                            assert(s[i as int] matches Some(b) && b.len() != first_len);
                            if present_uniform(s) {
                                assert(false);
                            }
                            assert(!present_uniform(s));
                            assert(decode_error(s, self.data_len_spec())
                                == Error::UnequalChunkSize);
                        }
                        return Err(Error::UnequalChunkSize);
                    }
                    count = count + 1;
                },
                None => {},
            }
            i += 1;
        }
        proof {
            assert(s.take(shares@.len() as int) =~= s);
            assert(present_uniform(s)) by {
                assert forall|a: int, b: int| #![trigger s[a], s[b]]
                    0 <= a < s.len() && 0 <= b < s.len() && s[a] is Some && s[b] is Some
                    implies s[a]->0.len() == s[b]->0.len() by {
                    assert((s[a] matches Some(c) ==> c.len() == first_len) && (s[b] matches Some(
                        c,
                    ) ==> c.len() == first_len));
                }
            }
        }
        if count < n {
            return Err(Error::InsufficientShares);
        }
        if first_len == 0 {
            proof {
                assert(seen);
                assert(s[first_idx] is Some);
                if present_nonempty(s) {
                    assert(false);
                }
            }
            return Err(Error::CodecConstructionFailure);
        }
        proof {
            assert(present_nonempty(s)) by {
                assert forall|j: int| 0 <= j < s.len() && s[j] is Some implies s[j]->0.len()
                    >= 1 by {
                    assert(s[j] matches Some(c) ==> c.len() == first_len);
                }
            }
        }
        assert(decodable(s, self.data_len_spec()));
        let mut shards = shares;
        match rs_reconstruct(n, &mut shards) {
            Ok(()) => {},
            Err(e) => {
                return Err(e);
            },
        }
        let mut out: Vec<Vec<u8>> = Vec::new();
        i = 0;
        while i < n
            invariant
                0 <= i <= n,
                n <= shards@.len(),
                out@.len() == i,
                forall|k: int|
                    0 <= k < shards@.len() ==> #[trigger] shards.deep_view()[k] is Some,
                forall|k: int|
                    0 <= k < i ==> ((#[trigger] shards.deep_view()[k]) matches Some(c)
                        && out.deep_view()[k] == c),
            decreases n - i,
        {
            let ghost pre = out.deep_view();
            match &shards[i] {
                Some(c) => {
                    out.push(clone_chunk(c));
                    proof {
                        assert(out.deep_view() =~= pre.push(c@));
                    }
                },
                None => {
                    proof {
                        assert(shards.deep_view()[i as int] is Some);
                        assert(false);
                    }
                    return Err(Error::CodecConstructionFailure);
                },
            }
            i += 1;
        }
        proof {
            assert forall|d: Seq<Seq<u8>>|
                d.len() == self.data_len_spec() && codeword_of(d).len() == 2
                    * self.data_len_spec() && codeword_of(d).take(self.data_len_spec() as int) == d
                    && consistent_with(s, #[trigger] codeword_of(d)) implies out.deep_view()
                == d by {
                assert(forall|k: int|
                    0 <= k < shards@.len() ==> ((#[trigger] shards.deep_view()[k]) matches Some(c)
                        && c == codeword_of(d)[k]));
                assert forall|k: int| 0 <= k < n implies out.deep_view()[k] == d[k] by {
                    assert(shards.deep_view()[k] is Some);
                    assert(codeword_of(d).take(n as int)[k] == codeword_of(d)[k]);
                }
                assert(out.deep_view() =~= d);
            }
            assert(recovers(s, out.deep_view(), self.data_len_spec()));
            assert forall|a: int, b: int| #![trigger out.deep_view()[a], s[b]]
                0 <= a < out@.len() && 0 <= b < shares@.len() && s[b] is Some
                implies out.deep_view()[a].len() == s[b]->0.len() by {
                assert(shards.deep_view()[a] is Some);
                assert(out.deep_view()[a] == shards.deep_view()[a]->0);
            }
        }
        Ok(out)
    }

    fn max_chunks(&self) -> (r: usize) {
        REED_SOLOMON_MAX_CHUNKS
    }
}

/// The max. number of chunks a code of this family supports in a 2D square.
pub const REED_SOLOMON_MAX_CHUNKS: usize = 32768 * 32768;

/// Round-trip law: decoding an encoding with zero missing shares returns the
/// original shares. `out` stands for anything `decode`'s contract admits on
/// the complete codeword of `d` (which `encode`'s contract shows to be
/// systematic and of full width); that contract forces `out == d`.
pub proof fn lemma_encode_decode_round_trip(d: Seq<Seq<u8>>, out: Seq<Seq<u8>>, n: nat)
    requires
        d.len() == n,
        codeword_of(d).len() == 2 * n,
        codeword_of(d).take(n as int) == d,
        recovers(all_present(codeword_of(d)), out, n),
    ensures
        out == d,
{
    assert(consistent_with(all_present(codeword_of(d)), codeword_of(d)));
}

/// A share list with every share of `cw` present.
pub open spec fn all_present(cw: Seq<Seq<u8>>) -> Seq<Option<Seq<u8>>> {
    Seq::new(cw.len(), |i: int| Some(cw[i]))
}

} // verus!
