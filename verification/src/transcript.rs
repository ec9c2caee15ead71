//! The Fiat-Shamir transcript: a deterministic challenge generator that
//! hashes every absorbed prover message with Keccak-256 and reads each
//! squeezed digest back as a field element.  Prover and verifier rebuild the
//! same byte stream, so they derive the same challenges.

use vstd::prelude::*;
use sha3::Digest;
use crate::field::{Fq, be8, bytes_mod};

verus! {

/// What Keccak-256 returns on a byte string.  Named, not written out: the
/// digest is a function of the input bytes alone.
pub uninterp spec fn keccak256_of(data: Seq<u8>) -> Seq<u8>;

/// Relies on sha3's `Keccak256` through `Digest::digest`: the digest depends
/// on the input bytes alone and is 32 bytes long.
#[verifier::external_body]
fn keccak256(data: &Vec<u8>) -> (r: Vec<u8>)
    ensures
        r@ == keccak256_of(data@),
        r@.len() == 32,
{
    sha3::Keccak256::digest(data.as_slice()).to_vec()
}

/// The transcript bytes after one squeeze: the digest of the absorbed
/// stream is re-absorbed twice, so later squeezes diverge even without new
/// messages.
#[verifier::opaque]
pub open spec fn squeeze_state(s: Seq<u8>) -> Seq<u8> {
    s + keccak256_of(s) + keccak256_of(s)
}

/// The field element one squeeze yields: the digest read as a big-endian
/// integer and reduced into the field.
#[verifier::opaque]
pub open spec fn squeeze_val(s: Seq<u8>) -> int {
    bytes_mod(keccak256_of(s))
}

/// The transcript bytes after `n` squeezes in a row.
pub open spec fn squeeze_n_state(s: Seq<u8>, n: nat) -> Seq<u8>
    decreases n,
{
    if n == 0 {
        s
    } else {
        squeeze_n_state(squeeze_state(s), (n - 1) as nat)
    }
}

/// The field elements `n` squeezes in a row yield.
pub open spec fn squeeze_n_vals(s: Seq<u8>, n: nat) -> Seq<int>
    decreases n,
{
    if n == 0 {
        Seq::empty()
    } else {
        seq![squeeze_val(s)] + squeeze_n_vals(squeeze_state(s), (n - 1) as nat)
    }
}

/// One more squeeze extends the value list by the value squeezed from the
/// current state.
pub proof fn lemma_squeeze_n_snoc(s: Seq<u8>, n: nat)
    ensures
        squeeze_n_state(s, n + 1) == squeeze_state(squeeze_n_state(s, n)),
        squeeze_n_vals(s, n + 1) == squeeze_n_vals(s, n).push(squeeze_val(squeeze_n_state(s, n))),
    decreases n,
{
    let s1 = squeeze_state(s);
    if n == 0 {
        assert(squeeze_n_vals(s, 1) == seq![squeeze_val(s)] + squeeze_n_vals(s1, 0));
        assert(squeeze_n_vals(s, 1) =~= Seq::<int>::empty().push(squeeze_val(s)));
        assert(squeeze_n_state(s, 1) == squeeze_n_state(s1, 0));
    } else {
        lemma_squeeze_n_snoc(s1, (n - 1) as nat);
        let a = seq![squeeze_val(s)];
        let b = squeeze_n_vals(s1, (n - 1) as nat);
        let x = squeeze_val(squeeze_n_state(s1, (n - 1) as nat));
        assert(squeeze_n_vals(s, n + 1) == a + squeeze_n_vals(s1, n));
        assert(squeeze_n_vals(s1, n) == b.push(x));
        assert(squeeze_n_vals(s, n) == a + b);
        assert(a + b.push(x) =~= (a + b).push(x));
        assert(squeeze_n_state(s, n) == squeeze_n_state(s1, (n - 1) as nat));
        assert(squeeze_n_state(s, n + 1) == squeeze_n_state(s1, n));
    }
}

/// The byte serialization of a table of field elements, element by element.
#[verifier::opaque]
pub open spec fn poly_bytes(l: Seq<int>) -> Seq<u8>
    decreases l.len(),
{
    if l.len() == 0 {
        Seq::empty()
    } else {
        poly_bytes(l.drop_last()) + be8(l.last())
    }
}

/// Serialize a table of field elements as concatenated fixed-width
/// big-endian bytes, the stable encoding the transcript absorbs.
pub fn conv_poly_to_byte(poly: &Vec<Fq>) -> (r: Vec<u8>)
    ensures
        r@ == poly_bytes(crate::mle::table_view(poly@)),
{
    let mut out: Vec<u8> = Vec::new();
    let mut i: usize = 0;
    proof {
        reveal(poly_bytes);
    }
    while i < poly.len()
        invariant
            i <= poly@.len(),
            out@ == poly_bytes(crate::mle::table_view(poly@).take(i as int)),
        decreases poly@.len() - i,
    {
        let bytes = poly[i].to_bytes();
        let mut j: usize = 0;
        while j < bytes.len()
            invariant
                j <= bytes@.len(),
                out@ == poly_bytes(crate::mle::table_view(poly@).take(i as int)) + bytes@.take(
                    j as int,
                ),
                i < poly@.len(),
                bytes@ == be8(crate::mle::table_view(poly@)[i as int]),
            decreases bytes@.len() - j,
        {
            out.push(bytes[j]);
            proof {
                assert(bytes@.take(j as int + 1) =~= bytes@.take(j as int).push(bytes@[j as int]));
                assert(out@ =~= poly_bytes(crate::mle::table_view(poly@).take(i as int))
                    + bytes@.take(j as int + 1));
            }
            j += 1;
        }
        proof {
            reveal(poly_bytes);
            let tv = crate::mle::table_view(poly@);
            assert(tv.take(i as int + 1).drop_last() =~= tv.take(i as int));
            assert(tv.take(i as int + 1).last() == tv[i as int]);
            assert(bytes@.take(bytes@.len() as int) =~= bytes@);
            assert(out@ =~= poly_bytes(tv.take(i as int + 1)));
        }
        i += 1;
    }
    proof {
        let tv = crate::mle::table_view(poly@);
        assert(tv.take(tv.len() as int) =~= tv);
    }
    out
}

/// The Fiat-Shamir transcript: the byte stream absorbed so far.
#[derive(Debug, Clone)]
pub struct Transcript {
    absorbed: Vec<u8>,
}

impl Transcript {
    /// The byte stream absorbed so far.
    pub closed spec fn bytes(self) -> Seq<u8> {
        self.absorbed@
    }

    pub fn new() -> (r: Transcript)
        ensures
            r.bytes() == Seq::<u8>::empty(),
    {
        Transcript { absorbed: Vec::new() }
    }

    /// Append a prover message to the stream.
    pub fn absorb(&mut self, data: &[u8])
        ensures
            final(self).bytes() == old(self).bytes() + data@,
    {
        let mut i: usize = 0;
        while i < data.len()
            invariant
                i <= data@.len(),
                self.absorbed@ == old(self).absorbed@ + data@.take(i as int),
            decreases data@.len() - i,
        {
            self.absorbed.push(data[i]);
            proof {
                assert(data@.take(i as int + 1) =~= data@.take(i as int).push(data@[i as int]));
                assert(old(self).absorbed@ + data@.take(i as int + 1) =~= (old(
                    self,
                ).absorbed@ + data@.take(i as int)).push(data@[i as int]));
            }
            i += 1;
        }
        proof {
            assert(data@.take(data@.len() as int) =~= data@);
        }
    }

    /// Derive one challenge: hash the stream, re-absorb the digest, and
    /// read the digest as a field element.
    pub fn squeeze(&mut self) -> (r: Fq)
        ensures
            r.as_int() == squeeze_val(old(self).bytes()),
            final(self).bytes() == squeeze_state(old(self).bytes()),
    {
        let digest = keccak256(&self.absorbed);
        self.absorb(digest.as_slice());
        self.absorb(digest.as_slice());
        proof {
            reveal(squeeze_state);
            reveal(squeeze_val);
            assert(self.bytes() =~= squeeze_state(old(self).bytes()));
        }
        Fq::from_be_bytes(&digest)
    }

    /// Derive `n` challenges in sequence.
    pub fn squeeze_n(&mut self, n: usize) -> (r: Vec<Fq>)
        ensures
            crate::mle::table_view(r@) == squeeze_n_vals(old(self).bytes(), n as nat),
            final(self).bytes() == squeeze_n_state(old(self).bytes(), n as nat),
            r@.len() == n,
    {
        let mut out: Vec<Fq> = Vec::new();
        let mut i: usize = 0;
        while i < n
            invariant
                i <= n,
                out@.len() == i,
                crate::mle::table_view(out@) == squeeze_n_vals(old(self).bytes(), i as nat),
                self.bytes() == squeeze_n_state(old(self).bytes(), i as nat),
            decreases n - i,
        {
            let c = self.squeeze();
            out.push(c);
            proof {
                lemma_squeeze_n_snoc(old(self).bytes(), i as nat);
                assert(crate::mle::table_view(out@) =~= squeeze_n_vals(
                    old(self).bytes(),
                    (i + 1) as nat,
                ));
            }
            i += 1;
        }
        out
    }
}

} // verus!
