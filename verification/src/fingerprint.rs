use vstd::prelude::*;
use sha2::Digest;
use sha2::Sha512;
use crate::hash::ContentHash;

verus! {

/// A running SHA-512 computation: a `Sha512` of the `sha2` crate. The
/// hasher is kept out of the verifier's sight, because its type is an alias
/// of generic types whose bounds are traits of `digest` and `typenum`; what
/// is known of it is what the functions below state.
#[verifier::external_body]
pub struct Sha512State {
    hasher: Sha512,
}

/// The bytes that a running computation has taken in so far, in order: the
/// concatenation of the chunks given to `Digest::update` since `Sha512::new`.
pub uninterp spec fn absorbed(state: Sha512State) -> Seq<u8>;

/// The SHA-512 digest of a byte sequence, as `Digest::finalize` gives it for
/// a `Sha512` that has taken in the sequence: 64 bytes that depend on the
/// sequence alone.
pub uninterp spec fn sha512(data: Seq<u8>) -> Seq<u8>;

/// `Sha512::new` of `sha2`: a computation that has taken in nothing yet.
#[verifier::external_body]
fn sha512_start() -> (state: Sha512State)
    ensures
        absorbed(state) == Seq::<u8>::empty(),
{
    Sha512State { hasher: Sha512::new() }
}

/// `Digest::update` of `sha2` on a `Sha512`: the chunk is appended to what
/// the computation has taken in.
#[verifier::external_body]
fn sha512_absorb(state: &mut Sha512State, chunk: &[u8])
    ensures
        absorbed(*final(state)) == absorbed(*old(state)) + chunk@,
{
    state.hasher.update(chunk)
}

/// `Digest::finalize` of `sha2` on a `Sha512`: the 64-byte digest of all that
/// the computation has taken in.
#[verifier::external_body]
fn sha512_finish(state: Sha512State) -> (digest: [u8; 64])
    ensures
        digest@ == sha512(absorbed(state)),
{
    state.hasher.finalize().into()
}

/// Computes the fingerprint of a byte stream that arrives in chunks.
pub struct Fingerprinter {
    state: Sha512State,
}

impl Fingerprinter {
    /// The bytes fed so far, in order.
    pub closed spec fn fed(&self) -> Seq<u8> {
        absorbed(self.state)
    }

    /// A fingerprinter that has been fed nothing.
    pub fn new() -> (fresh: Fingerprinter)
        ensures
            fresh.fed() == Seq::<u8>::empty(),
    {
        Fingerprinter { state: sha512_start() }
    }

    /// Feeds the next chunk of the stream.
    pub fn update(&mut self, chunk: &[u8])
        ensures
            final(self).fed() == old(self).fed() + chunk@,
    {
        sha512_absorb(&mut self.state, chunk);
    }

    /// The fingerprint of everything fed.
    pub fn finish(self) -> (hash: ContentHash)
        ensures
            hash@ == sha512(self.fed()),
    {
        ContentHash::from_bytes(sha512_finish(self.state))
    }
}

/// The fingerprint of a whole byte sequence.
pub fn fingerprint(data: &[u8]) -> (hash: ContentHash)
    ensures
        hash@ == sha512(data@),
{
    let mut running = Fingerprinter::new();
    running.update(data);
    assert(Seq::<u8>::empty() + data@ =~= data@);
    running.finish()
}

} // verus!
