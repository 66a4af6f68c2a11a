use vstd::prelude::*;

use crate::bits::BitIter;
use crate::bits::BitWriter;
use crate::errors::Error;
use crate::types::FinalType;

verus! {

/// An externally defined, pre-verified primitive. The set of jets is
/// supplied by the user of this library: decoding reads a jet's binary
/// identifier, and each jet carries its own commitment and arrow.
pub trait Jet: Sized {
    /// The bits that serialize this jet's identifier.
    spec fn enc(&self) -> Seq<bool>;

    /// The jet's 256-bit commitment, fixed by the jet alone.
    spec fn cmr_spec(&self) -> Seq<u8>;

    /// The jet's arrow, fixed by the jet alone.
    spec fn source_ty_spec(&self) -> FinalType;

    /// The other end of the jet's arrow.
    spec fn target_ty_spec(&self) -> FinalType;

    /// Read one jet identifier from the stream. A failure is either the
    /// unrecognized-identifier error or the end of the stream.
    fn decode(iter: &mut BitIter) -> (r: Result<Self, Error>)
        ensures
            final(iter).stream() == old(iter).stream(),
            old(iter).pos() <= final(iter).pos() <= old(iter).stream().len(),
            (r matches Ok(j) ==> final(iter).pos() == old(iter).pos() + j.enc().len() && old(
                iter,
            ).remaining().take(j.enc().len() as int) == j.enc()),
            (r matches Err(e) ==> e is InvalidJet || e is EndOfStream),
    ;

    /// Write the identifier back out.
    fn encode(&self, w: &mut BitWriter)
        ensures
            final(w).bits() == old(w).bits() + self.enc(),
    ;

    /// The jet's commitment as 32 bytes.
    fn cmr(&self) -> (r: Vec<u8>)
        ensures
            r@ == self.cmr_spec(),
            r@.len() == 32,
    ;

    /// Source type of the jet's arrow.
    fn source_ty(&self) -> (t: FinalType)
        ensures
            t == self.source_ty_spec(),
    ;

    /// Target type of the jet's arrow.
    fn target_ty(&self) -> (t: FinalType)
        ensures
            t == self.target_ty_spec(),
    ;
}

/// The empty jet set: decoding a jet identifier always fails with the
/// unrecognized-identifier error, so no value of this type ever comes
/// out of a decoded program. Useful for programs that use no extension
/// primitives.
pub struct NoJets;

impl Jet for NoJets {
    open spec fn enc(&self) -> Seq<bool> {
        Seq::empty()
    }

    open spec fn cmr_spec(&self) -> Seq<u8> {
        crate::hashes::zero_32()
    }

    open spec fn source_ty_spec(&self) -> FinalType {
        FinalType::Unit
    }

    open spec fn target_ty_spec(&self) -> FinalType {
        FinalType::Unit
    }

    fn decode(iter: &mut BitIter) -> (r: Result<Self, Error>) {
        proof {
            use_type_invariant(&*iter);
        }
        Err(Error::InvalidJet)
    }

    fn encode(&self, w: &mut BitWriter) {
        proof {
            assert(w.bits() =~= old(w).bits() + self.enc());
        }
    }

    fn cmr(&self) -> (r: Vec<u8>) {
        crate::hashes::zero_32_exec()
    }

    fn source_ty(&self) -> (t: FinalType) {
        FinalType::Unit
    }

    fn target_ty(&self) -> (t: FinalType) {
        FinalType::Unit
    }
}

} // verus!
