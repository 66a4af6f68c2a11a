use vstd::prelude::*;

use crate::bits::BitIter;
use crate::errors::Error;
use crate::natural::NatResult;
use crate::natural::decode_natural;
use crate::natural::nat_decode;
use crate::types::FinalType;
use crate::types::Value;
use crate::types::decode_value;
use crate::types::spec_decode_value;
use crate::types::value_bits;
use crate::types::value_matches;

verus! {

/// A second pass over the bit source, run after the structural program
/// has been read: it reads a declared bit length, then hands out one
/// run-time value per witness leaf, and finally checks the exact
/// length.
pub struct WitnessDecoder {
    /// The read position at which the declared witness data ends.
    pub max_n: usize,
}

impl WitnessDecoder {
    /// Read the witness header: a zero flag bit means no witness data,
    /// a one flag bit is followed by the declared bit length. Succeeds
    /// exactly when the header is readable and the declared end fits
    /// the machine's read counter.
    pub fn new(bits: &mut BitIter) -> (r: Result<WitnessDecoder, Error>)
        ensures
            final(bits).stream() == old(bits).stream(),
            old(bits).pos() <= final(bits).pos() <= old(bits).stream().len(),
            ({
                let s = old(bits).remaining();
                if s.len() == 0 {
                    r == Err::<WitnessDecoder, Error>(Error::EndOfStream)
                } else if !s[0] {
                    match r {
                        Ok(d) => final(bits).pos() == old(bits).pos() + 1 && d.max_n == final(bits).pos(),
                        Err(_) => false,
                    }
                } else {
                    match nat_decode(s.skip(1), None) {
                        NatResult::Value { value, consumed } => if old(bits).pos() + 1 + consumed
                            + value <= usize::MAX {
                            match r {
                                Ok(d) => final(bits).pos() == old(bits).pos() + 1 + consumed
                                    && d.max_n == final(bits).pos() + value,
                                Err(_) => false,
                            }
                        } else {
                            r == Err::<WitnessDecoder, Error>(Error::EndOfStream)
                        },
                        NatResult::Eos => r == Err::<WitnessDecoder, Error>(Error::EndOfStream),
                        NatResult::Overflow => r == Err::<WitnessDecoder, Error>(
                            Error::NaturalOverflow,
                        ),
                        NatResult::OutOfRange { .. } => false,
                    }
                }
            }),
    {
        proof {
            use_type_invariant(&*bits);
        }
        let ghost s = bits.remaining();
        let bit_len = match bits.next() {
            Some(false) => 0,
            Some(true) => {
                proof {
                    assert(bits.remaining() =~= s.skip(1));
                }
                match decode_natural(bits, None) {
                    Err(e) => {
                        return Err(e);
                    },
                    Ok(v) => v,
                }
            },
            None => {
                return Err(Error::EndOfStream);
            },
        };
        let n_start = bits.n_total_read();
        if bit_len > usize::MAX - n_start {
            // no stream can hold that many further bits
            return Err(Error::EndOfStream);
        }
        Ok(WitnessDecoder { max_n: n_start + bit_len })
    }

    /// Pull the next witness leaf's value, decoded against that leaf's
    /// fully resolved type.
    pub fn next(&self, bits: &mut BitIter, ty: &FinalType) -> (r: Result<Value, Error>)
        ensures
            final(bits).stream() == old(bits).stream(),
            old(bits).pos() <= final(bits).pos() <= old(bits).stream().len(),
            match r {
                Ok(v) => {
                    &&& spec_decode_value(*ty, old(bits).remaining()) == Some(v)
                    &&& value_matches(v, *ty)
                    &&& final(bits).pos() == old(bits).pos() + value_bits(v).len()
                },
                Err(Error::EndOfStream) => spec_decode_value(*ty, old(bits).remaining()) is None,
                Err(_) => false,
            },
    {
        decode_value(ty, bits)
    }

    /// Check that the bits consumed match the declared length exactly:
    /// a strict accounting, not a best-effort trim.
    pub fn finish(self, bits: &BitIter) -> (r: Result<(), Error>)
        ensures
            match r {
                Ok(()) => bits.pos() == self.max_n,
                Err(Error::InconsistentWitnessLength) => bits.pos() != self.max_n,
                Err(_) => false,
            },
    {
        if bits.n_total_read() != self.max_n {
            Err(Error::InconsistentWitnessLength)
        } else {
            Ok(())
        }
    }
}

} // verus!
