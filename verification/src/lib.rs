//! Decoder for a bit-serialized combinator language.
//!
//! Programs are decoded from a bit stream into an append-only table of
//! nodes forming a directed acyclic graph, while a commitment Merkle root
//! is computed for every node.  The serialization is canonical: each
//! program has exactly one legal encoding, and the decoder rejects all
//! others.

mod bits;
mod decode;
mod encode;
mod errors;
mod hashes;
mod jet;
mod natural;
mod node;
mod program;
mod types;
mod witness;

pub use bits::BitIter;
pub use bits::BitWriter;
pub use bits::bits_value;
pub use bits::byte_to_bits;
pub use bits::bytes_to_bits;
pub use decode::MAX_NODES;
pub use decode::NodeStep;
pub use decode::decode_node;
pub use decode::node_step;
pub use encode::encode_program;
pub use errors::Error;
pub use errors::TypeError;
pub use hashes::decode_hash;
pub use jet::Jet;
pub use jet::NoJets;
pub use natural::NatResult;
pub use natural::decode_natural;
pub use natural::encode_natural;
pub use natural::lemma_natural_roundtrip;
pub use natural::lemma_natural_truncated;
pub use natural::nat_decode;
pub use natural::nat_encoding;
pub use node::Node;
pub use node::NodeInner;
pub use node::node_encoding;
pub use node::node_wf;
pub use node::table_wf;
pub use program::Program;
pub use program::canonical;
pub use program::decode_program;
pub use program::decode_program_arbitrary_type;
pub use program::lemma_case_branches_live;
pub use program::noncanonical_witness;
pub use program::program_encoding;
pub use program::stalled_witness;
pub use program::program_wf;
pub use types::Context;
pub use types::preserves_equations;
pub use types::FinalType;
pub use types::Value;
pub use types::decode_value;
pub use types::spec_decode_value;
pub use types::value_bits;
pub use types::value_matches;
pub use witness::WitnessDecoder;
