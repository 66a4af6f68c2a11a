use vstd::prelude::*;

use crate::bits::BitWriter;
use crate::bits::bytes_to_bits;
use crate::jet::Jet;
use crate::natural::encode_natural;
use crate::node::Node;
use crate::node::NodeInner;
use crate::node::node_encoding;
use crate::node::node_wf;
use crate::program::Program;
use crate::program::nodes_encoding;
use crate::program::program_encoding;
use crate::program::program_wf;
use crate::types::Value;
use crate::types::value_bits;

verus! {

/// Write a byte string out bit by bit, each byte most significant bit
/// first.
fn write_byte(w: &mut BitWriter, b: u8)
    ensures
        final(w).bits() == old(w).bits() + crate::bits::byte_to_bits(b),
{
    w.write_bit(b & 0x80 != 0);
    w.write_bit(b & 0x40 != 0);
    w.write_bit(b & 0x20 != 0);
    w.write_bit(b & 0x10 != 0);
    w.write_bit(b & 0x08 != 0);
    w.write_bit(b & 0x04 != 0);
    w.write_bit(b & 0x02 != 0);
    w.write_bit(b & 0x01 != 0);
    proof {
        assert(w.bits() =~= old(w).bits() + crate::bits::byte_to_bits(b));
    }
}

fn write_bytes(w: &mut BitWriter, bytes: &Vec<u8>)
    ensures
        final(w).bits() == old(w).bits() + bytes_to_bits(bytes@),
{
    let mut i: usize = 0;
    proof {
        assert(bytes@.take(0) =~= Seq::<u8>::empty());
        assert(w.bits() =~= old(w).bits() + bytes_to_bits(bytes@.take(0)));
    }
    while i < bytes.len()
        invariant
            0 <= i <= bytes@.len(),
            w.bits() == old(w).bits() + bytes_to_bits(bytes@.take(i as int)),
        decreases bytes@.len() - i,
    {
        write_byte(w, bytes[i]);
        proof {
            crate::bits::lemma_bytes_to_bits_take(bytes@, i as int);
            assert(w.bits() =~= old(w).bits() + bytes_to_bits(bytes@.take(i + 1)));
        }
        i = i + 1;
    }
    proof {
        assert(bytes@.take(bytes@.len() as int) =~= bytes@);
    }
}

/// Write a value out: one discriminant bit per sum, both halves of a
/// product in order, nothing for unit.
fn write_value(v: &Value, w: &mut BitWriter)
    ensures
        final(w).bits() == old(w).bits() + value_bits(*v),
    decreases *v,
{
    match v {
        Value::Unit => {
            proof {
                assert(w.bits() =~= old(w).bits() + value_bits(*v));
            }
        },
        Value::SumL(x) => {
            w.write_bit(false);
            write_value(x, w);
            proof {
                assert(w.bits() =~= old(w).bits() + value_bits(*v));
            }
        },
        Value::SumR(x) => {
            w.write_bit(true);
            write_value(x, w);
            proof {
                assert(w.bits() =~= old(w).bits() + value_bits(*v));
            }
        },
        Value::Prod(x, y) => {
            write_value(x, w);
            write_value(y, w);
            proof {
                assert(w.bits() =~= old(w).bits() + value_bits(*v));
            }
        },
    }
}

/// Serialize one node standing at index `idx`: its tag, then its
/// operands, back-references written as distances.
#[verifier::rlimit(100)]
#[verifier::spinoff_prover]
fn encode_node<J: Jet>(n: &Node<J>, idx: usize, w: &mut BitWriter)
    requires
        match n.inner {
            NodeInner::InjL(c) => c < idx,
            NodeInner::InjR(c) => c < idx,
            NodeInner::Take(c) => c < idx,
            NodeInner::Drop(c) => c < idx,
            NodeInner::Comp(l, r) => l < idx && r < idx,
            NodeInner::Case(l, r) => l < idx && r < idx,
            NodeInner::Pair(l, r) => l < idx && r < idx,
            NodeInner::Disconnect(l, r) => l < idx && r < idx,
            NodeInner::AssertL(l, r) => l < idx && r < idx,
            NodeInner::AssertR(l, r) => l < idx && r < idx,
            NodeInner::Word { depth, value } => depth >= 1,
            _ => true,
        },
    ensures
        final(w).bits() == old(w).bits() + node_encoding(n.inner, idx as nat),
{
    match &n.inner {
        NodeInner::Iden => {
            w.write_bit(false);
            w.write_bit(true);
            w.write_bit(false);
            w.write_bit(false);
            w.write_bit(false);
            proof {
                assert(w.bits() =~= old(w).bits() + node_encoding(n.inner, idx as nat));
            }
        },
        NodeInner::Unit => {
            w.write_bit(false);
            w.write_bit(true);
            w.write_bit(false);
            w.write_bit(false);
            w.write_bit(true);
            proof {
                assert(w.bits() =~= old(w).bits() + node_encoding(n.inner, idx as nat));
            }
        },
        NodeInner::Witness => {
            w.write_bit(false);
            w.write_bit(true);
            w.write_bit(true);
            w.write_bit(true);
            proof {
                assert(w.bits() =~= old(w).bits() + node_encoding(n.inner, idx as nat));
            }
        },
        NodeInner::Hidden(h) => {
            w.write_bit(false);
            w.write_bit(true);
            w.write_bit(true);
            w.write_bit(false);
            write_bytes(w, h);
            proof {
                assert(w.bits() =~= old(w).bits() + node_encoding(n.inner, idx as nat));
            }
        },
        NodeInner::Fail(a, b) => {
            w.write_bit(false);
            w.write_bit(true);
            w.write_bit(false);
            w.write_bit(true);
            w.write_bit(false);
            write_bytes(w, a);
            write_bytes(w, b);
            proof {
                assert(w.bits() =~= old(w).bits() + node_encoding(n.inner, idx as nat));
            }
        },
        NodeInner::Jet(j) => {
            w.write_bit(true);
            w.write_bit(true);
            j.encode(w);
            proof {
                assert(w.bits() =~= old(w).bits() + node_encoding(n.inner, idx as nat));
            }
        },
        NodeInner::Word { depth, value } => {
            w.write_bit(true);
            w.write_bit(false);
            encode_natural(*depth, w);
            write_value(value, w);
            proof {
                assert(w.bits() =~= old(w).bits() + node_encoding(n.inner, idx as nat));
            }
        },
        NodeInner::InjL(c) => {
            w.write_bit(false);
            w.write_bit(false);
            w.write_bit(true);
            w.write_bit(false);
            w.write_bit(false);
            encode_natural(idx - *c, w);
            proof {
                assert(w.bits() =~= old(w).bits() + node_encoding(n.inner, idx as nat));
            }
        },
        NodeInner::InjR(c) => {
            w.write_bit(false);
            w.write_bit(false);
            w.write_bit(true);
            w.write_bit(false);
            w.write_bit(true);
            encode_natural(idx - *c, w);
            proof {
                assert(w.bits() =~= old(w).bits() + node_encoding(n.inner, idx as nat));
            }
        },
        NodeInner::Take(c) => {
            w.write_bit(false);
            w.write_bit(false);
            w.write_bit(true);
            w.write_bit(true);
            w.write_bit(false);
            encode_natural(idx - *c, w);
            proof {
                assert(w.bits() =~= old(w).bits() + node_encoding(n.inner, idx as nat));
            }
        },
        NodeInner::Drop(c) => {
            w.write_bit(false);
            w.write_bit(false);
            w.write_bit(true);
            w.write_bit(true);
            w.write_bit(true);
            encode_natural(idx - *c, w);
            proof {
                assert(w.bits() =~= old(w).bits() + node_encoding(n.inner, idx as nat));
            }
        },
        NodeInner::Comp(l, r) => {
            w.write_bit(false);
            w.write_bit(false);
            w.write_bit(false);
            w.write_bit(false);
            w.write_bit(false);
            encode_natural(idx - *l, w);
            encode_natural(idx - *r, w);
            proof {
                assert(w.bits() =~= old(w).bits() + node_encoding(n.inner, idx as nat));
            }
        },
        NodeInner::Case(l, r) => {
            w.write_bit(false);
            w.write_bit(false);
            w.write_bit(false);
            w.write_bit(false);
            w.write_bit(true);
            encode_natural(idx - *l, w);
            encode_natural(idx - *r, w);
            proof {
                assert(w.bits() =~= old(w).bits() + node_encoding(n.inner, idx as nat));
            }
        },
        NodeInner::AssertL(l, r) => {
            w.write_bit(false);
            w.write_bit(false);
            w.write_bit(false);
            w.write_bit(false);
            w.write_bit(true);
            encode_natural(idx - *l, w);
            encode_natural(idx - *r, w);
            proof {
                assert(w.bits() =~= old(w).bits() + node_encoding(n.inner, idx as nat));
            }
        },
        NodeInner::AssertR(l, r) => {
            w.write_bit(false);
            w.write_bit(false);
            w.write_bit(false);
            w.write_bit(false);
            w.write_bit(true);
            encode_natural(idx - *l, w);
            encode_natural(idx - *r, w);
            proof {
                assert(w.bits() =~= old(w).bits() + node_encoding(n.inner, idx as nat));
            }
        },
        NodeInner::Pair(l, r) => {
            w.write_bit(false);
            w.write_bit(false);
            w.write_bit(false);
            w.write_bit(true);
            w.write_bit(false);
            encode_natural(idx - *l, w);
            encode_natural(idx - *r, w);
            proof {
                assert(w.bits() =~= old(w).bits() + node_encoding(n.inner, idx as nat));
            }
        },
        NodeInner::Disconnect(l, r) => {
            w.write_bit(false);
            w.write_bit(false);
            w.write_bit(false);
            w.write_bit(true);
            w.write_bit(true);
            encode_natural(idx - *l, w);
            encode_natural(idx - *r, w);
            proof {
                assert(w.bits() =~= old(w).bits() + node_encoding(n.inner, idx as nat));
            }
        },
    }
}

/// Serialize a whole decoded program: its node count, then each node
/// in table order. Together with the decoder's contract this is the
/// round trip: the bits written here are exactly the bits the decoder
/// consumed.
#[verifier::loop_isolation(false)]
pub fn encode_program<J: Jet>(p: &Program<J>, w: &mut BitWriter)
    requires
        program_wf(*p),
    ensures
        final(w).bits() == old(w).bits() + program_encoding(p.nodes@),
{
    encode_natural(p.nodes.len(), w);
    let mut i: usize = 0;
    proof {
        assert(w.bits() =~= old(w).bits() + crate::natural::nat_encoding(p.nodes@.len())
            + nodes_encoding(p.nodes@, 0));
    }
    while i < p.nodes.len()
        invariant
            0 <= i <= p.nodes@.len(),
            w.bits() == old(w).bits() + crate::natural::nat_encoding(p.nodes@.len())
                + nodes_encoding(p.nodes@, i as int),
        decreases p.nodes@.len() - i,
    {
        proof {
            assert(node_wf(p.nodes@[i as int], i as int, p.nodes@, p.context.n_vars()));
        }
        encode_node(&p.nodes[i], i, w);
        proof {
            assert(w.bits() =~= old(w).bits() + crate::natural::nat_encoding(p.nodes@.len())
                + nodes_encoding(p.nodes@, i + 1));
        }
        i = i + 1;
    }
}

} // verus!
