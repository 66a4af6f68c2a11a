use vstd::prelude::*;

use crate::bits::BitIter;
use crate::errors::Error;
use crate::hashes::case_midstate;
use crate::hashes::comp_midstate;
use crate::hashes::compress;
use crate::hashes::decode_hash;
use crate::hashes::disconnect_midstate;
use crate::hashes::drop_midstate;
use crate::hashes::fail_midstate;
use crate::hashes::iden_midstate;
use crate::hashes::injl_midstate;
use crate::hashes::injr_midstate;
use crate::hashes::pair_midstate;
use crate::hashes::take_midstate;
use crate::hashes::unit_midstate;
use crate::hashes::witness_midstate;
use crate::hashes::word_midstate;
use crate::hashes::zero_32_exec;
use crate::jet::Jet;
use crate::natural::NatResult;
use crate::natural::decode_natural;
use crate::natural::lemma_nat_decode_unique;
use crate::natural::nat_decode;
use crate::node::Node;
use crate::node::NodeInner;
use crate::node::is_hidden;
use crate::node::node_encoding;
use crate::node::node_wf;
use crate::node::table_wf;
use crate::node::value_commitment_exec;
use crate::node::word_type;
use crate::node::word_type_exec;
use crate::types::Context;
use crate::types::decode_value;
use crate::types::spec_decode_value;

verus! {

/// Hard ceiling on the declared node count of one program, a safety
/// bound on allocations rather than a protocol rule.
pub const MAX_NODES: usize = 1_000_000;

/// Unify two type handles, wrapping a conflict as a decode error.
fn unify_or(context: &mut Context, a: usize, b: usize) -> (r: Result<(), Error>)
    requires
        old(context).wf(),
        a < old(context).n_vars(),
        b < old(context).n_vars(),
    ensures
        final(context).wf(),
        final(context).n_vars() == old(context).n_vars(),
        (r matches Err(e) ==> e is Type),
{
    match context.unify(a, b) {
        Ok(()) => Ok(()),
        Err(e) => Err(Error::Type(e)),
    }
}

fn is_hidden_exec<J: Jet>(n: &Node<J>) -> (r: bool)
    ensures
        r == is_hidden(*n),
{
    match n.inner {
        NodeInner::Hidden(_) => true,
        _ => false,
    }
}

/// Which two-child variant a subcode pair selects.
pub open spec fn two_kid_tag<J>(inner: NodeInner<J>, s0: bool, s1: bool) -> bool {
    match inner {
        NodeInner::Comp(_, _) => !s0 && !s1,
        NodeInner::Case(_, _) => !s0 && s1,
        NodeInner::AssertL(_, _) => !s0 && s1,
        NodeInner::AssertR(_, _) => !s0 && s1,
        NodeInner::Pair(_, _) => s0 && !s1,
        NodeInner::Disconnect(_, _) => s0 && s1,
        _ => false,
    }
}

/// Which one-child variant a subcode pair selects.
pub open spec fn one_kid_tag<J>(inner: NodeInner<J>, s0: bool, s1: bool) -> bool {
    match inner {
        NodeInner::InjL(_) => !s0 && !s1,
        NodeInner::InjR(_) => !s0 && s1,
        NodeInner::Take(_) => s0 && !s1,
        NodeInner::Drop(_) => s0 && s1,
        _ => false,
    }
}

/// Structural outcome of decoding one node from the front of a bit
/// string, to stand at the next index of the table: the tag names a
/// jet and the rest belongs to the jet collaborator; or the shape was
/// read in full and the node is owed; or the shape was read but its
/// construction unifies existing arrows, which may still conflict; or
/// decoding fails with exactly the given error.
#[verifier::ext_equal]
pub enum NodeStep {
    JetTag,
    Shape,
    Constrain,
    Fail(Error),
}

/// Outcome of the two back-references of a two-child node, each
/// bounded by the next index, and of the both-branches-hidden check of
/// the case family.
pub open spec fn two_kids_step<J: Jet>(
    s: Seq<bool>,
    nodes: Seq<Node<J>>,
    s0: bool,
    s1: bool,
) -> NodeStep {
    let index = nodes.len();
    match nat_decode(s, Some(index)) {
        NatResult::Eos => NodeStep::Fail(Error::EndOfStream),
        NatResult::Overflow => NodeStep::Fail(Error::NaturalOverflow),
        NatResult::OutOfRange { .. } => NodeStep::Fail(Error::BadIndex),
        NatResult::Value { value: v1, consumed: k1 } => match nat_decode(
            s.skip(k1 as int),
            Some(index),
        ) {
            NatResult::Eos => NodeStep::Fail(Error::EndOfStream),
            NatResult::Overflow => NodeStep::Fail(Error::NaturalOverflow),
            NatResult::OutOfRange { .. } => NodeStep::Fail(Error::BadIndex),
            NatResult::Value { value: v2, consumed: k2 } => {
                if !s0 && s1 && is_hidden(nodes[index - v1]) && is_hidden(nodes[index - v2]) {
                    NodeStep::Fail(Error::BothChildrenHidden)
                } else {
                    NodeStep::Constrain
                }
            },
        },
    }
}

/// Outcome of the single back-reference of a one-child node.
pub open spec fn one_kid_step<J: Jet>(s: Seq<bool>, nodes: Seq<Node<J>>) -> NodeStep {
    match nat_decode(s, Some(nodes.len())) {
        NatResult::Eos => NodeStep::Fail(Error::EndOfStream),
        NatResult::Overflow => NodeStep::Fail(Error::NaturalOverflow),
        NatResult::OutOfRange { .. } => NodeStep::Fail(Error::BadIndex),
        NatResult::Value { value, consumed } => NodeStep::Shape,
    }
}

/// Outcome of a constant word: a depth bounded by 32, then a value of
/// the word type of that depth.
pub open spec fn word_step(s: Seq<bool>) -> NodeStep {
    match nat_decode(s, Some(32)) {
        NatResult::Eos => NodeStep::Fail(Error::EndOfStream),
        NatResult::Overflow => NodeStep::Fail(Error::NaturalOverflow),
        NatResult::OutOfRange { .. } => NodeStep::Fail(Error::BadIndex),
        NatResult::Value { value: depth, consumed } => match spec_decode_value(
            word_type((depth - 1) as nat),
            s.skip(consumed as int),
        ) {
            Some(v) => NodeStep::Shape,
            None => NodeStep::Fail(Error::EndOfStream),
        },
    }
}

/// Outcome of reading `n` literal commitment bits.
pub open spec fn hash_step(s: Seq<bool>, n: int) -> NodeStep {
    if s.len() >= n {
        NodeStep::Shape
    } else {
        NodeStep::Fail(Error::EndOfStream)
    }
}

/// The structural outcome of one whole node: the tag dispatch of the
/// grammar, each class handed to its outcome above.
pub open spec fn node_step<J: Jet>(s: Seq<bool>, nodes: Seq<Node<J>>) -> NodeStep {
    if s.len() < 1 {
        NodeStep::Fail(Error::EndOfStream)
    } else if s[0] {
        if s.len() < 2 {
            NodeStep::Fail(Error::EndOfStream)
        } else if s[1] {
            NodeStep::JetTag
        } else {
            word_step(s.skip(2))
        }
    } else if s.len() < 3 {
        NodeStep::Fail(Error::EndOfStream)
    } else if !s[1] {
        if s.len() < 5 {
            NodeStep::Fail(Error::EndOfStream)
        } else if !s[2] {
            two_kids_step(s.skip(5), nodes, s[3], s[4])
        } else {
            one_kid_step(s.skip(5), nodes)
        }
    } else if !s[2] {
        if s.len() < 5 {
            NodeStep::Fail(Error::EndOfStream)
        } else if !s[3] {
            NodeStep::Shape
        } else if !s[4] {
            hash_step(s.skip(5), 512)
        } else {
            NodeStep::Fail(Error::StopCode)
        }
    } else {
        if s.len() < 4 {
            NodeStep::Fail(Error::EndOfStream)
        } else if !s[3] {
            hash_step(s.skip(4), 256)
        } else {
            NodeStep::Shape
        }
    }
}

/// Common shape of each helper's contract: the node is well formed at
/// the next table index and the bits consumed are its encoding minus
/// the already-read tag prefix of `k` bits.
pub open spec fn decoded_suffix<J: Jet>(
    n: Node<J>,
    nodes: Seq<Node<J>>,
    n_vars: nat,
    k: int,
    srem: Seq<bool>,
    consumed: int,
) -> bool {
    let e = node_encoding(n.inner, nodes.len() as nat);
    &&& node_wf(n, nodes.len() as int, nodes, n_vars)
    &&& e.len() >= k
    &&& consumed == e.len() - k
    &&& srem.take(e.len() - k) == e.skip(k)
}

/// The serialized operands of a two-child node standing at `idx`.
pub open spec fn nat_enc_pair(idx: nat, l: usize, r: usize) -> Seq<bool> {
    crate::natural::nat_encoding((idx - l as nat) as nat) + crate::natural::nat_encoding(
        (idx - r as nat) as nat,
    )
}

/// Decode the operands of a two-child node, the tag bits being already
/// consumed: two back-references, each bounded by the next index, then
/// one of composition, the case family, pair, or disconnect.
#[verifier::rlimit(100)]
#[verifier::spinoff_prover]
fn decode_two_kids<J: Jet>(
    bits: &mut BitIter,
    context: &mut Context,
    nodes: &Vec<Node<J>>,
    s0: bool,
    s1: bool,
) -> (r: Result<Node<J>, Error>)
    requires
        old(context).wf(),
        table_wf(nodes@, old(context).n_vars()),
    ensures
        final(context).wf(),
        old(context).n_vars() <= final(context).n_vars(),
        final(bits).stream() == old(bits).stream(),
        old(bits).pos() <= final(bits).pos() <= old(bits).stream().len(),
        (r matches Ok(n) ==> two_kid_tag(n.inner, s0, s1) && decoded_suffix(
            n,
            nodes@,
            final(context).n_vars(),
            5,
            old(bits).remaining(),
            final(bits).pos() - old(bits).pos(),
        )),
        (match two_kids_step(old(bits).remaining(), nodes@, s0, s1) {
            NodeStep::Fail(e) => r == Err::<Node<J>, Error>(e),
            NodeStep::Constrain => r is Ok || (r matches Err(e) && e is Type),
            _ => true,
        }),
{
    proof {
        use_type_invariant(&*bits);
    }
    let index = nodes.len();
    let ghost srem = bits.remaining();
    let ghost p0 = bits.pos();
    let v1 = match decode_natural(bits, Some(index)) {
        Err(e) => {
            return Err(e);
        },
        Ok(v) => v,
    };
    let ghost n1 = bits.pos() - p0;
    proof {
        lemma_nat_decode_unique(srem, Some(index as nat), v1 as nat, n1 as nat);
        assert(bits.remaining() =~= srem.skip(n1));
    }
    let l = index - v1;
    let v2 = match decode_natural(bits, Some(index)) {
        Err(e) => {
            return Err(e);
        },
        Ok(v) => v,
    };
    let ghost n2 = bits.pos() - p0 - n1;
    proof {
        lemma_nat_decode_unique(srem.skip(n1), Some(index as nat), v2 as nat, n2 as nat);
    }
    let rr = index - v2;
    proof {
        assert(node_wf(nodes@[l as int], l as int, nodes@, context.n_vars()));
        assert(node_wf(nodes@[rr as int], rr as int, nodes@, context.n_vars()));
        assert(srem.take(n1 + n2) =~= srem.take(n1) + srem.skip(n1).take(n2));
        assert(srem.take(n1 + n2) =~= nat_enc_pair(index as nat, l, rr));
    }
    if !s0 && !s1 {
        // composition
        match unify_or(context, nodes[l].target, nodes[rr].source) {
            Err(e) => {
                return Err(e);
            },
            Ok(()) => (),
        }
        let cmr = compress(&comp_midstate(), &nodes[l].cmr, &nodes[rr].cmr);
        let n = Node {
            inner: NodeInner::Comp(l, rr),
            cmr,
            source: nodes[l].source,
            target: nodes[rr].target,
        };
        proof {
            let e = node_encoding(n.inner, index as nat);
            assert(e.skip(5) =~= nat_enc_pair(index as nat, l, rr));
        }
        Ok(n)
    } else if !s0 && s1 {
        // the case family; a hidden branch turns the node into an assertion
        let left_hidden = is_hidden_exec(&nodes[l]);
        let right_hidden = is_hidden_exec(&nodes[rr]);
        if left_hidden && right_hidden {
            return Err(Error::BothChildrenHidden);
        }
        let a = context.fresh();
        let b = context.fresh();
        let c = context.fresh();
        let d = context.fresh();
        if !left_hidden {
            let ac = context.product_ty(a, c);
            match unify_or(context, nodes[l].source, ac) {
                Err(e) => {
                    return Err(e);
                },
                Ok(()) => (),
            }
            match unify_or(context, nodes[l].target, d) {
                Err(e) => {
                    return Err(e);
                },
                Ok(()) => (),
            }
        }
        if !right_hidden {
            let bc = context.product_ty(b, c);
            match unify_or(context, nodes[rr].source, bc) {
                Err(e) => {
                    return Err(e);
                },
                Ok(()) => (),
            }
            match unify_or(context, nodes[rr].target, d) {
                Err(e) => {
                    return Err(e);
                },
                Ok(()) => (),
            }
        }
        let ab = context.sum_ty(a, b);
        let source = context.product_ty(ab, c);
        let cmr = compress(&case_midstate(), &nodes[l].cmr, &nodes[rr].cmr);
        let inner = if right_hidden {
            NodeInner::AssertL(l, rr)
        } else if left_hidden {
            NodeInner::AssertR(l, rr)
        } else {
            NodeInner::Case(l, rr)
        };
        let n = Node { inner, cmr, source, target: d };
        proof {
            let e = node_encoding(n.inner, index as nat);
            assert(e.skip(5) =~= nat_enc_pair(index as nat, l, rr));
        }
        Ok(n)
    } else if s0 && !s1 {
        // pair
        match unify_or(context, nodes[l].source, nodes[rr].source) {
            Err(e) => {
                return Err(e);
            },
            Ok(()) => (),
        }
        let target = context.product_ty(nodes[l].target, nodes[rr].target);
        let cmr = compress(&pair_midstate(), &nodes[l].cmr, &nodes[rr].cmr);
        let n = Node { inner: NodeInner::Pair(l, rr), cmr, source: nodes[l].source, target };
        proof {
            let e = node_encoding(n.inner, index as nat);
            assert(e.skip(5) =~= nat_enc_pair(index as nat, l, rr));
        }
        Ok(n)
    } else {
        // disconnect: the left side additionally receives a 256-bit word
        let w256 = word_type_exec(8);
        let wvar = context.type_from_final(&w256);
        let a = context.fresh();
        let b = context.fresh();
        let c = context.fresh();
        let d = context.fresh();
        let wa = context.product_ty(wvar, a);
        let bcv = context.product_ty(b, c);
        match unify_or(context, nodes[l].source, wa) {
            Err(e) => {
                return Err(e);
            },
            Ok(()) => (),
        }
        match unify_or(context, nodes[l].target, bcv) {
            Err(e) => {
                return Err(e);
            },
            Ok(()) => (),
        }
        match unify_or(context, nodes[rr].source, c) {
            Err(e) => {
                return Err(e);
            },
            Ok(()) => (),
        }
        match unify_or(context, nodes[rr].target, d) {
            Err(e) => {
                return Err(e);
            },
            Ok(()) => (),
        }
        let target = context.product_ty(b, d);
        let cmr = compress(&disconnect_midstate(), &nodes[l].cmr, &nodes[rr].cmr);
        let n = Node { inner: NodeInner::Disconnect(l, rr), cmr, source: a, target };
        proof {
            let e = node_encoding(n.inner, index as nat);
            assert(e.skip(5) =~= nat_enc_pair(index as nat, l, rr));
        }
        Ok(n)
    }
}

/// Decode the operand of a one-child node, the tag bits being already
/// consumed: one back-reference, then one of the injections, take, or
/// drop.
fn decode_one_kid<J: Jet>(
    bits: &mut BitIter,
    context: &mut Context,
    nodes: &Vec<Node<J>>,
    s0: bool,
    s1: bool,
) -> (r: Result<Node<J>, Error>)
    requires
        old(context).wf(),
        table_wf(nodes@, old(context).n_vars()),
    ensures
        final(context).wf(),
        old(context).n_vars() <= final(context).n_vars(),
        final(bits).stream() == old(bits).stream(),
        old(bits).pos() <= final(bits).pos() <= old(bits).stream().len(),
        (r matches Ok(n) ==> one_kid_tag(n.inner, s0, s1) && decoded_suffix(
            n,
            nodes@,
            final(context).n_vars(),
            5,
            old(bits).remaining(),
            final(bits).pos() - old(bits).pos(),
        )),
        (match one_kid_step(old(bits).remaining(), nodes@) {
            NodeStep::Fail(e) => r == Err::<Node<J>, Error>(e),
            NodeStep::Shape => r is Ok,
            _ => true,
        }),
{
    proof {
        use_type_invariant(&*bits);
    }
    let index = nodes.len();
    let ghost srem = bits.remaining();
    let ghost p0 = bits.pos();
    let v1 = match decode_natural(bits, Some(index)) {
        Err(e) => {
            return Err(e);
        },
        Ok(v) => v,
    };
    let ghost n1 = bits.pos() - p0;
    proof {
        lemma_nat_decode_unique(srem, Some(index as nat), v1 as nat, n1 as nat);
    }
    let l = index - v1;
    proof {
        assert(node_wf(nodes@[l as int], l as int, nodes@, context.n_vars()));
    }
    if !s0 && !s1 {
        // inject left
        let b = context.fresh();
        let target = context.sum_ty(nodes[l].target, b);
        let cmr = compress(&injl_midstate(), &zero_32_exec(), &nodes[l].cmr);
        let n = Node { inner: NodeInner::InjL(l), cmr, source: nodes[l].source, target };
        proof {
            let e = node_encoding(n.inner, index as nat);
            assert(e.skip(5) =~= crate::natural::nat_encoding((index as nat - l as nat) as nat));
        }
        Ok(n)
    } else if !s0 && s1 {
        // inject right
        let b = context.fresh();
        let target = context.sum_ty(b, nodes[l].target);
        let cmr = compress(&injr_midstate(), &zero_32_exec(), &nodes[l].cmr);
        let n = Node { inner: NodeInner::InjR(l), cmr, source: nodes[l].source, target };
        proof {
            let e = node_encoding(n.inner, index as nat);
            assert(e.skip(5) =~= crate::natural::nat_encoding((index as nat - l as nat) as nat));
        }
        Ok(n)
    } else if s0 && !s1 {
        // take
        let b = context.fresh();
        let source = context.product_ty(nodes[l].source, b);
        let cmr = compress(&take_midstate(), &zero_32_exec(), &nodes[l].cmr);
        let n = Node { inner: NodeInner::Take(l), cmr, source, target: nodes[l].target };
        proof {
            let e = node_encoding(n.inner, index as nat);
            assert(e.skip(5) =~= crate::natural::nat_encoding((index as nat - l as nat) as nat));
        }
        Ok(n)
    } else {
        // drop
        let b = context.fresh();
        let source = context.product_ty(b, nodes[l].source);
        let cmr = compress(&drop_midstate(), &zero_32_exec(), &nodes[l].cmr);
        let n = Node { inner: NodeInner::Drop(l), cmr, source, target: nodes[l].target };
        proof {
            let e = node_encoding(n.inner, index as nat);
            assert(e.skip(5) =~= crate::natural::nat_encoding((index as nat - l as nat) as nat));
        }
        Ok(n)
    }
}

/// Decode a failure node's two literal commitments, the tag bits being
/// already consumed.
fn decode_fail_node<J: Jet>(bits: &mut BitIter, context: &mut Context, nodes: &Vec<Node<J>>) -> (r:
    Result<Node<J>, Error>)
    requires
        old(context).wf(),
    ensures
        final(context).wf(),
        old(context).n_vars() <= final(context).n_vars(),
        final(bits).stream() == old(bits).stream(),
        old(bits).pos() <= final(bits).pos() <= old(bits).stream().len(),
        (r matches Ok(n) ==> n.inner is Fail && decoded_suffix(
            n,
            nodes@,
            final(context).n_vars(),
            5,
            old(bits).remaining(),
            final(bits).pos() - old(bits).pos(),
        )),
        (match hash_step(old(bits).remaining(), 512) {
            NodeStep::Fail(e) => r == Err::<Node<J>, Error>(e),
            NodeStep::Shape => r is Ok,
            _ => true,
        }),
{
    proof {
        use_type_invariant(&*bits);
    }
    let ghost srem = bits.remaining();
    let h1 = match decode_hash(bits) {
        Err(e) => {
            return Err(e);
        },
        Ok(h) => h,
    };
    proof {
        assert(bits.remaining() =~= srem.skip(256));
    }
    let h2 = match decode_hash(bits) {
        Err(e) => {
            return Err(e);
        },
        Ok(h) => h,
    };
    let cmr = compress(&fail_midstate(), &h1, &h2);
    let a = context.fresh();
    let b = context.fresh();
    let n = Node { inner: NodeInner::Fail(h1, h2), cmr, source: a, target: b };
    proof {
        let e = node_encoding(n.inner, nodes@.len() as nat);
        assert(srem.take(512) =~= srem.take(256) + srem.skip(256).take(256));
        assert(e.skip(5) =~= srem.take(512));
    }
    Ok(n)
}

/// Decode a hidden node's literal commitment, the tag bits being
/// already consumed: the commitment is the payload itself, not a hash
/// of it.
fn decode_hidden_node<J: Jet>(bits: &mut BitIter, context: &mut Context, nodes: &Vec<Node<J>>) -> (
    r: Result<Node<J>, Error>)
    requires
        old(context).wf(),
    ensures
        final(context).wf(),
        old(context).n_vars() <= final(context).n_vars(),
        final(bits).stream() == old(bits).stream(),
        old(bits).pos() <= final(bits).pos() <= old(bits).stream().len(),
        (r matches Ok(n) ==> n.inner is Hidden && decoded_suffix(
            n,
            nodes@,
            final(context).n_vars(),
            4,
            old(bits).remaining(),
            final(bits).pos() - old(bits).pos(),
        )),
        (match hash_step(old(bits).remaining(), 256) {
            NodeStep::Fail(e) => r == Err::<Node<J>, Error>(e),
            NodeStep::Shape => r is Ok,
            _ => true,
        }),
{
    proof {
        use_type_invariant(&*bits);
    }
    let ghost srem = bits.remaining();
    let h = match decode_hash(bits) {
        Err(e) => {
            return Err(e);
        },
        Ok(h) => h,
    };
    let cmr = clone_hash(&h);
    let a = context.fresh();
    let b = context.fresh();
    let n = Node { inner: NodeInner::Hidden(h), cmr, source: a, target: b };
    proof {
        let e = node_encoding(n.inner, nodes@.len() as nat);
        assert(e.skip(4) =~= srem.take(256));
    }
    Ok(n)
}

/// Decode a constant word, the tag bits being already consumed: a
/// bounded depth, then a value of the word type of that depth.
fn decode_word_node<J: Jet>(bits: &mut BitIter, context: &mut Context, nodes: &Vec<Node<J>>) -> (r:
    Result<Node<J>, Error>)
    requires
        old(context).wf(),
    ensures
        final(context).wf(),
        old(context).n_vars() <= final(context).n_vars(),
        final(bits).stream() == old(bits).stream(),
        old(bits).pos() <= final(bits).pos() <= old(bits).stream().len(),
        (r matches Ok(n) ==> n.inner is Word && decoded_suffix(
            n,
            nodes@,
            final(context).n_vars(),
            2,
            old(bits).remaining(),
            final(bits).pos() - old(bits).pos(),
        )),
        (match word_step(old(bits).remaining()) {
            NodeStep::Fail(e) => r == Err::<Node<J>, Error>(e),
            NodeStep::Shape => r is Ok,
            _ => true,
        }),
{
    proof {
        use_type_invariant(&*bits);
    }
    let ghost srem = bits.remaining();
    let ghost p0 = bits.pos();
    let depth = match decode_natural(bits, Some(32)) {
        Err(e) => {
            return Err(e);
        },
        Ok(d) => d,
    };
    let ghost n1 = bits.pos() - p0;
    proof {
        lemma_nat_decode_unique(srem, Some(32 as nat), depth as nat, n1 as nat);
        assert(bits.remaining() =~= srem.skip(n1));
    }
    let ty = word_type_exec(depth - 1);
    let value = match decode_value(&ty, bits) {
        Err(e) => {
            return Err(e);
        },
        Ok(v) => v,
    };
    let vh = value_commitment_exec(&value);
    let cmr = compress(&word_midstate(), &zero_32_exec(), &vh);
    let source = context.unit_ty();
    let target = context.type_from_final(&ty);
    let n = Node { inner: NodeInner::Word { depth, value }, cmr, source, target };
    proof {
        let e = node_encoding(n.inner, nodes@.len() as nat);
        let vlen = crate::types::value_bits(value).len() as int;
        assert(srem.take(n1 + vlen) =~= srem.take(n1) + srem.skip(n1).take(vlen));
        assert(e.skip(2) =~= srem.take(n1 + vlen));
    }
    Ok(n)
}

/// Decode a single node from bits, to stand at the next index of the
/// table. Back-references are resolved against the table, the node's
/// commitment is computed from its children's, and its arrow is
/// unified into the shared inference context.
#[verifier::rlimit(100)]
#[verifier::spinoff_prover]
pub fn decode_node<J: Jet>(bits: &mut BitIter, context: &mut Context, nodes: &Vec<Node<J>>) -> (r:
    Result<Node<J>, Error>)
    requires
        old(context).wf(),
        table_wf(nodes@, old(context).n_vars()),
    ensures
        final(context).wf(),
        old(context).n_vars() <= final(context).n_vars(),
        final(bits).stream() == old(bits).stream(),
        old(bits).pos() <= final(bits).pos() <= old(bits).stream().len(),
        (r matches Ok(n) ==> node_wf(n, nodes@.len() as int, nodes@, final(context).n_vars())
            && final(bits).pos() == old(bits).pos() + node_encoding(
            n.inner,
            nodes@.len() as nat,
        ).len() && old(bits).remaining().take(
            node_encoding(n.inner, nodes@.len() as nat).len() as int,
        ) == node_encoding(n.inner, nodes@.len() as nat)),
        (match node_step(old(bits).remaining(), nodes@) {
            NodeStep::Fail(e) => r == Err::<Node<J>, Error>(e),
            NodeStep::Shape => r is Ok,
            NodeStep::Constrain => r is Ok || (r matches Err(e) && e is Type),
            NodeStep::JetTag => r is Ok || (r matches Err(e) && (e is InvalidJet
                || e is EndOfStream)),
        }),
{
    proof {
        use_type_invariant(&*bits);
    }
    let ghost srem = bits.remaining();
    let ghost p0 = bits.pos();

    let b0 = match bits.next() {
        None => {
            return Err(Error::EndOfStream);
        },
        Some(b) => b,
    };
    if b0 {
        // leaf class: a jet or a constant word
        let b1 = match bits.next() {
            None => {
                return Err(Error::EndOfStream);
            },
            Some(b) => b,
        };
        proof {
            assert(bits.remaining() =~= srem.skip(2));
        }
        if b1 {
            // jet
            let j = match J::decode(bits) {
                Err(e) => {
                    return Err(e);
                },
                Ok(j) => j,
            };
            let cmr = j.cmr();
            let source = context.type_from_final(&j.source_ty());
            let target = context.type_from_final(&j.target_ty());
            let n = Node { inner: NodeInner::Jet(j), cmr, source, target };
            proof {
                let e = node_encoding(n.inner, nodes@.len() as nat);
                let je = n.inner->Jet_0.enc();
                assert(srem.skip(2).take(je.len() as int) == je);
                assert(srem.take(e.len() as int) =~= srem.take(2) + srem.skip(2).take(
                    je.len() as int,
                ));
                assert(srem.take(2) =~= seq![true, true]);
                assert(srem.take(e.len() as int) =~= e);
            }
            Ok(n)
        } else {
            let n = match decode_word_node(bits, context, nodes) {
                Err(e) => {
                    return Err(e);
                },
                Ok(n) => n,
            };
            proof {
                let e = node_encoding(n.inner, nodes@.len() as nat);
                assert(srem.skip(2).take(e.len() - 2) == e.skip(2));
                assert(srem.take(e.len() as int) =~= srem.take(2) + srem.skip(2).take(e.len() - 2));
                assert(srem.take(2) =~= seq![true, false]);
                assert(e =~= e.take(2) + e.skip(2));
                assert(e.take(2) =~= seq![true, false]);
                assert(srem.take(e.len() as int) =~= e);
            }
            Ok(n)
        }
    } else {
        let c0 = match bits.next() {
            None => {
                return Err(Error::EndOfStream);
            },
            Some(b) => b,
        };
        let c1 = match bits.next() {
            None => {
                return Err(Error::EndOfStream);
            },
            Some(b) => b,
        };
        if !c0 {
            let s0 = match bits.next() {
                None => {
                    return Err(Error::EndOfStream);
                },
                Some(b) => b,
            };
            let s1 = match bits.next() {
                None => {
                    return Err(Error::EndOfStream);
                },
                Some(b) => b,
            };
            proof {
                assert(bits.remaining() =~= srem.skip(5));
            }
            if !c1 {
                let n = match decode_two_kids(bits, context, nodes, s0, s1) {
                    Err(e) => {
                        return Err(e);
                    },
                    Ok(n) => n,
                };
                proof {
                    let e = node_encoding(n.inner, nodes@.len() as nat);
                    assert(srem.skip(5).take(e.len() - 5) == e.skip(5));
                    assert(srem.take(e.len() as int) =~= srem.take(5) + srem.skip(5).take(
                        e.len() - 5,
                    ));
                    assert(srem.take(5) =~= seq![false, false, false, s0, s1]);
                    assert(e =~= e.take(5) + e.skip(5));
                    assert(e.take(5) =~= seq![false, false, false, s0, s1]);
                }
                Ok(n)
            } else {
                let n = match decode_one_kid(bits, context, nodes, s0, s1) {
                    Err(e) => {
                        return Err(e);
                    },
                    Ok(n) => n,
                };
                proof {
                    let e = node_encoding(n.inner, nodes@.len() as nat);
                    assert(srem.skip(5).take(e.len() - 5) == e.skip(5));
                    assert(srem.take(e.len() as int) =~= srem.take(5) + srem.skip(5).take(
                        e.len() - 5,
                    ));
                    assert(srem.take(5) =~= seq![false, false, true, s0, s1]);
                    assert(e =~= e.take(5) + e.skip(5));
                    assert(e.take(5) =~= seq![false, false, true, s0, s1]);
                }
                Ok(n)
            }
        } else if !c1 {
            // leaves with a two-bit subcode
            let s0 = match bits.next() {
                None => {
                    return Err(Error::EndOfStream);
                },
                Some(b) => b,
            };
            let s1 = match bits.next() {
                None => {
                    return Err(Error::EndOfStream);
                },
                Some(b) => b,
            };
            proof {
                assert(bits.remaining() =~= srem.skip(5));
            }
            if !s0 && !s1 {
                // identity
                let a = context.fresh();
                let n = Node { inner: NodeInner::Iden, cmr: iden_midstate(), source: a, target: a };
                proof {
                    let e = node_encoding(n.inner, nodes@.len() as nat);
                    assert(srem.take(e.len() as int) =~= e);
                }
                Ok(n)
            } else if !s0 && s1 {
                // unit
                let a = context.fresh();
                let u = context.unit_ty();
                let n = Node { inner: NodeInner::Unit, cmr: unit_midstate(), source: a, target: u };
                proof {
                    let e = node_encoding(n.inner, nodes@.len() as nat);
                    assert(srem.take(e.len() as int) =~= e);
                }
                Ok(n)
            } else if s0 && !s1 {
                let n = match decode_fail_node(bits, context, nodes) {
                    Err(e) => {
                        return Err(e);
                    },
                    Ok(n) => n,
                };
                proof {
                    let e = node_encoding(n.inner, nodes@.len() as nat);
                    assert(srem.skip(5).take(e.len() - 5) == e.skip(5));
                    assert(srem.take(e.len() as int) =~= srem.take(5) + srem.skip(5).take(
                        e.len() - 5,
                    ));
                    assert(srem.take(5) =~= seq![false, true, false, true, false]);
                    assert(e =~= e.take(5) + e.skip(5));
                    assert(e.take(5) =~= seq![false, true, false, true, false]);
                }
                Ok(n)
            } else {
                // reserved stop code
                Err(Error::StopCode)
            }
        } else {
            // leaves with a one-bit subcode
            let s0 = match bits.next() {
                None => {
                    return Err(Error::EndOfStream);
                },
                Some(b) => b,
            };
            proof {
                assert(bits.remaining() =~= srem.skip(4));
            }
            if !s0 {
                let n = match decode_hidden_node(bits, context, nodes) {
                    Err(e) => {
                        return Err(e);
                    },
                    Ok(n) => n,
                };
                proof {
                    let e = node_encoding(n.inner, nodes@.len() as nat);
                    assert(srem.skip(4).take(e.len() - 4) == e.skip(4));
                    assert(srem.take(e.len() as int) =~= srem.take(4) + srem.skip(4).take(
                        e.len() - 4,
                    ));
                    assert(srem.take(4) =~= seq![false, true, true, false]);
                    assert(e =~= e.take(4) + e.skip(4));
                    assert(e.take(4) =~= seq![false, true, true, false]);
                }
                Ok(n)
            } else {
                // witness placeholder
                let a = context.fresh();
                let b = context.fresh();
                let n = Node {
                    inner: NodeInner::Witness,
                    cmr: witness_midstate(),
                    source: a,
                    target: b,
                };
                proof {
                    let e = node_encoding(n.inner, nodes@.len() as nat);
                    assert(srem.take(e.len() as int) =~= e);
                }
                Ok(n)
            }
        }
    }
}

/// Copy a 32-byte commitment.
fn clone_hash(h: &Vec<u8>) -> (r: Vec<u8>)
    ensures
        r@ == h@,
{
    let mut r: Vec<u8> = Vec::new();
    let mut i: usize = 0;
    while i < h.len()
        invariant
            0 <= i <= h@.len(),
            r@ == h@.take(i as int),
        decreases h@.len() - i,
    {
        r.push(h[i]);
        proof {
            assert(r@ =~= h@.take(i + 1));
        }
        i = i + 1;
    }
    proof {
        assert(h@.take(h@.len() as int) =~= h@);
    }
    r
}

} // verus!
