use vstd::prelude::*;

use std::rc::Rc;

use crate::hashes::case_iv;
use crate::hashes::comp_iv;
use crate::hashes::compress;
use crate::hashes::disconnect_iv;
use crate::hashes::drop_iv;
use crate::hashes::fail_iv;
use crate::hashes::iden_iv;
use crate::hashes::injl_iv;
use crate::hashes::injl_midstate;
use crate::hashes::injr_iv;
use crate::hashes::injr_midstate;
use crate::hashes::pair_iv;
use crate::hashes::pair_midstate;
use crate::hashes::sha256_compress;
use crate::hashes::take_iv;
use crate::hashes::unit_iv;
use crate::hashes::witness_iv;
use crate::hashes::word_iv;
use crate::hashes::zero_32;
use crate::hashes::zero_32_exec;
use crate::jet::Jet;
use crate::natural::nat_encoding;
use crate::types::FinalType;
use crate::types::Value;
use crate::types::value_bits;
use crate::types::value_matches;

verus! {

/// Relies on std's `Rc::clone`: a cloned handle is the same shared
/// value.
#[verifier::external_body]
fn rc_clone_type(t: &Rc<FinalType>) -> (r: Rc<FinalType>)
    ensures
        r == *t,
{
    Rc::clone(t)
}

/// One decoded node. Children are indices into the node table, always
/// pointing at earlier entries, which makes the table a DAG by
/// construction.
pub enum NodeInner<J> {
    Iden,
    Unit,
    /// Value supplied later by the witness decoder.
    Witness,
    /// Opaque pruned branch: carries only its commitment.
    Hidden(Vec<u8>),
    Fail(Vec<u8>, Vec<u8>),
    Jet(J),
    /// A constant of the `2^(2^(depth-1))`-bit word type.
    Word { depth: usize, value: Value },
    InjL(usize),
    InjR(usize),
    Take(usize),
    Drop(usize),
    Comp(usize, usize),
    /// Both branches live.
    Case(usize, usize),
    Pair(usize, usize),
    Disconnect(usize, usize),
    /// A case node whose right branch is hidden.
    AssertL(usize, usize),
    /// A case node whose left branch is hidden.
    AssertR(usize, usize),
}

/// A node of the table: its structure, its commitment, and its arrow
/// as two handles into the inference context.
pub struct Node<J> {
    pub inner: NodeInner<J>,
    pub cmr: Vec<u8>,
    pub source: usize,
    pub target: usize,
}

/// The fully resolved type of `2^(2^n)` values: the two-valued type for
/// `n == 0`, the product of two copies of the previous word type
/// otherwise.
pub open spec fn word_type(n: nat) -> FinalType
    decreases n,
{
    if n == 0 {
        FinalType::Sum(Rc::new(FinalType::Unit), Rc::new(FinalType::Unit))
    } else {
        let t = word_type((n - 1) as nat);
        FinalType::Product(Rc::new(t), Rc::new(t))
    }
}

/// Build the word type of depth `n`, sharing the two halves.
pub fn word_type_exec(n: usize) -> (t: FinalType)
    ensures
        t == word_type(n as nat),
    decreases n,
{
    if n == 0 {
        FinalType::Sum(Rc::new(FinalType::Unit), Rc::new(FinalType::Unit))
    } else {
        let t = word_type_exec(n - 1);
        let left = Rc::new(t);
        let right = rc_clone_type(&left);
        FinalType::Product(left, right)
    }
}

/// Commitment to a constant value: the unit value commits to zeros,
/// sums fold their branch commitment under the matching injection tag,
/// products fold both halves under the pair tag.
pub open spec fn value_commitment(v: Value) -> Seq<u8>
    decreases v,
{
    match v {
        Value::Unit => zero_32(),
        Value::SumL(x) => sha256_compress(injl_iv(), zero_32() + value_commitment(*x)),
        Value::SumR(x) => sha256_compress(injr_iv(), zero_32() + value_commitment(*x)),
        Value::Prod(x, y) => sha256_compress(pair_iv(), value_commitment(*x) + value_commitment(*y)),
    }
}

pub fn value_commitment_exec(v: &Value) -> (r: Vec<u8>)
    ensures
        r@ == value_commitment(*v),
        r@.len() == 32,
    decreases *v,
{
    match v {
        Value::Unit => zero_32_exec(),
        Value::SumL(x) => {
            let h = value_commitment_exec(x);
            compress(&injl_midstate(), &zero_32_exec(), &h)
        },
        Value::SumR(x) => {
            let h = value_commitment_exec(x);
            compress(&injr_midstate(), &zero_32_exec(), &h)
        },
        Value::Prod(x, y) => {
            let a = value_commitment_exec(x);
            let b = value_commitment_exec(y);
            compress(&pair_midstate(), &a, &b)
        },
    }
}

/// The commitment Merkle root of a node: leaves take their tag
/// midstate (or their literal payload), one-child nodes fold the child
/// commitment against zero padding, two-child nodes fold both
/// children, left then right. The case family shares one tag.
pub open spec fn node_cmr<J: Jet>(inner: NodeInner<J>, nodes: Seq<Node<J>>) -> Seq<u8> {
    match inner {
        NodeInner::Iden => iden_iv(),
        NodeInner::Unit => unit_iv(),
        NodeInner::Witness => witness_iv(),
        NodeInner::Hidden(h) => h@,
        NodeInner::Fail(a, b) => sha256_compress(fail_iv(), a@ + b@),
        NodeInner::Jet(j) => j.cmr_spec(),
        NodeInner::Word { depth, value } => sha256_compress(
            word_iv(),
            zero_32() + value_commitment(value),
        ),
        NodeInner::InjL(c) => sha256_compress(injl_iv(), zero_32() + nodes[c as int].cmr@),
        NodeInner::InjR(c) => sha256_compress(injr_iv(), zero_32() + nodes[c as int].cmr@),
        NodeInner::Take(c) => sha256_compress(take_iv(), zero_32() + nodes[c as int].cmr@),
        NodeInner::Drop(c) => sha256_compress(drop_iv(), zero_32() + nodes[c as int].cmr@),
        NodeInner::Comp(l, r) => sha256_compress(comp_iv(), nodes[l as int].cmr@ + nodes[r as int].cmr@),
        NodeInner::Case(l, r) => sha256_compress(case_iv(), nodes[l as int].cmr@ + nodes[r as int].cmr@),
        NodeInner::Pair(l, r) => sha256_compress(pair_iv(), nodes[l as int].cmr@ + nodes[r as int].cmr@),
        NodeInner::Disconnect(l, r) => sha256_compress(
            disconnect_iv(),
            nodes[l as int].cmr@ + nodes[r as int].cmr@,
        ),
        NodeInner::AssertL(l, r) => sha256_compress(
            case_iv(),
            nodes[l as int].cmr@ + nodes[r as int].cmr@,
        ),
        NodeInner::AssertR(l, r) => sha256_compress(
            case_iv(),
            nodes[l as int].cmr@ + nodes[r as int].cmr@,
        ),
    }
}

pub open spec fn is_hidden<J>(n: Node<J>) -> bool {
    n.inner is Hidden
}

/// A node standing at index `idx` of the table is well formed: its
/// children lie strictly before it, a case keeps two live branches, an
/// assert hides exactly the elided branch, its arrow handles are
/// allocated, and its commitment is derived as `node_cmr` says.
pub open spec fn node_wf<J: Jet>(n: Node<J>, idx: int, nodes: Seq<Node<J>>, n_vars: nat) -> bool {
    &&& n.cmr@.len() == 32
    &&& (n.source as nat) < n_vars
    &&& (n.target as nat) < n_vars
    &&& n.cmr@ == node_cmr(n.inner, nodes)
    &&& match n.inner {
        NodeInner::Hidden(h) => h@.len() == 32,
        NodeInner::Fail(a, b) => a@.len() == 32 && b@.len() == 32,
        NodeInner::Word { depth, value } => 1 <= depth <= 32 && value_matches(
            value,
            word_type((depth - 1) as nat),
        ),
        NodeInner::InjL(c) => c < idx,
        NodeInner::InjR(c) => c < idx,
        NodeInner::Take(c) => c < idx,
        NodeInner::Drop(c) => c < idx,
        NodeInner::Comp(l, r) => l < idx && r < idx,
        NodeInner::Case(l, r) => l < idx && r < idx && !is_hidden(nodes[l as int]) && !is_hidden(
            nodes[r as int],
        ),
        NodeInner::Pair(l, r) => l < idx && r < idx,
        NodeInner::Disconnect(l, r) => l < idx && r < idx,
        NodeInner::AssertL(l, r) => l < idx && r < idx && !is_hidden(nodes[l as int]) && is_hidden(
            nodes[r as int],
        ),
        NodeInner::AssertR(l, r) => l < idx && r < idx && is_hidden(nodes[l as int]) && !is_hidden(
            nodes[r as int],
        ),
        _ => true,
    }
}

/// Every node of the table is well formed at its index.
pub open spec fn table_wf<J: Jet>(nodes: Seq<Node<J>>, n_vars: nat) -> bool {
    forall|i: int| 0 <= i < nodes.len() ==> #[trigger] node_wf(nodes[i], i, nodes, n_vars)
}

/// The bits that serialize one node standing at index `idx`:
/// its tag, then its operands; back-references are encoded as the
/// distance to the child.
pub open spec fn node_encoding<J: Jet>(inner: NodeInner<J>, idx: nat) -> Seq<bool> {
    match inner {
        NodeInner::Comp(l, r) => seq![false, false, false, false, false] + nat_encoding(
            (idx - l as nat) as nat,
        ) + nat_encoding((idx - r as nat) as nat),
        NodeInner::Case(l, r) => seq![false, false, false, false, true] + nat_encoding(
            (idx - l as nat) as nat,
        ) + nat_encoding((idx - r as nat) as nat),
        NodeInner::AssertL(l, r) => seq![false, false, false, false, true] + nat_encoding(
            (idx - l as nat) as nat,
        ) + nat_encoding((idx - r as nat) as nat),
        NodeInner::AssertR(l, r) => seq![false, false, false, false, true] + nat_encoding(
            (idx - l as nat) as nat,
        ) + nat_encoding((idx - r as nat) as nat),
        NodeInner::Pair(l, r) => seq![false, false, false, true, false] + nat_encoding(
            (idx - l as nat) as nat,
        ) + nat_encoding((idx - r as nat) as nat),
        NodeInner::Disconnect(l, r) => seq![false, false, false, true, true] + nat_encoding(
            (idx - l as nat) as nat,
        ) + nat_encoding((idx - r as nat) as nat),
        NodeInner::InjL(c) => seq![false, false, true, false, false] + nat_encoding(
            (idx - c as nat) as nat,
        ),
        NodeInner::InjR(c) => seq![false, false, true, false, true] + nat_encoding(
            (idx - c as nat) as nat,
        ),
        NodeInner::Take(c) => seq![false, false, true, true, false] + nat_encoding(
            (idx - c as nat) as nat,
        ),
        NodeInner::Drop(c) => seq![false, false, true, true, true] + nat_encoding(
            (idx - c as nat) as nat,
        ),
        NodeInner::Iden => seq![false, true, false, false, false],
        NodeInner::Unit => seq![false, true, false, false, true],
        NodeInner::Fail(a, b) => seq![false, true, false, true, false]
            + crate::bits::bytes_to_bits(a@) + crate::bits::bytes_to_bits(b@),
        NodeInner::Hidden(h) => seq![false, true, true, false] + crate::bits::bytes_to_bits(h@),
        NodeInner::Witness => seq![false, true, true, true],
        NodeInner::Jet(j) => seq![true, true] + j.enc(),
        NodeInner::Word { depth, value } => seq![true, false] + nat_encoding(depth as nat)
            + value_bits(value),
    }
}

/// A well-formed node's commitment reads only entries before `idx`, so
/// extending the table does not change it.
pub proof fn lemma_node_wf_push<J: Jet>(
    n: Node<J>,
    idx: int,
    nodes: Seq<Node<J>>,
    x: Node<J>,
    n_vars: nat,
)
    requires
        node_wf(n, idx, nodes, n_vars),
        idx <= nodes.len(),
    ensures
        node_wf(n, idx, nodes.push(x), n_vars),
{
    let bigger = nodes.push(x);
    assert forall|c: int| 0 <= c < idx implies bigger[c] == nodes[c] by {}
    match n.inner {
        NodeInner::InjL(c) => {
            assert(bigger[c as int] == nodes[c as int]);
        },
        NodeInner::InjR(c) => {
            assert(bigger[c as int] == nodes[c as int]);
        },
        NodeInner::Take(c) => {
            assert(bigger[c as int] == nodes[c as int]);
        },
        NodeInner::Drop(c) => {
            assert(bigger[c as int] == nodes[c as int]);
        },
        NodeInner::Comp(l, r) => {
            assert(bigger[l as int] == nodes[l as int] && bigger[r as int] == nodes[r as int]);
        },
        NodeInner::Case(l, r) => {
            assert(bigger[l as int] == nodes[l as int] && bigger[r as int] == nodes[r as int]);
        },
        NodeInner::Pair(l, r) => {
            assert(bigger[l as int] == nodes[l as int] && bigger[r as int] == nodes[r as int]);
        },
        NodeInner::Disconnect(l, r) => {
            assert(bigger[l as int] == nodes[l as int] && bigger[r as int] == nodes[r as int]);
        },
        NodeInner::AssertL(l, r) => {
            assert(bigger[l as int] == nodes[l as int] && bigger[r as int] == nodes[r as int]);
        },
        NodeInner::AssertR(l, r) => {
            assert(bigger[l as int] == nodes[l as int] && bigger[r as int] == nodes[r as int]);
        },
        _ => {},
    }
}

/// A well-formed table stays well formed when a node that is well
/// formed at the next index is appended and the variable arena grows.
pub proof fn lemma_table_wf_push<J: Jet>(
    nodes: Seq<Node<J>>,
    x: Node<J>,
    v1: nat,
    v2: nat,
)
    requires
        table_wf(nodes, v1),
        node_wf(x, nodes.len() as int, nodes, v2),
        v1 <= v2,
    ensures
        table_wf(nodes.push(x), v2),
{
    let bigger = nodes.push(x);
    assert forall|i: int| 0 <= i < bigger.len() implies #[trigger] node_wf(
        bigger[i],
        i,
        bigger,
        v2,
    ) by {
        if i < nodes.len() {
            assert(node_wf(nodes[i], i, nodes, v1));
            lemma_node_wf_monotone(nodes[i], i, nodes, v1, v2);
            lemma_node_wf_push(nodes[i], i, nodes, x, v2);
            assert(bigger[i] == nodes[i]);
        } else {
            lemma_node_wf_push(x, i, nodes, x, v2);
            assert(bigger[i] == x);
        }
    }
}

/// Well-formedness only asks that arrow handles are allocated, so a
/// larger arena keeps it.
pub proof fn lemma_node_wf_monotone<J: Jet>(
    n: Node<J>,
    idx: int,
    nodes: Seq<Node<J>>,
    v1: nat,
    v2: nat,
)
    requires
        node_wf(n, idx, nodes, v1),
        v1 <= v2,
    ensures
        node_wf(n, idx, nodes, v2),
{
}

pub proof fn lemma_table_wf_monotone<J: Jet>(nodes: Seq<Node<J>>, v1: nat, v2: nat)
    requires
        table_wf(nodes, v1),
        v1 <= v2,
    ensures
        table_wf(nodes, v2),
{
    assert forall|i: int| 0 <= i < nodes.len() implies #[trigger] node_wf(
        nodes[i],
        i,
        nodes,
        v2,
    ) by {
        assert(node_wf(nodes[i], i, nodes, v1));
        lemma_node_wf_monotone(nodes[i], i, nodes, v1, v2);
    }
}

} // verus!
