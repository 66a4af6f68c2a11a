use vstd::prelude::*;

use crate::bits::BitIter;
use crate::decode::MAX_NODES;
use crate::decode::NodeStep;
use crate::decode::decode_node;
use crate::decode::node_step;
use crate::errors::Error;
use crate::jet::Jet;
use crate::natural::NatResult;
use crate::natural::decode_natural;
use crate::natural::lemma_nat_decode_unique;
use crate::natural::nat_decode;
use crate::natural::nat_encoding;
use crate::node::Node;
use crate::node::NodeInner;
use crate::node::lemma_table_wf_monotone;
use crate::node::lemma_table_wf_push;
use crate::node::node_encoding;
use crate::node::node_wf;
use crate::node::table_wf;
use crate::types::Context;

verus! {

/// Children always point strictly downwards in the table.
pub open spec fn kids_ok<J: Jet>(nodes: Seq<Node<J>>) -> bool {
    forall|i: int|
        0 <= i < nodes.len() ==> match #[trigger] nodes[i].inner {
            NodeInner::InjL(c) => c < i,
            NodeInner::InjR(c) => c < i,
            NodeInner::Take(c) => c < i,
            NodeInner::Drop(c) => c < i,
            NodeInner::Comp(l, r) => l < i && r < i,
            NodeInner::Case(l, r) => l < i && r < i,
            NodeInner::Pair(l, r) => l < i && r < i,
            NodeInner::Disconnect(l, r) => l < i && r < i,
            NodeInner::AssertL(l, r) => l < i && r < i,
            NodeInner::AssertR(l, r) => l < i && r < i,
            _ => true,
        }
}

/// The maximal-sharing post-order traversal from node `i`: children
/// first, left before right, each distinct node recorded once at its
/// first visit.
pub open spec fn visit<J: Jet>(nodes: Seq<Node<J>>, i: int, acc: Seq<usize>) -> Seq<usize>
    decreases i,
{
    if !(0 <= i < nodes.len()) || acc.contains(i as usize) {
        acc
    } else {
        let acc1 = match nodes[i].inner {
            NodeInner::InjL(c) => if c < i {
                visit(nodes, c as int, acc)
            } else {
                acc
            },
            NodeInner::InjR(c) => if c < i {
                visit(nodes, c as int, acc)
            } else {
                acc
            },
            NodeInner::Take(c) => if c < i {
                visit(nodes, c as int, acc)
            } else {
                acc
            },
            NodeInner::Drop(c) => if c < i {
                visit(nodes, c as int, acc)
            } else {
                acc
            },
            NodeInner::Comp(l, r) => if l < i && r < i {
                visit(nodes, r as int, visit(nodes, l as int, acc))
            } else {
                acc
            },
            NodeInner::Case(l, r) => if l < i && r < i {
                visit(nodes, r as int, visit(nodes, l as int, acc))
            } else {
                acc
            },
            NodeInner::Pair(l, r) => if l < i && r < i {
                visit(nodes, r as int, visit(nodes, l as int, acc))
            } else {
                acc
            },
            NodeInner::Disconnect(l, r) => if l < i && r < i {
                visit(nodes, r as int, visit(nodes, l as int, acc))
            } else {
                acc
            },
            NodeInner::AssertL(l, r) => if l < i && r < i {
                visit(nodes, r as int, visit(nodes, l as int, acc))
            } else {
                acc
            },
            NodeInner::AssertR(l, r) => if l < i && r < i {
                visit(nodes, r as int, visit(nodes, l as int, acc))
            } else {
                acc
            },
            _ => acc,
        };
        acc1.push(i as usize)
    }
}

/// A table is in canonical order when the traversal from its last node
/// discovers exactly the nodes `0, 1, 2, ...` in that order: each
/// program has one legal serialization, and every node is reachable.
pub open spec fn canonical<J: Jet>(nodes: Seq<Node<J>>) -> bool {
    visit(nodes, nodes.len() - 1, Seq::empty()) == Seq::new(nodes.len(), |k: int| k as usize)
}

/// Walk the DAG from `i` in post order, recording first visits.
#[verifier::loop_isolation(false)]
fn walk<J: Jet>(nodes: &Vec<Node<J>>, i: usize, visited: &mut Vec<bool>, order: &mut Vec<usize>)
    requires
        kids_ok(nodes@),
        i < nodes@.len(),
        old(visited)@.len() == nodes@.len(),
        forall|k: int|
            0 <= k < nodes@.len() ==> (old(visited)@[k] <==> old(order)@.contains(k as usize)),
    ensures
        final(visited)@.len() == nodes@.len(),
        final(order)@ == visit(nodes@, i as int, old(order)@),
        forall|k: int|
            0 <= k < nodes@.len() ==> (final(visited)@[k] <==> final(order)@.contains(k as usize)),
    decreases i,
{
    let _n = nodes.len();
    if visited[i] {
        return ;
    }
    proof {
        assert(!order@.contains(i));
    }
    match nodes[i].inner {
        NodeInner::InjL(c) => {
            walk(nodes, c, visited, order);
        },
        NodeInner::InjR(c) => {
            walk(nodes, c, visited, order);
        },
        NodeInner::Take(c) => {
            walk(nodes, c, visited, order);
        },
        NodeInner::Drop(c) => {
            walk(nodes, c, visited, order);
        },
        NodeInner::Comp(l, r) => {
            walk(nodes, l, visited, order);
            walk(nodes, r, visited, order);
        },
        NodeInner::Case(l, r) => {
            walk(nodes, l, visited, order);
            walk(nodes, r, visited, order);
        },
        NodeInner::Pair(l, r) => {
            walk(nodes, l, visited, order);
            walk(nodes, r, visited, order);
        },
        NodeInner::Disconnect(l, r) => {
            walk(nodes, l, visited, order);
            walk(nodes, r, visited, order);
        },
        NodeInner::AssertL(l, r) => {
            walk(nodes, l, visited, order);
            walk(nodes, r, visited, order);
        },
        NodeInner::AssertR(l, r) => {
            walk(nodes, l, visited, order);
            walk(nodes, r, visited, order);
        },
        _ => {},
    }
    let ghost before = order@;
    let ghost vbefore = visited@;
    proof {
        assert(forall|k: int|
            0 <= k < nodes@.len() ==> (vbefore[k] <==> before.contains(k as usize)));
    }
    visited.set(i, true);
    order.push(i);
    proof {
        assert(order@ == before.push(i));
        assert forall|k: int| 0 <= k < nodes@.len() implies (visited@[k] <==> order@.contains(
            k as usize,
        )) by {
            if k == i {
                assert(visited@[k]);
                assert(order@[order@.len() - 1] == i);
                assert(order@.contains(k as usize));
            } else {
                assert(visited@[k] == vbefore[k]);
                if before.contains(k as usize) {
                    let m = choose|m: int| 0 <= m < before.len() && before[m] == k as usize;
                    assert(order@[m] == k as usize);
                    assert(order@.contains(k as usize));
                }
                if order@.contains(k as usize) {
                    let m = choose|m: int| 0 <= m < order@.len() && order@[m] == k as usize;
                    if m < before.len() {
                        assert(before[m] == k as usize);
                        assert(before.contains(k as usize));
                    } else {
                        assert(order@[m] == i);
                        assert(false);
                    }
                }
            }
        }
    }
}

/// Re-derive the canonical order of the table and compare it with the
/// physical order.
#[verifier::loop_isolation(false)]
fn check_canonical<J: Jet>(nodes: &Vec<Node<J>>) -> (r: bool)
    requires
        kids_ok(nodes@),
        nodes@.len() >= 1,
    ensures
        r == canonical(nodes@),
{
    let n = nodes.len();
    let mut visited: Vec<bool> = Vec::new();
    let mut i: usize = 0;
    while i < n
        invariant
            0 <= i <= n,
            visited@.len() == i,
            forall|k: int| 0 <= k < i ==> !visited@[k],
        decreases n - i,
    {
        visited.push(false);
        i = i + 1;
    }
    let mut order: Vec<usize> = Vec::new();
    walk(nodes, n - 1, &mut visited, &mut order);
    let ghost target = Seq::new(nodes@.len(), |k: int| k as usize);
    if order.len() != n {
        proof {
            assert(visit(nodes@, nodes@.len() - 1, Seq::empty()) != target);
        }
        return false;
    }
    let mut k: usize = 0;
    while k < n
        invariant
            0 <= k <= n,
            order@.len() == n,
            order@ == visit(nodes@, nodes@.len() - 1, Seq::empty()),
            forall|q: int| 0 <= q < k ==> order@[q] == q as usize,
        decreases n - k,
    {
        if order[k] != k {
            proof {
                assert(order@[k as int] != target[k as int]);
                assert(order@ != target);
            }
            return false;
        }
        k = k + 1;
    }
    proof {
        assert(order@ =~= target);
    }
    true
}

/// A well-formed but non-canonical table whose encoding begins the bit
/// string: the only ground on which the canonical-order error is
/// raised.
pub open spec fn noncanonical_witness<J: Jet>(t: Seq<Node<J>>, s: Seq<bool>) -> bool {
    &&& 1 <= t.len() <= MAX_NODES
    &&& !canonical(t)
    &&& program_encoding(t).len() <= s.len()
    &&& s.take(program_encoding(t).len() as int) == program_encoding(t)
}

/// A partial decode that the input stalls on: a well-formed prefix
/// table of fewer nodes than declared, whose encoding begins the input,
/// where the next node's structural outcome forces exactly this error,
/// hands the bits to the jet collaborator, or adds a type constraint
/// that may conflict. Every program-decoder failure exhibits one of
/// these, the length prefix's own outcome, or a non-canonical table.
pub open spec fn stalled_witness<J: Jet>(t: Seq<Node<J>>, s: Seq<bool>, e: Error) -> bool {
    match nat_decode(s, None) {
        NatResult::Value { value: len, consumed: c } => {
            let p = nat_encoding(len) + nodes_encoding(t, t.len() as int);
            &&& 1 <= len <= MAX_NODES
            &&& (t.len() as nat) < len
            &&& p.len() <= s.len()
            &&& s.take(p.len() as int) == p
            &&& match node_step(s.skip(p.len() as int), t) {
                NodeStep::Fail(e2) => e2 == e,
                NodeStep::JetTag => e is InvalidJet || e is EndOfStream,
                NodeStep::Constrain => e is Type,
                NodeStep::Shape => false,
            }
        },
        _ => false,
    }
}

/// A decoded program: its node table, the root being the final entry,
/// together with the inference context its arrows live in.
pub struct Program<J> {
    pub nodes: Vec<Node<J>>,
    pub context: Context,
}

/// A table well formed at every index, in canonical order, with at
/// least its root.
pub open spec fn program_wf<J: Jet>(p: Program<J>) -> bool {
    &&& p.nodes@.len() >= 1
    &&& p.context.wf()
    &&& table_wf(p.nodes@, p.context.n_vars())
    &&& canonical(p.nodes@)
}

/// The concatenated encodings of the first `k` nodes.
pub open spec fn nodes_encoding<J: Jet>(nodes: Seq<Node<J>>, k: int) -> Seq<bool>
    decreases k,
{
    if k <= 0 {
        Seq::empty()
    } else {
        nodes_encoding(nodes, k - 1) + node_encoding(nodes[k - 1].inner, (k - 1) as nat)
    }
}

/// The bits that serialize a whole program: its length, then each node
/// in order.
pub open spec fn program_encoding<J: Jet>(nodes: Seq<Node<J>>) -> Seq<bool> {
    nat_encoding(nodes.len()) + nodes_encoding(nodes, nodes.len() as int)
}

/// A node's encoding reads nothing from the table, so a longer table
/// encodes the same prefix.
proof fn lemma_nodes_encoding_push<J: Jet>(nodes: Seq<Node<J>>, x: Node<J>, k: int)
    requires
        0 <= k <= nodes.len(),
    ensures
        nodes_encoding(nodes.push(x), k) == nodes_encoding(nodes, k),
    decreases k,
{
    if k > 0 {
        lemma_nodes_encoding_push(nodes, x, k - 1);
        assert(nodes.push(x)[k - 1] == nodes[k - 1]);
    }
}

/// Decode a program from bits, without the witness data and without
/// constraining the root's arrow.
///
/// If witness data is present, it is encoded after the program, and the
/// caller deserializes it separately.
#[verifier::loop_isolation(false)]
pub fn decode_program_arbitrary_type<J: Jet>(bits: &mut BitIter) -> (r: Result<Program<J>, Error>)
    ensures
        final(bits).stream() == old(bits).stream(),
        old(bits).pos() <= final(bits).pos() <= old(bits).stream().len(),
        (r matches Ok(p) ==> program_wf(p) && final(bits).pos() == old(bits).pos()
            + program_encoding(p.nodes@).len() && old(bits).remaining().take(
            program_encoding(p.nodes@).len() as int,
        ) == program_encoding(p.nodes@)),
        (match nat_decode(old(bits).remaining(), None) {
            NatResult::Value { value, consumed } => value > MAX_NODES ==> r == Err::<
                Program<J>,
                Error,
            >(Error::TooManyNodes(value as usize)),
            _ => true,
        }),
        (nat_decode(old(bits).remaining(), None) is Eos ==> r == Err::<Program<J>, Error>(
            Error::EndOfStream,
        )),
        (nat_decode(old(bits).remaining(), None) is Overflow ==> r == Err::<Program<J>, Error>(
            Error::NaturalOverflow,
        )),
        (match nat_decode(old(bits).remaining(), None) {
            NatResult::Value { value, consumed } => value == 0 ==> r == Err::<Program<J>, Error>(
                Error::EmptyProgram,
            ),
            _ => true,
        }),
        (r == Err::<Program<J>, Error>(Error::NotInCanonicalOrder) ==> exists|t: Seq<Node<J>>|
            #[trigger] noncanonical_witness(t, old(bits).remaining())),
        (match r {
            Ok(p) => true,
            Err(e) => {
                ||| (nat_decode(old(bits).remaining(), None) is Eos && e == Error::EndOfStream)
                ||| (nat_decode(old(bits).remaining(), None) is Overflow && e
                    == Error::NaturalOverflow)
                ||| e is EmptyProgram
                ||| e is TooManyNodes
                ||| (e == Error::NotInCanonicalOrder && exists|t: Seq<Node<J>>|
                    #[trigger] noncanonical_witness(t, old(bits).remaining()))
                ||| exists|t: Seq<Node<J>>|
                    #[trigger] stalled_witness(t, old(bits).remaining(), e)
            },
        }),
{
    proof {
        use_type_invariant(&*bits);
    }
    let ghost srem = bits.remaining();
    let ghost p0 = bits.pos();
    let len = match decode_natural(bits, None) {
        Err(e) => {
            return Err(e);
        },
        Ok(v) => v,
    };
    let ghost lenc = bits.pos() - p0;
    proof {
        lemma_nat_decode_unique(srem, None, len as nat, lenc as nat);
    }

    if len == 0 {
        return Err(Error::EmptyProgram);
    }
    if len > MAX_NODES {
        return Err(Error::TooManyNodes(len));
    }

    let mut context = Context::new();
    let mut nodes: Vec<Node<J>> = Vec::new();
    while nodes.len() < len
        invariant
            context.wf(),
            table_wf(nodes@, context.n_vars()),
            nodes@.len() <= len,
            bits.stream() == old(bits).stream(),
            p0 + lenc <= bits.pos() <= old(bits).stream().len(),
            bits.pos() == p0 + lenc + nodes_encoding(nodes@, nodes@.len() as int).len(),
            srem.take(bits.pos() - p0) == nat_encoding(len as nat) + nodes_encoding(
                nodes@,
                nodes@.len() as int,
            ),
        decreases len - nodes@.len(),
    {
        let ghost vars0 = context.n_vars();
        let ghost nodes0 = nodes@;
        let ghost pos0 = bits.pos();
        let new_node = match decode_node(bits, &mut context, &nodes) {
            Err(e) => {
                proof {
                    assert(bits.stream().skip(pos0) =~= srem.skip(pos0 - p0));
                    assert(srem.take(pos0 - p0) == nat_encoding(len as nat) + nodes_encoding(
                        nodes@,
                        nodes@.len() as int,
                    ));
                    assert(stalled_witness(nodes@, srem, e));
                }
                return Err(e);
            },
            Ok(n) => n,
        };
        proof {
            lemma_table_wf_monotone(nodes@, vars0, context.n_vars());
            lemma_table_wf_push(nodes@, new_node, context.n_vars(), context.n_vars());
        }
        nodes.push(new_node);
        proof {
            let k = nodes@.len() as int;
            lemma_nodes_encoding_push(nodes0, new_node, k - 1);
            assert(nodes@.take(k - 1) =~= nodes0);
            assert(nodes_encoding(nodes@, k - 1) == nodes_encoding(nodes0, k - 1)) by {
                lemma_nodes_encoding_prefix(nodes@, nodes0, k - 1);
            }
            let e = node_encoding(new_node.inner, (k - 1) as nat);
            assert(srem.take(bits.pos() - p0) =~= srem.take(pos0 - p0) + srem.subrange(
                pos0 - p0,
                bits.pos() - p0,
            ));
            assert(srem.subrange(pos0 - p0, bits.pos() - p0) =~= srem.skip(pos0 - p0).take(
                e.len() as int,
            ));
            assert(srem.take(bits.pos() - p0) =~= nat_encoding(len as nat) + nodes_encoding(
                nodes@,
                k,
            ));
        }
    }

    proof {
        assert forall|i: int| 0 <= i < nodes@.len() implies match #[trigger] nodes@[i].inner {
            NodeInner::InjL(c) => c < i,
            NodeInner::InjR(c) => c < i,
            NodeInner::Take(c) => c < i,
            NodeInner::Drop(c) => c < i,
            NodeInner::Comp(l, r) => l < i && r < i,
            NodeInner::Case(l, r) => l < i && r < i,
            NodeInner::Pair(l, r) => l < i && r < i,
            NodeInner::Disconnect(l, r) => l < i && r < i,
            NodeInner::AssertL(l, r) => l < i && r < i,
            NodeInner::AssertR(l, r) => l < i && r < i,
            _ => true,
        } by {
            assert(node_wf(nodes@[i], i, nodes@, context.n_vars()));
        }
    }
    if !check_canonical(&nodes) {
        proof {
            assert(srem.take(bits.pos() - p0) =~= program_encoding(nodes@));
            assert(noncanonical_witness(nodes@, srem));
        }
        return Err(Error::NotInCanonicalOrder);
    }

    let p = Program { nodes, context };
    Ok(p)
}

/// Decode a program from bits, without the witness data, additionally
/// unifying the root's source and target with the unit type: a complete
/// top-level program takes no input and returns no output, so on
/// success the root's source and target share one representative.
pub fn decode_program<J: Jet>(bits: &mut BitIter) -> (r: Result<Program<J>, Error>)
    ensures
        final(bits).stream() == old(bits).stream(),
        old(bits).pos() <= final(bits).pos() <= old(bits).stream().len(),
        (r matches Ok(p) ==> program_wf(p) && final(bits).pos() == old(bits).pos()
            + program_encoding(p.nodes@).len() && old(bits).remaining().take(
            program_encoding(p.nodes@).len() as int,
        ) == program_encoding(p.nodes@) && p.context.is_unit(
            p.nodes@[p.nodes@.len() - 1].source as int,
        ) && p.context.is_unit(p.nodes@[p.nodes@.len() - 1].target as int)),
        (match nat_decode(old(bits).remaining(), None) {
            NatResult::Value { value, consumed } => value > MAX_NODES ==> r == Err::<
                Program<J>,
                Error,
            >(Error::TooManyNodes(value as usize)),
            _ => true,
        }),
        (nat_decode(old(bits).remaining(), None) is Eos ==> r == Err::<Program<J>, Error>(
            Error::EndOfStream,
        )),
        (nat_decode(old(bits).remaining(), None) is Overflow ==> r == Err::<Program<J>, Error>(
            Error::NaturalOverflow,
        )),
        (match nat_decode(old(bits).remaining(), None) {
            NatResult::Value { value, consumed } => value == 0 ==> r == Err::<Program<J>, Error>(
                Error::EmptyProgram,
            ),
            _ => true,
        }),
        (r == Err::<Program<J>, Error>(Error::NotInCanonicalOrder) ==> exists|t: Seq<Node<J>>|
            #[trigger] noncanonical_witness(t, old(bits).remaining())),
        (match r {
            Ok(p) => true,
            Err(e) => {
                ||| (nat_decode(old(bits).remaining(), None) is Eos && e == Error::EndOfStream)
                ||| (nat_decode(old(bits).remaining(), None) is Overflow && e
                    == Error::NaturalOverflow)
                ||| e is EmptyProgram
                ||| e is TooManyNodes
                ||| (e == Error::NotInCanonicalOrder && exists|t: Seq<Node<J>>|
                    #[trigger] noncanonical_witness(t, old(bits).remaining()))
                ||| exists|t: Seq<Node<J>>|
                    #[trigger] stalled_witness(t, old(bits).remaining(), e)
                ||| e is Type
            },
        }),
{
    let mut prog = match decode_program_arbitrary_type::<J>(bits) {
        Err(e) => {
            return Err(e);
        },
        Ok(p) => p,
    };
    let ghost vars0 = prog.context.n_vars();
    let root = prog.nodes.len() - 1;
    proof {
        assert(node_wf(prog.nodes@[root as int], root as int, prog.nodes@, vars0));
    }
    let src = prog.nodes[root].source;
    let tgt = prog.nodes[root].target;
    match prog.context.unify_unit(src) {
        Err(e) => {
            return Err(Error::Type(e));
        },
        Ok(()) => (),
    }
    match prog.context.unify_unit(tgt) {
        Err(e) => {
            return Err(Error::Type(e));
        },
        Ok(()) => (),
    }
    Ok(prog)
}

/// Law: hidden-branch legality. In a decoded program no case node
/// carries a hidden branch: a node with its right branch hidden is an
/// assert-left, one with its left branch hidden is an assert-right, and
/// a plain case keeps two live branches. (A node with both branches
/// hidden is rejected during decoding.)
pub proof fn lemma_case_branches_live<J: Jet>(p: Program<J>, i: int)
    requires
        program_wf(p),
        0 <= i < p.nodes@.len(),
    ensures
        match p.nodes@[i].inner {
            NodeInner::Case(l, r) => !(p.nodes@[l as int].inner is Hidden) && !(
            p.nodes@[r as int].inner is Hidden),
            NodeInner::AssertL(l, r) => !(p.nodes@[l as int].inner is Hidden) && p.nodes@[
                r as int
            ].inner is Hidden,
            NodeInner::AssertR(l, r) => p.nodes@[l as int].inner is Hidden && !(
            p.nodes@[r as int].inner is Hidden),
            _ => true,
        },
{
    assert(node_wf(p.nodes@[i], i, p.nodes@, p.context.n_vars()));
}

/// Encodings only depend on the entries before `k`.
proof fn lemma_nodes_encoding_prefix<J: Jet>(a: Seq<Node<J>>, b: Seq<Node<J>>, k: int)
    requires
        0 <= k <= a.len(),
        k <= b.len(),
        forall|i: int| 0 <= i < k ==> a[i] == b[i],
    ensures
        nodes_encoding(a, k) == nodes_encoding(b, k),
    decreases k,
{
    if k > 0 {
        lemma_nodes_encoding_prefix(a, b, k - 1);
    }
}

} // verus!
