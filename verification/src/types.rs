use vstd::prelude::*;

use std::rc::Rc;

use crate::bits::BitIter;
use crate::errors::Error;
use crate::errors::TypeError;

verus! {

// ---------------------------------------------------------------------
// Fully resolved types and values.
// ---------------------------------------------------------------------

/// A fully resolved type: the unit type, a sum, or a product.
#[derive(Debug)]
pub enum FinalType {
    Unit,
    Sum(Rc<FinalType>, Rc<FinalType>),
    Product(Rc<FinalType>, Rc<FinalType>),
}

/// A value of some fully resolved type.
#[derive(Debug)]
pub enum Value {
    Unit,
    SumL(Box<Value>),
    SumR(Box<Value>),
    Prod(Box<Value>, Box<Value>),
}

/// The bits that serialize a value: one discriminant bit per sum, the
/// two halves of a product in order, nothing for unit.
pub open spec fn value_bits(v: Value) -> Seq<bool>
    decreases v,
{
    match v {
        Value::Unit => Seq::empty(),
        Value::SumL(x) => seq![false] + value_bits(*x),
        Value::SumR(x) => seq![true] + value_bits(*x),
        Value::Prod(x, y) => value_bits(*x) + value_bits(*y),
    }
}

/// Whether `v` is a value of type `t`.
pub open spec fn value_matches(v: Value, t: FinalType) -> bool
    decreases v,
{
    match v {
        Value::Unit => t is Unit,
        Value::SumL(x) => t matches FinalType::Sum(l, r) && value_matches(*x, *l),
        Value::SumR(x) => t matches FinalType::Sum(l, r) && value_matches(*x, *r),
        Value::Prod(x, y) => t matches FinalType::Product(l, r) && value_matches(*x, *l)
            && value_matches(*y, *r),
    }
}

/// The unique value of type `t` whose serialization is a prefix of `s`,
/// if the bits suffice.
pub open spec fn spec_decode_value(t: FinalType, s: Seq<bool>) -> Option<Value>
    decreases t,
{
    match t {
        FinalType::Unit => Some(Value::Unit),
        FinalType::Sum(l, r) => {
            if s.len() == 0 {
                None
            } else if !s.first() {
                match spec_decode_value(*l, s.drop_first()) {
                    Some(v) => Some(Value::SumL(Box::new(v))),
                    None => None,
                }
            } else {
                match spec_decode_value(*r, s.drop_first()) {
                    Some(v) => Some(Value::SumR(Box::new(v))),
                    None => None,
                }
            }
        },
        FinalType::Product(l, r) => {
            match spec_decode_value(*l, s) {
                Some(x) => {
                    match spec_decode_value(*r, s.skip(value_bits(x).len() as int)) {
                        Some(y) => Some(Value::Prod(Box::new(x), Box::new(y))),
                        None => None,
                    }
                },
                None => None,
            }
        },
    }
}

/// Decode a value from bits, based on the given type.
pub fn decode_value(ty: &FinalType, iter: &mut BitIter) -> (r: Result<Value, Error>)
    ensures
        final(iter).stream() == old(iter).stream(),
        old(iter).pos() <= final(iter).pos() <= old(iter).stream().len(),
        match r {
            Ok(v) => {
                &&& spec_decode_value(*ty, old(iter).remaining()) == Some(v)
                &&& value_matches(v, *ty)
                &&& final(iter).pos() == old(iter).pos() + value_bits(v).len()
                &&& old(iter).remaining().take(value_bits(v).len() as int) == value_bits(v)
            },
            Err(Error::EndOfStream) => spec_decode_value(*ty, old(iter).remaining()) is None,
            Err(_) => false,
        },
    decreases *ty,
{
    proof {
        use_type_invariant(&*iter);
    }
    match ty {
        FinalType::Unit => {
            proof {
                assert(iter.remaining().take(0) =~= Seq::<bool>::empty());
            }
            Ok(Value::Unit)
        },
        FinalType::Sum(l, r) => {
            let ghost srem = iter.remaining();
            match iter.next() {
                None => Err(Error::EndOfStream),
                Some(false) => {
                    proof {
                        assert(iter.remaining() =~= srem.drop_first());
                    }
                    match decode_value(l, iter) {
                        Ok(v) => {
                            let ghost vb = value_bits(v);
                            proof {
                                assert(value_bits(Value::SumL(Box::new(v))) =~= seq![false] + vb);
                                assert(srem.take(vb.len() as int + 1) =~= seq![false] + srem.drop_first().take(
                                    vb.len() as int,
                                ));
                            }
                            Ok(Value::SumL(Box::new(v)))
                        },
                        Err(e) => Err(e),
                    }
                },
                Some(true) => {
                    proof {
                        assert(iter.remaining() =~= srem.drop_first());
                    }
                    match decode_value(r, iter) {
                        Ok(v) => {
                            let ghost vb = value_bits(v);
                            proof {
                                assert(value_bits(Value::SumR(Box::new(v))) =~= seq![true] + vb);
                                assert(srem.take(vb.len() as int + 1) =~= seq![true] + srem.drop_first().take(
                                    vb.len() as int,
                                ));
                            }
                            Ok(Value::SumR(Box::new(v)))
                        },
                        Err(e) => Err(e),
                    }
                },
            }
        },
        FinalType::Product(l, r) => {
            let ghost srem = iter.remaining();
            match decode_value(l, iter) {
                Err(e) => Err(e),
                Ok(x) => {
                    proof {
                        assert(iter.remaining() =~= srem.skip(value_bits(x).len() as int));
                    }
                    match decode_value(r, iter) {
                        Err(e) => Err(e),
                        Ok(y) => {
                            let ghost xb = value_bits(x);
                            let ghost yb = value_bits(y);
                            proof {
                                assert(value_bits(Value::Prod(Box::new(x), Box::new(y))) =~= xb
                                    + yb);
                                assert(srem.take(xb.len() as int + yb.len() as int) =~= srem.take(xb.len() as int)
                                    + srem.skip(xb.len() as int).take(yb.len() as int));
                            }
                            Ok(Value::Prod(Box::new(x), Box::new(y)))
                        },
                    }
                },
            }
        },
    }
}

// ---------------------------------------------------------------------
// The inference context: a union-find arena of type variables.
// ---------------------------------------------------------------------

/// Structure bound to a type variable, over other variables of the same
/// context.
#[derive(Clone, Copy)]
enum TypeBound {
    Free,
    Unit,
    Sum(usize, usize),
    Product(usize, usize),
}

#[derive(Clone, Copy)]
enum Slot {
    /// Equal to an earlier variable.
    Link(usize),
    /// A root variable carrying its structure.
    Root(TypeBound),
}

/// Number of root (representative) variables: unification only ever
/// turns roots into links, so this bounds its work.
spec fn n_roots(s: Seq<Slot>) -> nat
    decreases s.len(),
{
    if s.len() == 0 {
        0
    } else {
        n_roots(s.drop_last()) + (if s.last() is Root {
            1nat
        } else {
            0nat
        })
    }
}

proof fn lemma_n_roots_link(s: Seq<Slot>, i: int, v: Slot)
    requires
        0 <= i < s.len(),
        s[i] is Root,
        v is Link,
    ensures
        n_roots(s.update(i, v)) + 1 == n_roots(s),
    decreases s.len(),
{
    let t = s.update(i, v);
    if i == s.len() - 1 {
        assert(t.drop_last() =~= s.drop_last());
    } else {
        assert(t.drop_last() =~= s.drop_last().update(i, v));
        lemma_n_roots_link(s.drop_last(), i, v);
    }
}

proof fn lemma_n_roots_same(s: Seq<Slot>, i: int, v: Slot)
    requires
        0 <= i < s.len(),
        s[i] is Root,
        v is Root,
    ensures
        n_roots(s.update(i, v)) == n_roots(s),
    decreases s.len(),
{
    let t = s.update(i, v);
    if i == s.len() - 1 {
        assert(t.drop_last() =~= s.drop_last());
    } else {
        assert(t.drop_last() =~= s.drop_last().update(i, v));
        lemma_n_roots_same(s.drop_last(), i, v);
    }
}

/// A slot may link only to an earlier slot, and a bound may only name
/// allocated slots.
spec fn slot_ok(s: Seq<Slot>, i: int) -> bool {
    match s[i] {
        Slot::Link(j) => j < i,
        Slot::Root(b) => match b {
            TypeBound::Sum(x, y) => x < s.len() && y < s.len(),
            TypeBound::Product(x, y) => x < s.len() && y < s.len(),
            _ => true,
        },
    }
}

/// The representative of a variable: follow equality links down to the
/// root that stands for its class.
spec fn repr_at(s: Seq<Slot>, i: int) -> int
    decreases i,
{
    if !(0 <= i < s.len()) {
        i
    } else {
        match s[i] {
            Slot::Link(j) => if 0 <= j < i {
                repr_at(s, j as int)
            } else {
                j as int
            },
            Slot::Root(b) => i,
        }
    }
}

/// In a well-formed arena, representatives are earlier roots.
proof fn lemma_repr_le(s: Seq<Slot>, v: int)
    requires
        forall|q: int| 0 <= q < s.len() ==> #[trigger] slot_ok(s, q),
        0 <= v < s.len(),
    ensures
        0 <= repr_at(s, v) <= v,
        s[repr_at(s, v)] is Root,
    decreases v,
{
    assert(slot_ok(s, v));
    match s[v] {
        Slot::Link(w) => {
            lemma_repr_le(s, w as int);
        },
        Slot::Root(b) => {},
    }
}

/// Pointing a root `k` at an earlier root `j` reroutes exactly the
/// classes whose representative was `k`.
proof fn lemma_repr_update_link(s: Seq<Slot>, k: int, j: int, v: int)
    requires
        forall|q: int| 0 <= q < s.len() ==> #[trigger] slot_ok(s, q),
        s.len() <= usize::MAX,
        0 <= k < s.len(),
        s[k] is Root,
        0 <= j < k,
        0 <= v < s.len(),
    ensures
        repr_at(s.update(k, Slot::Link(j as usize)), v) == (if repr_at(s, v) == k {
            repr_at(s, j)
        } else {
            repr_at(s, v)
        }),
    decreases v,
{
    let s2 = s.update(k, Slot::Link(j as usize));
    assert(slot_ok(s, v));
    if v == k {
        assert(repr_at(s, k) == k);
        assert(s2[k] == Slot::Link(j as usize));
        assert(repr_at(s2, k) == repr_at(s2, j));
        lemma_repr_update_link(s, k, j, j);
        lemma_repr_le(s, j);
        assert(repr_at(s, j) != k);
        assert(repr_at(s2, j) == repr_at(s, j));
    } else {
        assert(s2[v] == s[v]);
        match s[v] {
            Slot::Link(w) => {
                assert(repr_at(s, v) == repr_at(s, w as int));
                assert(repr_at(s2, v) == repr_at(s2, w as int));
                lemma_repr_update_link(s, k, j, w as int);
            },
            Slot::Root(b) => {
                assert(repr_at(s, v) == v);
                assert(repr_at(s2, v) == v);
            },
        }
    }
}

/// Replacing one root's bound by another does not move any
/// representative.
proof fn lemma_repr_update_root(s: Seq<Slot>, k: int, b: TypeBound, v: int)
    requires
        forall|q: int| 0 <= q < s.len() ==> #[trigger] slot_ok(s, q),
        0 <= k < s.len(),
        s[k] is Root,
        0 <= v < s.len(),
    ensures
        repr_at(s.update(k, Slot::Root(b)), v) == repr_at(s, v),
    decreases v,
{
    let s2 = s.update(k, Slot::Root(b));
    assert(slot_ok(s, v));
    if v != k {
        assert(s2[v] == s[v]);
        match s[v] {
            Slot::Link(w) => {
                lemma_repr_update_root(s, k, b, w as int);
            },
            Slot::Root(c) => {},
        }
    }
}

/// Appending a root whose bound names already allocated slots keeps
/// every slot well formed.
proof fn lemma_slots_push(s: Seq<Slot>, v: Slot)
    requires
        forall|i: int| 0 <= i < s.len() ==> #[trigger] slot_ok(s, i),
        (v matches Slot::Root(b) ==> match b {
            TypeBound::Sum(x, y) => x < s.len() && y < s.len(),
            TypeBound::Product(x, y) => x < s.len() && y < s.len(),
            _ => true,
        }),
        (v matches Slot::Link(j) ==> j < s.len()),
    ensures
        forall|i: int| 0 <= i < s.push(v).len() ==> #[trigger] slot_ok(s.push(v), i),
{
    assert forall|i: int| 0 <= i < s.push(v).len() implies #[trigger] slot_ok(s.push(v), i) by {
        if i < s.len() {
            assert(s.push(v)[i] == s[i]);
            assert(slot_ok(s, i));
        } else {
            assert(s.push(v)[i] == v);
        }
    }
}

/// Replacing one slot with another well-formed one keeps every slot
/// well formed.
proof fn lemma_slots_update(s: Seq<Slot>, k: int, v: Slot)
    requires
        forall|i: int| 0 <= i < s.len() ==> #[trigger] slot_ok(s, i),
        0 <= k < s.len(),
        (v matches Slot::Root(b) ==> match b {
            TypeBound::Sum(x, y) => x < s.len() && y < s.len(),
            TypeBound::Product(x, y) => x < s.len() && y < s.len(),
            _ => true,
        }),
        (v matches Slot::Link(j) ==> j < k),
    ensures
        forall|i: int| 0 <= i < s.update(k, v).len() ==> #[trigger] slot_ok(s.update(k, v), i),
{
    assert forall|i: int| 0 <= i < s.update(k, v).len() implies #[trigger] slot_ok(
        s.update(k, v),
        i,
    ) by {
        if i != k {
            assert(s.update(k, v)[i] == s[i]);
            assert(slot_ok(s, i));
        } else {
            assert(s.update(k, v)[i] == v);
        }
    }
}

/// Either the two sides are already equated, or a pair still waiting on
/// the work stack joins their classes.
spec fn pending_witness(c: Context, a: usize, b: usize, st: Seq<(usize, usize)>) -> bool {
    c.repr(a as int) == c.repr(b as int) || exists|i: int|
        #![trigger st[i]]
        0 <= i < st.len() && c.repr(st[i].0 as int) == c.repr(a as int) && c.repr(st[i].1 as int)
            == c.repr(b as int)
}

/// Popping a pair whose sides are already equated keeps the pending
/// equation alive.
proof fn lemma_unify_skip(
    c: Context,
    a: usize,
    b: usize,
    stack_pre: Seq<(usize, usize)>,
    stack_now: Seq<(usize, usize)>,
    x: usize,
    y: usize,
)
    requires
        pending_witness(c, a, b, stack_pre),
        stack_pre.len() >= 1,
        stack_pre.last() == (x, y),
        stack_now == stack_pre.drop_last(),
        c.repr(x as int) == c.repr(y as int),
    ensures
        pending_witness(c, a, b, stack_now),
{
    if c.repr(a as int) != c.repr(b as int) {
        let i = choose|i: int|
            #![trigger stack_pre[i]]
            0 <= i < stack_pre.len() && c.repr(stack_pre[i].0 as int) == c.repr(a as int)
                && c.repr(stack_pre[i].1 as int) == c.repr(b as int);
        if i == stack_pre.len() - 1 {
            assert(stack_pre[i] == (x, y));
            assert(false);
        } else {
            assert(stack_now[i] == stack_pre[i]);
        }
    }
}

/// Linking the two roots of the popped pair joins the pending sides,
/// keeps every recorded equation, and leaves any other waiting pair in
/// place.
proof fn lemma_unify_merge(
    c_old: Context,
    c0: Context,
    c2: Context,
    a: usize,
    b: usize,
    stack_pre: Seq<(usize, usize)>,
    stack_now: Seq<(usize, usize)>,
    x: usize,
    y: usize,
    lo: usize,
    hi: usize,
)
    requires
        preserves_equations(c_old, c0),
        pending_witness(c0, a, b, stack_pre),
        c0.n_vars() == c2.n_vars(),
        c_old.n_vars() <= c0.n_vars(),
        (a as nat) < c0.n_vars(),
        (b as nat) < c0.n_vars(),
        (x as nat) < c0.n_vars(),
        (y as nat) < c0.n_vars(),
        forall|i: int|
            0 <= i < stack_pre.len() ==> ((#[trigger] stack_pre[i]).0 as nat) < c0.n_vars() && (
            stack_pre[i].1 as nat) < c0.n_vars(),
        stack_pre.len() >= 1,
        stack_pre.last() == (x, y),
        stack_now.len() >= stack_pre.len() - 1,
        forall|i: int| 0 <= i < stack_pre.len() - 1 ==> #[trigger] stack_now[i] == stack_pre[i],
        c0.repr(x as int) == lo as int || c0.repr(x as int) == hi as int,
        c0.repr(y as int) == lo as int || c0.repr(y as int) == hi as int,
        forall|v: int|
            0 <= v < c0.n_vars() ==> #[trigger] c2.repr(v) == (if c0.repr(v) == hi as int {
                lo as int
            } else {
                c0.repr(v)
            }),
    ensures
        preserves_equations(c_old, c2),
        pending_witness(c2, a, b, stack_now),
{
    assert forall|p: int, q: int|
        #![trigger c2.repr(p), c2.repr(q)]
        0 <= p < c_old.n_vars() && 0 <= q < c_old.n_vars() && c_old.repr(p) == c_old.repr(q)
        implies c2.repr(p) == c2.repr(q) by {
        assert(c0.repr(p) == c0.repr(q));
    }
    assert(c2.repr(x as int) == lo as int);
    assert(c2.repr(y as int) == lo as int);
    if c0.repr(a as int) == c0.repr(b as int) {
        assert(c2.repr(a as int) == c2.repr(b as int));
    } else {
        let i = choose|i: int|
            #![trigger stack_pre[i]]
            0 <= i < stack_pre.len() && c0.repr(stack_pre[i].0 as int) == c0.repr(a as int)
                && c0.repr(stack_pre[i].1 as int) == c0.repr(b as int);
        if i == stack_pre.len() - 1 {
            assert(stack_pre[i] == (x, y));
            assert(c2.repr(a as int) == c2.repr(x as int));
            assert(c2.repr(b as int) == c2.repr(y as int));
            assert(c2.repr(a as int) == c2.repr(b as int));
        } else {
            assert(stack_now[i] == stack_pre[i]);
            assert(c2.repr(stack_now[i].0 as int) == c2.repr(a as int));
            assert(c2.repr(stack_now[i].1 as int) == c2.repr(b as int));
        }
    }
}

/// Every equation recorded in `c1` still holds in `c2`: unification
/// only coarsens the classes, never splits them.
pub open spec fn preserves_equations(c1: Context, c2: Context) -> bool {
    forall|x: int, y: int|
        #![trigger c2.repr(x), c2.repr(y)]
        0 <= x < c1.n_vars() && 0 <= y < c1.n_vars() && c1.repr(x) == c1.repr(y) ==> c2.repr(x)
            == c2.repr(y)
}

/// Mutable state of one in-flight decode: all not-yet-finalized type
/// variables and the equalities produced by unification.
pub struct Context {
    slots: Vec<Slot>,
}

impl Context {
    /// Number of type variables allocated so far.
    pub closed spec fn n_vars(&self) -> nat {
        self.slots@.len()
    }

    /// The representative of a type variable: two variables have been
    /// equated by unification exactly when they share a representative.
    pub closed spec fn repr(&self, i: int) -> int {
        repr_at(self.slots@, i)
    }

    /// The variable's class is bound to the unit type.
    pub closed spec fn is_unit(&self, i: int) -> bool {
        let r = repr_at(self.slots@, i);
        &&& 0 <= r < self.slots@.len()
        &&& self.slots@[r] == Slot::Root(TypeBound::Unit)
    }

    /// The variable's class can still take the unit type: it is free or
    /// already unit, not a sum or a product.
    pub closed spec fn unit_compatible(&self, i: int) -> bool {
        let r = repr_at(self.slots@, i);
        &&& 0 <= r < self.slots@.len()
        &&& (self.slots@[r] == Slot::Root(TypeBound::Free) || self.slots@[r] == Slot::Root(
            TypeBound::Unit,
        ))
    }

    /// Links only point at earlier variables and bounds only name
    /// allocated variables.
    pub closed spec fn wf(&self) -> bool {
        &&& self.slots@.len() <= usize::MAX
        &&& forall|i: int| 0 <= i < self.slots@.len() ==> #[trigger] slot_ok(self.slots@, i)
    }

    /// A fresh context with no variables.
    pub fn new() -> (r: Context)
        ensures
            r.n_vars() == 0,
            r.wf(),
    {
        Context { slots: Vec::new() }
    }

    /// Allocate a fresh unconstrained variable.
    pub fn fresh(&mut self) -> (v: usize)
        requires
            old(self).wf(),
        ensures
            final(self).wf(),
            final(self).n_vars() == old(self).n_vars() + 1,
            v as nat == old(self).n_vars(),
    {
        let v = self.slots.len();
        proof {
            lemma_slots_push(self.slots@, Slot::Root(TypeBound::Free));
        }
        self.slots.push(Slot::Root(TypeBound::Free));
        let _n = self.slots.len();
        v
    }

    /// Allocate a variable bound to the unit type.
    pub fn unit_ty(&mut self) -> (v: usize)
        requires
            old(self).wf(),
        ensures
            final(self).wf(),
            final(self).n_vars() == old(self).n_vars() + 1,
            v as nat == old(self).n_vars(),
    {
        let v = self.slots.len();
        proof {
            lemma_slots_push(self.slots@, Slot::Root(TypeBound::Unit));
        }
        self.slots.push(Slot::Root(TypeBound::Unit));
        let _n = self.slots.len();
        v
    }

    /// Allocate a variable bound to the sum of two variables.
    pub fn sum_ty(&mut self, a: usize, b: usize) -> (v: usize)
        requires
            old(self).wf(),
            a < old(self).n_vars(),
            b < old(self).n_vars(),
        ensures
            final(self).wf(),
            final(self).n_vars() == old(self).n_vars() + 1,
            v as nat == old(self).n_vars(),
    {
        let v = self.slots.len();
        proof {
            lemma_slots_push(self.slots@, Slot::Root(TypeBound::Sum(a, b)));
        }
        self.slots.push(Slot::Root(TypeBound::Sum(a, b)));
        let _n = self.slots.len();
        v
    }

    /// Allocate a variable bound to the product of two variables.
    pub fn product_ty(&mut self, a: usize, b: usize) -> (v: usize)
        requires
            old(self).wf(),
            a < old(self).n_vars(),
            b < old(self).n_vars(),
        ensures
            final(self).wf(),
            final(self).n_vars() == old(self).n_vars() + 1,
            v as nat == old(self).n_vars(),
    {
        let v = self.slots.len();
        proof {
            lemma_slots_push(self.slots@, Slot::Root(TypeBound::Product(a, b)));
        }
        self.slots.push(Slot::Root(TypeBound::Product(a, b)));
        let _n = self.slots.len();
        v
    }

    /// Allocate variables mirroring a fully resolved type.
    pub fn type_from_final(&mut self, t: &FinalType) -> (v: usize)
        requires
            old(self).wf(),
        ensures
            final(self).wf(),
            old(self).n_vars() <= v as nat,
            old(self).n_vars() < final(self).n_vars(),
            (v as nat) < final(self).n_vars(),
        decreases *t,
    {
        match t {
            FinalType::Unit => self.unit_ty(),
            FinalType::Sum(l, r) => {
                let a = self.type_from_final(l);
                let b = self.type_from_final(r);
                self.sum_ty(a, b)
            },
            FinalType::Product(l, r) => {
                let a = self.type_from_final(l);
                let b = self.type_from_final(r);
                self.product_ty(a, b)
            },
        }
    }

    /// Follow equality links up to the representative of a variable.
    fn find(&self, i: usize) -> (r: usize)
        requires
            self.wf(),
            i < self.n_vars(),
        ensures
            r < self.n_vars(),
            self.slots@[r as int] matches Slot::Root(_),
            r as int == repr_at(self.slots@, i as int),
    {
        let mut cur = i;
        loop
            invariant
                self.wf(),
                cur < self.n_vars(),
                repr_at(self.slots@, cur as int) == repr_at(self.slots@, i as int),
            decreases cur,
        {
            proof {
                assert(slot_ok(self.slots@, cur as int));
            }
            match self.slots[cur] {
                Slot::Link(j) => {
                    cur = j;
                },
                Slot::Root(_) => {
                    return cur;
                },
            }
        }
    }

    /// Unify one type variable with the unit type: a free class takes
    /// the unit bound, a unit class is left alone, and any other
    /// structure is a conflict. Succeeds exactly on unit-compatible
    /// classes, and never disturbs another class.
    pub fn unify_unit(&mut self, a: usize) -> (r: Result<(), TypeError>)
        requires
            old(self).wf(),
            a < old(self).n_vars(),
        ensures
            final(self).wf(),
            final(self).n_vars() == old(self).n_vars(),
            forall|v: int|
                0 <= v < old(self).n_vars()
                    ==> #[trigger] final(self).repr(v) == old(self).repr(v),
            preserves_equations(*old(self), *final(self)),
            forall|v: int|
                0 <= v < old(self).n_vars() && old(self).is_unit(v)
                    ==> #[trigger] final(self).is_unit(v),
            r is Ok <==> old(self).unit_compatible(a as int),
            (r is Ok ==> final(self).is_unit(a as int)),
    {
        let ra = self.find(a);
        proof {
            assert(slot_ok(self.slots@, ra as int));
        }
        match self.slots[ra] {
            Slot::Root(TypeBound::Free) => {
                let ghost slots0 = self.slots@;
                proof {
                    lemma_slots_update(slots0, ra as int, Slot::Root(TypeBound::Unit));
                    assert forall|v: int| 0 <= v < slots0.len() implies #[trigger] repr_at(
                        slots0.update(ra as int, Slot::Root(TypeBound::Unit)),
                        v,
                    ) == repr_at(slots0, v) by {
                        lemma_repr_update_root(slots0, ra as int, TypeBound::Unit, v);
                    }
                }
                self.slots.set(ra, Slot::Root(TypeBound::Unit));
                proof {
                    assert forall|v: int|
                        0 <= v < slots0.len() && repr_at(slots0, v) != ra as int && slots0[repr_at(
                            slots0,
                            v,
                        )] == Slot::Root(TypeBound::Unit) implies #[trigger] self.is_unit(v) by {
                        lemma_repr_le(slots0, v);
                    }
                }
                Ok(())
            },
            Slot::Root(TypeBound::Unit) => Ok(()),
            Slot::Root(TypeBound::Sum(p, q)) => Err(TypeError::Mismatch),
            Slot::Root(TypeBound::Product(p, q)) => Err(TypeError::Mismatch),
            Slot::Link(_) => {
                proof {
                    assert(false);
                }
                Err(TypeError::Mismatch)
            },
        }
    }

    /// Unify two type variables, equating their structure recursively.
    /// Fails when the two sides carry incompatible structure.
    pub fn unify(&mut self, a: usize, b: usize) -> (r: Result<(), TypeError>)
        requires
            old(self).wf(),
            a < old(self).n_vars(),
            b < old(self).n_vars(),
        ensures
            final(self).wf(),
            final(self).n_vars() == old(self).n_vars(),
            preserves_equations(*old(self), *final(self)),
            (r is Ok ==> final(self).repr(a as int) == final(self).repr(b as int)),
            (a == b ==> r is Ok),
    {
        let mut stack: Vec<(usize, usize)> = Vec::new();
        stack.push((a, b));
        proof {
            assert(stack@[0] == (a, b));
        }
        loop
            invariant
                self.wf(),
                self.n_vars() == old(self).n_vars(),
                (a as nat) < self.n_vars(),
                (b as nat) < self.n_vars(),
                forall|k: int|
                    0 <= k < stack@.len() ==> ((#[trigger] stack@[k]).0 as nat) < self.n_vars()
                        && (stack@[k].1 as nat) < self.n_vars(),
                preserves_equations(*old(self), *self),
                pending_witness(*self, a, b, stack@),
                (a == b ==> forall|k: int|
                    0 <= k < stack@.len() ==> (#[trigger] stack@[k]).0 == stack@[k].1),
            decreases n_roots(self.slots@), stack@.len(),
        {
            let ghost ctx0 = *self;
            let ghost slots0 = self.slots@;
            let ghost stack_pre = stack@;
            let (x, y) = match stack.pop() {
                None => {
                    return Ok(());
                },
                Some(p) => p,
            };
            proof {
                assert(stack_pre.last() == (x, y));
            }
            let rx = self.find(x);
            let ry = self.find(y);
            if rx == ry {
                proof {
                    lemma_unify_skip(ctx0, a, b, stack_pre, stack@, x, y);
                }
                continue ;
            }
            proof {
                if a == b {
                    assert(stack_pre[stack_pre.len() - 1] == (x, y));
                    assert(x == y);
                    assert(false);
                }
            }
            // point the younger root at the older one, keeping wf
            let (lo, hi) = if rx < ry {
                (rx, ry)
            } else {
                (ry, rx)
            };
            proof {
                assert(slot_ok(self.slots@, lo as int));
                assert(slot_ok(self.slots@, hi as int));
            }
            let bound_lo = match self.slots[lo] {
                Slot::Root(b) => b,
                Slot::Link(_) => {
                    proof {
                        assert(false);
                    }
                    TypeBound::Free
                },
            };
            let bound_hi = match self.slots[hi] {
                Slot::Root(b) => b,
                Slot::Link(_) => {
                    proof {
                        assert(false);
                    }
                    TypeBound::Free
                },
            };
            match (bound_lo, bound_hi) {
                (TypeBound::Free, other) => {
                    proof {
                        lemma_slots_update(slots0, lo as int, Slot::Root(other));
                        lemma_n_roots_same(slots0, lo as int, Slot::Root(other));
                        assert forall|v: int| 0 <= v < slots0.len() implies #[trigger] repr_at(
                            slots0.update(lo as int, Slot::Root(other)),
                            v,
                        ) == repr_at(slots0, v) by {
                            lemma_repr_update_root(slots0, lo as int, other, v);
                        }
                    }
                    self.slots.set(lo, Slot::Root(other));
                    let ghost s_mid = self.slots@;
                    proof {
                        lemma_slots_update(self.slots@, hi as int, Slot::Link(lo));
                        lemma_n_roots_link(self.slots@, hi as int, Slot::Link(lo));
                    }
                    self.slots.set(hi, Slot::Link(lo));
                    proof {
                        assert forall|v: int| 0 <= v < slots0.len() implies #[trigger] self.repr(v)
                            == (if ctx0.repr(v) == hi as int {
                            lo as int
                        } else {
                            ctx0.repr(v)
                        }) by {
                            lemma_repr_update_link(s_mid, hi as int, lo as int, v);
                            lemma_repr_le(s_mid, lo as int);
                        }
                        lemma_unify_merge(
                            *old(self),
                            ctx0,
                            *self,
                            a,
                            b,
                            stack_pre,
                            stack@,
                            x,
                            y,
                            lo,
                            hi,
                        );
                    }
                },
                (_, TypeBound::Free) => {
                    proof {
                        lemma_slots_update(slots0, hi as int, Slot::Link(lo));
                        lemma_n_roots_link(slots0, hi as int, Slot::Link(lo));
                    }
                    self.slots.set(hi, Slot::Link(lo));
                    proof {
                        assert forall|v: int| 0 <= v < slots0.len() implies #[trigger] self.repr(v)
                            == (if ctx0.repr(v) == hi as int {
                            lo as int
                        } else {
                            ctx0.repr(v)
                        }) by {
                            lemma_repr_update_link(slots0, hi as int, lo as int, v);
                            lemma_repr_le(slots0, lo as int);
                        }
                        lemma_unify_merge(
                            *old(self),
                            ctx0,
                            *self,
                            a,
                            b,
                            stack_pre,
                            stack@,
                            x,
                            y,
                            lo,
                            hi,
                        );
                    }
                },
                (TypeBound::Unit, TypeBound::Unit) => {
                    proof {
                        lemma_slots_update(slots0, hi as int, Slot::Link(lo));
                        lemma_n_roots_link(slots0, hi as int, Slot::Link(lo));
                    }
                    self.slots.set(hi, Slot::Link(lo));
                    proof {
                        assert forall|v: int| 0 <= v < slots0.len() implies #[trigger] self.repr(v)
                            == (if ctx0.repr(v) == hi as int {
                            lo as int
                        } else {
                            ctx0.repr(v)
                        }) by {
                            lemma_repr_update_link(slots0, hi as int, lo as int, v);
                            lemma_repr_le(slots0, lo as int);
                        }
                        lemma_unify_merge(
                            *old(self),
                            ctx0,
                            *self,
                            a,
                            b,
                            stack_pre,
                            stack@,
                            x,
                            y,
                            lo,
                            hi,
                        );
                    }
                },
                (TypeBound::Sum(x1, y1), TypeBound::Sum(x2, y2)) => {
                    proof {
                        lemma_slots_update(slots0, hi as int, Slot::Link(lo));
                        lemma_n_roots_link(slots0, hi as int, Slot::Link(lo));
                    }
                    self.slots.set(hi, Slot::Link(lo));
                    stack.push((x1, x2));
                    stack.push((y1, y2));
                    proof {
                        assert forall|v: int| 0 <= v < slots0.len() implies #[trigger] self.repr(v)
                            == (if ctx0.repr(v) == hi as int {
                            lo as int
                        } else {
                            ctx0.repr(v)
                        }) by {
                            lemma_repr_update_link(slots0, hi as int, lo as int, v);
                            lemma_repr_le(slots0, lo as int);
                        }
                        lemma_unify_merge(
                            *old(self),
                            ctx0,
                            *self,
                            a,
                            b,
                            stack_pre,
                            stack@,
                            x,
                            y,
                            lo,
                            hi,
                        );
                    }
                },
                (TypeBound::Product(x1, y1), TypeBound::Product(x2, y2)) => {
                    proof {
                        lemma_slots_update(slots0, hi as int, Slot::Link(lo));
                        lemma_n_roots_link(slots0, hi as int, Slot::Link(lo));
                    }
                    self.slots.set(hi, Slot::Link(lo));
                    stack.push((x1, x2));
                    stack.push((y1, y2));
                    proof {
                        assert forall|v: int| 0 <= v < slots0.len() implies #[trigger] self.repr(v)
                            == (if ctx0.repr(v) == hi as int {
                            lo as int
                        } else {
                            ctx0.repr(v)
                        }) by {
                            lemma_repr_update_link(slots0, hi as int, lo as int, v);
                            lemma_repr_le(slots0, lo as int);
                        }
                        lemma_unify_merge(
                            *old(self),
                            ctx0,
                            *self,
                            a,
                            b,
                            stack_pre,
                            stack@,
                            x,
                            y,
                            lo,
                            hi,
                        );
                    }
                },
                _ => {
                    return Err(TypeError::Mismatch);
                },
            }
        }
    }
}

} // verus!
