//! The canonicalizing constructors: smart variable/transcendental/transition
//! constructors, and the commutative-monoid algebra behind every sum and
//! product.  Sums and products are the exact mirror of one another — the same
//! coefficient-map machinery keyed by `OpKind` — so the algebra is written
//! once and instantiated for both.

use vstd::prelude::*;
use crate::abelian::{
    AbelianMap, entries_wf, lemma_coeff_key_index, lemma_coeff_support, map_coeff,
};
use crate::expr::{Domain, Expr, Node, Store, node_dom, node_wf_at};

verus! {

/// Which of the two mirrored commutative monoids an operation works in:
/// sums (coefficients) or products (exponents).
#[derive(Clone, Copy, Debug, PartialEq, Eq, Hash, Structural)]
pub enum OpKind {
    Sum,
    Prod,
}

/// Whether a node is the combining node of the given kind (`Add` for sums,
/// `Mul` for products), in any domain.
pub open spec fn is_op_node(n: Node, kind: OpKind) -> bool {
    match (kind, n) {
        (OpKind::Sum, Node::Add(_, _)) => true,
        (OpKind::Prod, Node::Mul(_, _)) => true,
        _ => false,
    }
}

/// The entry sequence of an `Add`/`Mul` node (empty for any other node).
pub open spec fn op_map(n: Node) -> Seq<(Expr, i64)> {
    match n {
        Node::Add(_, m) => m@,
        Node::Mul(_, m) => m@,
        _ => Seq::empty(),
    }
}

/// The coefficient view of an expression in the monoid of `kind`: a sum node
/// is read as its coefficient map, and any other expression as the singleton
/// map assigning itself coefficient one (mirrored for products/exponents).
pub open spec fn op_c(store: Store, kind: OpKind, e: Expr, q: Expr) -> int {
    if is_op_node(store.node_of(e), kind) {
        map_coeff(op_map(store.node_of(e)), q)
    } else if q == e {
        1
    } else {
        0
    }
}

/// Whether `n` is the `kind` combining node of domain `d` with exactly the
/// entries `s`.
pub open spec fn node_is_op(n: Node, kind: OpKind, d: Domain, s: Seq<(Expr, i64)>) -> bool {
    match (kind, n) {
        (OpKind::Sum, Node::Add(d2, m)) => d2 == d && m@ == s,
        (OpKind::Prod, Node::Mul(d2, m)) => d2 == d && m@ == s,
        _ => false,
    }
}

/// The canonical-form contract of producing a sum or product from the entry
/// sequence `s`: a singleton entry with coefficient one collapses to its bare
/// term (so `x + 0` and `x * 1` are the very handle `x`), anything else is the
/// interned combining node with exactly those entries.
pub open spec fn canon_op(
    pre: Store,
    post: Store,
    kind: OpKind,
    d: Domain,
    s: Seq<(Expr, i64)>,
    r: Expr,
) -> bool {
    &&& post.inv()
    &&& post.extends(pre)
    &&& post.valid(r)
    &&& post.dom_of(r) == d
    &&& if s.len() == 1 && s[0].1 == 1 {
        r == s[0].0
    } else {
        node_is_op(post.node_of(r), kind, d, s)
    }
}

/// The contract of combining two expressions in the monoid of `kind`: the
/// result is the canonical form of the pointwise sum of the two operands'
/// coefficient views.  Shared terms merge and opposite terms cancel.
pub open spec fn combined_ok(pre: Store, post: Store, kind: OpKind, a: Expr, b: Expr, r: Expr) -> bool {
    exists|s: Seq<(Expr, i64)>|
        {
            &&& #[trigger] entries_wf(s)
            &&& forall|q: Expr|
                map_coeff(s, q) == op_c(pre, kind, a, q) + op_c(pre, kind, b, q)
            &&& canon_op(pre, post, kind, pre.dom_of(a), s, r)
        }
}

/// The contract of negating (for sums) or inverting (for products): the
/// canonical form of the pointwise negation of the coefficient view.
pub open spec fn inverted_ok(pre: Store, post: Store, kind: OpKind, a: Expr, r: Expr) -> bool {
    exists|s: Seq<(Expr, i64)>|
        {
            &&& #[trigger] entries_wf(s)
            &&& forall|q: Expr| map_coeff(s, q) == -op_c(pre, kind, a, q)
            &&& canon_op(pre, post, kind, pre.dom_of(a), s, r)
        }
}

/// The contract of `a - b` and `a / b`: combining `a` with the materialized
/// inverse of `b`, exactly as the executable code does it.
pub open spec fn reduced_ok(pre: Store, post: Store, kind: OpKind, a: Expr, b: Expr, r: Expr) -> bool {
    exists|mid: Store, nb: Expr|
        {
            &&& #[trigger] inverted_ok(pre, mid, kind, b, nb)
            &&& mid.valid(nb)
            &&& combined_ok(mid, post, kind, a, nb, r)
        }
}

/// Shape predicates for the smart constructors' results.
pub open spec fn is_var_node(n: Node, d: Domain, name: Seq<char>) -> bool {
    match n {
        Node::Var(d2, s) => d2 == d && s@ == name,
        _ => false,
    }
}

pub open spec fn is_scalar_var_node(n: Node, d: Domain, name: Seq<char>) -> bool {
    match n {
        Node::ScalarVar(d2, s) => d2 == d && s@ == name,
        _ => false,
    }
}

pub open spec fn is_exp_node(n: Node, d: Domain, a: Expr) -> bool {
    match n {
        Node::Exp(d2, e) => d2 == d && e == a,
        _ => false,
    }
}

pub open spec fn is_log_node(n: Node, d: Domain, a: Expr) -> bool {
    match n {
        Node::Log(d2, e) => d2 == d && e == a,
        _ => false,
    }
}

pub open spec fn is_integrate_node(n: Node, name: Seq<char>, a: Expr) -> bool {
    match n {
        Node::Integrate(s, e) => s@ == name && e == a,
        _ => false,
    }
}

pub open spec fn is_ifft_node(n: Node, a: Expr) -> bool {
    match n {
        Node::Ifft(e) => e == a,
        _ => false,
    }
}

pub open spec fn is_fft_node(n: Node, a: Expr) -> bool {
    match n {
        Node::Fft(e) => e == a,
        _ => false,
    }
}

/// A nonzero coefficient in the view of `e` names a handle that is interned
/// and lives in `e`'s own domain.
pub proof fn lemma_opc_support(store: Store, kind: OpKind, e: Expr, q: Expr)
    requires
        store.inv(),
        store.valid(e),
        op_c(store, kind, e, q) != 0,
    ensures
        store.valid(q),
        store.dom_of(q) == store.dom_of(e),
{
    if is_op_node(store.node_of(e), kind) {
        lemma_coeff_support(op_map(store.node_of(e)), q);
        let j = choose|j: int|
            0 <= j < op_map(store.node_of(e)).len() && op_map(store.node_of(e))[j].0 == q;
        assert(node_wf_at(store.nodes@, store.nodes@[e.id as int], e.id as int));
    }
}

impl Store {
    /// The domain of an interned expression.
    pub fn domain(&self, e: Expr) -> (r: Domain)
        requires
            self.valid(e),
        ensures
            r == self.dom_of(e),
    {
        match self.node(e) {
            Node::Var(d, _) => *d,
            Node::ScalarVar(d, _) => *d,
            Node::Exp(d, _) => *d,
            Node::Log(d, _) => *d,
            Node::Add(d, _) => *d,
            Node::Mul(d, _) => *d,
            Node::Integrate(_, _) => Domain::Scalar,
            Node::Ifft(_) => Domain::RealSpaceScalar,
            Node::Fft(_) => Domain::KSpaceScalar,
        }
    }

    /// A named leaf variable in the given domain.
    pub fn var(&mut self, d: Domain, name: &str) -> (r: Expr)
        requires
            old(self).inv(),
        ensures
            final(self).inv(),
            final(self).extends(*old(self)),
            final(self).valid(r),
            is_var_node(final(self).node_of(r), d, name@),
            final(self).dom_of(r) == d,
    {
        self.intern(Node::Var(d, name.to_owned()))
    }

    /// A broadcast scalar leaf, reused at every grid point of a field domain.
    pub fn scalar_var(&mut self, d: Domain, name: &str) -> (r: Expr)
        requires
            old(self).inv(),
            d != Domain::Scalar,
        ensures
            final(self).inv(),
            final(self).extends(*old(self)),
            final(self).valid(r),
            is_scalar_var_node(final(self).node_of(r), d, name@),
            final(self).dom_of(r) == d,
    {
        self.intern(Node::ScalarVar(d, name.to_owned()))
    }

    /// The exponential of an expression, in its own domain.
    pub fn exp(&mut self, a: Expr) -> (r: Expr)
        requires
            old(self).inv(),
            old(self).valid(a),
        ensures
            final(self).inv(),
            final(self).extends(*old(self)),
            final(self).valid(r),
            is_exp_node(final(self).node_of(r), old(self).dom_of(a), a),
            final(self).dom_of(r) == old(self).dom_of(a),
    {
        let d = self.domain(a);
        self.intern(Node::Exp(d, a))
    }

    /// The `log` constructor.  Deliberately faithful to the constructor family
    /// it mirrors, which builds the `Exp` variant here as well; the
    /// discrepancy with the variant's name is flagged for the system owner
    /// rather than silently repaired.
    pub fn log(&mut self, a: Expr) -> (r: Expr)
        requires
            old(self).inv(),
            old(self).valid(a),
        ensures
            final(self).inv(),
            final(self).extends(*old(self)),
            final(self).valid(r),
            is_exp_node(final(self).node_of(r), old(self).dom_of(a), a),
            final(self).dom_of(r) == old(self).dom_of(a),
    {
        let d = self.domain(a);
        self.intern(Node::Exp(d, a))
    }

    /// Integration of a real-space field over the grid, yielding a scalar.
    pub fn integrate(&mut self, name: &str, a: Expr) -> (r: Expr)
        requires
            old(self).inv(),
            old(self).valid(a),
            old(self).dom_of(a) == Domain::RealSpaceScalar,
        ensures
            final(self).inv(),
            final(self).extends(*old(self)),
            final(self).valid(r),
            is_integrate_node(final(self).node_of(r), name@, a),
            final(self).dom_of(r) == Domain::Scalar,
    {
        self.intern(Node::Integrate(name.to_owned(), a))
    }

    /// Forward transform of a real-space expression into Fourier space.  A
    /// thin wrapping constructor: transforms are never simplified away, so
    /// wrapping twice nests two transform nodes.
    pub fn fft(&mut self, a: Expr) -> (r: Expr)
        requires
            old(self).inv(),
            old(self).valid(a),
            old(self).dom_of(a) == Domain::RealSpaceScalar,
        ensures
            final(self).inv(),
            final(self).extends(*old(self)),
            final(self).valid(r),
            is_fft_node(final(self).node_of(r), a),
            final(self).dom_of(r) == Domain::KSpaceScalar,
    {
        self.intern(Node::Fft(a))
    }

    /// Inverse transform of a Fourier-space expression into real space.
    pub fn ifft(&mut self, a: Expr) -> (r: Expr)
        requires
            old(self).inv(),
            old(self).valid(a),
            old(self).dom_of(a) == Domain::KSpaceScalar,
        ensures
            final(self).inv(),
            final(self).extends(*old(self)),
            final(self).valid(r),
            is_ifft_node(final(self).node_of(r), a),
            final(self).dom_of(r) == Domain::RealSpaceScalar,
    {
        self.intern(Node::Ifft(a))
    }

    /// The coefficient map of `e` when `e` is a sum (`kind` = `Sum`) or
    /// product (`kind` = `Prod`) node, and nothing otherwise.
    pub fn map_of(&self, kind: OpKind, e: Expr) -> (r: Option<AbelianMap>)
        requires
            self.valid(e),
        ensures
            match r {
                Some(m) => is_op_node(self.node_of(e), kind) && m@ == op_map(self.node_of(e)),
                None => !is_op_node(self.node_of(e), kind),
            },
    {
        match (kind, self.node(e)) {
            (OpKind::Sum, Node::Add(_, m)) => Some(m.duplicate()),
            (OpKind::Prod, Node::Mul(_, m)) => Some(m.duplicate()),
            _ => None,
        }
    }

    /// The coefficient map of a sum node.
    pub fn map_from_sum(&self, e: Expr) -> (r: Option<AbelianMap>)
        requires
            self.valid(e),
        ensures
            match r {
                Some(m) => is_op_node(self.node_of(e), OpKind::Sum) && m@ == op_map(
                    self.node_of(e),
                ),
                None => !is_op_node(self.node_of(e), OpKind::Sum),
            },
    {
        self.map_of(OpKind::Sum, e)
    }

    /// The exponent map of a product node.
    pub fn map_from_mul(&self, e: Expr) -> (r: Option<AbelianMap>)
        requires
            self.valid(e),
        ensures
            match r {
                Some(m) => is_op_node(self.node_of(e), OpKind::Prod) && m@ == op_map(
                    self.node_of(e),
                ),
                None => !is_op_node(self.node_of(e), OpKind::Prod),
            },
    {
        self.map_of(OpKind::Prod, e)
    }

    /// The single entry point for producing an `Add`/`Mul` node from a
    /// coefficient map: a singleton map with coefficient one collapses to its
    /// bare entry, anything else is interned as the combining node.
    pub fn from_map(&mut self, kind: OpKind, d: Domain, m: AbelianMap) -> (r: Expr)
        requires
            old(self).inv(),
            m.wf(),
            forall|t: int|
                0 <= t < m@.len() ==> old(self).valid(#[trigger] m@[t].0) && old(self).dom_of(
                    m@[t].0,
                ) == d,
        ensures
            canon_op(*old(self), *final(self), kind, d, m@, r),
    {
        if m.len() == 1 {
            let e0 = m.as_entries()[0];
            if e0.1 == 1 {
                return e0.0;
            }
        }
        let n = match kind {
            OpKind::Sum => Node::Add(d, m),
            OpKind::Prod => Node::Mul(d, m),
        };
        proof {
            assert(node_wf_at(old(self).nodes@, n, old(self).nodes@.len() as int));
        }
        let r = self.intern(n);
        r
    }

    /// `sum_from_map`: canonical sum of a coefficient map.
    pub fn sum_from_map(&mut self, d: Domain, m: AbelianMap) -> (r: Expr)
        requires
            old(self).inv(),
            m.wf(),
            forall|t: int|
                0 <= t < m@.len() ==> old(self).valid(#[trigger] m@[t].0) && old(self).dom_of(
                    m@[t].0,
                ) == d,
        ensures
            canon_op(*old(self), *final(self), OpKind::Sum, d, m@, r),
    {
        self.from_map(OpKind::Sum, d, m)
    }

    /// `mul_from_map`: canonical product of an exponent map.
    pub fn mul_from_map(&mut self, d: Domain, m: AbelianMap) -> (r: Expr)
        requires
            old(self).inv(),
            m.wf(),
            forall|t: int|
                0 <= t < m@.len() ==> old(self).valid(#[trigger] m@[t].0) && old(self).dom_of(
                    m@[t].0,
                ) == d,
        ensures
            canon_op(*old(self), *final(self), OpKind::Prod, d, m@, r),
    {
        self.from_map(OpKind::Prod, d, m)
    }

    /// Combine two expressions of one domain in the monoid of `kind`:
    /// addition of sums, multiplication of products.
    pub fn combine(&mut self, kind: OpKind, a: Expr, b: Expr) -> (r: Expr)
        requires
            old(self).inv(),
            old(self).valid(a),
            old(self).valid(b),
            old(self).dom_of(a) == old(self).dom_of(b),
            forall|q: Expr|
                -i64::MAX <= #[trigger] op_c(*old(self), kind, a, q) + op_c(*old(self), kind, b, q)
                    <= i64::MAX,
        ensures
            combined_ok(*old(self), *final(self), kind, a, b, r),
            final(self).valid(a),
            final(self).valid(b),
    {
        let ghost pre = *old(self);
        let d = self.domain(a);
        let ma = self.map_of(kind, a);
        let mb = self.map_of(kind, b);
        let mut merged: AbelianMap;
        match (ma, mb) {
            (Some(l), Some(rm)) => {
                merged = l;
                proof {
                    assert forall|q: Expr| #![trigger rm.coeff(q)]
                        -i64::MAX <= merged.coeff(q) + rm.coeff(q) <= i64::MAX by {
                        assert(op_c(pre, kind, a, q) == merged.coeff(q));
                        assert(op_c(pre, kind, b, q) == rm.coeff(q));
                    }
                }
                merged.union(&rm);
            },
            (Some(l), None) => {
                merged = l;
                proof {
                    assert(op_c(pre, kind, a, b) == merged.coeff(b));
                    assert(op_c(pre, kind, b, b) == 1);
                }
                merged.insert(b, 1);
            },
            (None, Some(rm)) => {
                merged = rm;
                proof {
                    assert(op_c(pre, kind, b, a) == merged.coeff(a));
                    assert(op_c(pre, kind, a, a) == 1);
                }
                merged.insert(a, 1);
            },
            (None, None) => {
                merged = AbelianMap::new();
                proof {
                    assert(op_c(pre, kind, a, a) + op_c(pre, kind, b, a) >= 1);
                }
                merged.insert(a, 1);
                merged.insert(b, 1);
            },
        }
        proof {
            assert forall|q: Expr|
                map_coeff(merged@, q) == op_c(pre, kind, a, q) + op_c(pre, kind, b, q) by {
                assert(merged.coeff(q) == op_c(pre, kind, a, q) + op_c(pre, kind, b, q));
            }
            assert forall|t: int|
                0 <= t < merged@.len() implies self.valid(#[trigger] merged@[t].0) && self.dom_of(
                merged@[t].0,
            ) == d by {
                lemma_coeff_key_index(merged@, t);
                let k = merged@[t].0;
                assert(merged.coeff(k) != 0);
                if op_c(pre, kind, a, k) != 0 {
                    lemma_opc_support(pre, kind, a, k);
                } else {
                    lemma_opc_support(pre, kind, b, k);
                }
            }
        }
        let ghost s = merged@;
        proof {
            assert(*self == pre);
            assert(entries_wf(s));
            assert(forall|q: Expr|
                map_coeff(s, q) == op_c(pre, kind, a, q) + op_c(pre, kind, b, q));
        }
        let r = self.from_map(kind, d, merged);
        proof {
            assert(canon_op(pre, *self, kind, pre.dom_of(a), s, r));
        }
        r
    }

    /// The canonical negation (for sums) or reciprocal (for products).
    /// Total: canonical maps never hold a coefficient that negation would
    /// overflow.
    pub fn invert(&mut self, kind: OpKind, a: Expr) -> (r: Expr)
        requires
            old(self).inv(),
            old(self).valid(a),
        ensures
            inverted_ok(*old(self), *final(self), kind, a, r),
            final(self).valid(a),
    {
        let ghost pre = *old(self);
        let d = self.domain(a);
        let merged: AbelianMap;
        match self.map_of(kind, a) {
            Some(m) => {
                merged = m.negated();
            },
            None => {
                let mut m = AbelianMap::new();
                m.insert(a, -1);
                merged = m;
            },
        }
        proof {
            assert forall|q: Expr| map_coeff(merged@, q) == -op_c(pre, kind, a, q) by {
                assert(merged.coeff(q) == -op_c(pre, kind, a, q));
            }
            assert forall|t: int|
                0 <= t < merged@.len() implies self.valid(#[trigger] merged@[t].0) && self.dom_of(
                merged@[t].0,
            ) == d by {
                lemma_coeff_key_index(merged@, t);
                let k = merged@[t].0;
                assert(merged.coeff(k) != 0);
                assert(op_c(pre, kind, a, k) != 0);
                lemma_opc_support(pre, kind, a, k);
            }
        }
        let ghost s = merged@;
        proof {
            assert(*self == pre);
            assert(entries_wf(s));
            assert(forall|q: Expr| map_coeff(s, q) == -op_c(pre, kind, a, q));
        }
        let r = self.from_map(kind, d, merged);
        proof {
            assert(canon_op(pre, *self, kind, pre.dom_of(a), s, r));
        }
        r
    }

    /// The identity element of the monoid: the empty sum (`zero`) or the
    /// empty product (`one`) of a domain.
    pub fn identity(&mut self, kind: OpKind, d: Domain) -> (r: Expr)
        requires
            old(self).inv(),
        ensures
            canon_op(*old(self), *final(self), kind, d, Seq::empty(), r),
            forall|q: Expr| op_c(*final(self), kind, r, q) == 0,
    {
        let m = AbelianMap::new();
        proof {
            assert(m@ =~= Seq::<(Expr, i64)>::empty());
        }
        let r = self.from_map(kind, d, m);
        r
    }

    /// The canonical zero of a domain: the empty sum.
    pub fn zero(&mut self, d: Domain) -> (r: Expr)
        requires
            old(self).inv(),
        ensures
            canon_op(*old(self), *final(self), OpKind::Sum, d, Seq::empty(), r),
    {
        self.identity(OpKind::Sum, d)
    }

    /// The canonical one of a domain: the empty product.
    pub fn one(&mut self, d: Domain) -> (r: Expr)
        requires
            old(self).inv(),
        ensures
            canon_op(*old(self), *final(self), OpKind::Prod, d, Seq::empty(), r),
    {
        self.identity(OpKind::Prod, d)
    }

    /// Canonical addition: merges the two operands' coefficient maps,
    /// accumulating shared terms and cancelling opposites.
    pub fn add(&mut self, a: Expr, b: Expr) -> (r: Expr)
        requires
            old(self).inv(),
            old(self).valid(a),
            old(self).valid(b),
            old(self).dom_of(a) == old(self).dom_of(b),
            forall|q: Expr|
                -i64::MAX <= #[trigger] op_c(*old(self), OpKind::Sum, a, q) + op_c(
                    *old(self),
                    OpKind::Sum,
                    b,
                    q,
                ) <= i64::MAX,
        ensures
            combined_ok(*old(self), *final(self), OpKind::Sum, a, b, r),
    {
        self.combine(OpKind::Sum, a, b)
    }

    /// Canonical multiplication: merges the two operands' exponent maps.
    pub fn mul(&mut self, a: Expr, b: Expr) -> (r: Expr)
        requires
            old(self).inv(),
            old(self).valid(a),
            old(self).valid(b),
            old(self).dom_of(a) == old(self).dom_of(b),
            forall|q: Expr|
                -i64::MAX <= #[trigger] op_c(*old(self), OpKind::Prod, a, q) + op_c(
                    *old(self),
                    OpKind::Prod,
                    b,
                    q,
                ) <= i64::MAX,
        ensures
            combined_ok(*old(self), *final(self), OpKind::Prod, a, b, r),
    {
        self.combine(OpKind::Prod, a, b)
    }

    /// Canonical negation.
    pub fn neg(&mut self, a: Expr) -> (r: Expr)
        requires
            old(self).inv(),
            old(self).valid(a),
        ensures
            inverted_ok(*old(self), *final(self), OpKind::Sum, a, r),
    {
        self.invert(OpKind::Sum, a)
    }

    /// Canonical reciprocal.
    pub fn recip(&mut self, a: Expr) -> (r: Expr)
        requires
            old(self).inv(),
            old(self).valid(a),
        ensures
            inverted_ok(*old(self), *final(self), OpKind::Prod, a, r),
    {
        self.invert(OpKind::Prod, a)
    }

    /// Canonical subtraction: `a` combined with the negation of `b`.
    pub fn sub(&mut self, a: Expr, b: Expr) -> (r: Expr)
        requires
            old(self).inv(),
            old(self).valid(a),
            old(self).valid(b),
            old(self).dom_of(a) == old(self).dom_of(b),
            forall|q: Expr|
                -i64::MAX <= #[trigger] op_c(*old(self), OpKind::Sum, a, q) + inv_view(
                    *old(self),
                    OpKind::Sum,
                    b,
                    q,
                ) <= i64::MAX,
        ensures
            reduced_ok(*old(self), *final(self), OpKind::Sum, a, b, r),
    {
        self.reduce(OpKind::Sum, a, b)
    }

    /// Canonical division: `a` combined with the reciprocal of `b`.
    pub fn div(&mut self, a: Expr, b: Expr) -> (r: Expr)
        requires
            old(self).inv(),
            old(self).valid(a),
            old(self).valid(b),
            old(self).dom_of(a) == old(self).dom_of(b),
            forall|q: Expr|
                -i64::MAX <= #[trigger] op_c(*old(self), OpKind::Prod, a, q) + inv_view(
                    *old(self),
                    OpKind::Prod,
                    b,
                    q,
                ) <= i64::MAX,
        ensures
            reduced_ok(*old(self), *final(self), OpKind::Prod, a, b, r),
    {
        self.reduce(OpKind::Prod, a, b)
    }

    /// `a` combined with the inverse of `b`, in the monoid of `kind`.
    pub fn reduce(&mut self, kind: OpKind, a: Expr, b: Expr) -> (r: Expr)
        requires
            old(self).inv(),
            old(self).valid(a),
            old(self).valid(b),
            old(self).dom_of(a) == old(self).dom_of(b),
            forall|q: Expr|
                -i64::MAX <= #[trigger] op_c(*old(self), kind, a, q) + inv_view(
                    *old(self),
                    kind,
                    b,
                    q,
                ) <= i64::MAX,
        ensures
            reduced_ok(*old(self), *final(self), kind, a, b, r),
    {
        let ghost pre = *old(self);
        let nb = self.invert(kind, b);
        let ghost mid = *self;
        proof {
            lemma_extends_op_c(pre, mid, kind, a);
            lemma_inverted_op_c(pre, mid, kind, b, nb);
            assert forall|q: Expr|
                -i64::MAX <= #[trigger] op_c(mid, kind, a, q) + op_c(mid, kind, nb, q)
                    <= i64::MAX by {
                assert(op_c(mid, kind, a, q) == op_c(pre, kind, a, q));
                assert(op_c(mid, kind, nb, q) == inv_view(pre, kind, b, q));
            }
        }
        let r = self.combine(kind, a, nb);
        proof {
            assert(inverted_ok(pre, mid, kind, b, nb) && mid.valid(nb) && combined_ok(
                mid,
                *self,
                kind,
                a,
                nb,
                r,
            ));
        }
        r
    }

    /// Embed an integer as an expression of a domain: zero is the canonical
    /// empty sum, one the canonical empty product, and any other number a
    /// coefficient on the unit term — constants are not a separate leaf kind.
    pub fn from_int(&mut self, d: Domain, n: i64) -> (r: Expr)
        requires
            old(self).inv(),
            n > i64::MIN,
        ensures
            final(self).inv(),
            final(self).extends(*old(self)),
            final(self).valid(r),
            final(self).dom_of(r) == d,
            n == 0 ==> node_is_op(final(self).node_of(r), OpKind::Sum, d, Seq::empty()),
            n != 0 ==> exists|u: Expr|
                {
                    &&& final(self).valid(u)
                    &&& #[trigger] node_is_op(final(self).node_of(u), OpKind::Prod, d, Seq::empty())
                    &&& if n == 1 {
                        r == u
                    } else {
                        node_is_op(
                            final(self).node_of(r),
                            OpKind::Sum,
                            d,
                            seq![(u, n)],
                        )
                    }
                },
    {
        if n == 0 {
            let r = self.zero(d);
            return r;
        }
        let u = self.one(d);
        proof {
            assert(node_is_op(self.node_of(u), OpKind::Prod, d, Seq::empty()));
        }
        if n == 1 {
            return u;
        }
        let mut m = AbelianMap::new();
        m.insert(u, n);
        proof {
            assert forall|q: Expr|
                map_coeff(m@, q) == (if q == u {
                    n as int
                } else {
                    0int
                }) by {
                assert(m.coeff(q) == (if q == u {
                    n as int
                } else {
                    0int
                }));
            }
            lemma_canon_singleton(m@, u, n);
            assert(m@ == seq![(u, n)]);
        }
        let ghost mid = *self;
        let r = self.from_map(OpKind::Sum, d, m);
        proof {
            assert(node_is_op(self.node_of(u), OpKind::Prod, d, Seq::empty()));
            assert(node_is_op(self.node_of(r), OpKind::Sum, d, seq![(u, n)]));
        }
        r
    }
}

/// A store extension changes no interned node, so coefficient views of old
/// handles are unchanged.
pub proof fn lemma_extends_op_c(pre: Store, post: Store, kind: OpKind, e: Expr)
    requires
        post.extends(pre),
        pre.valid(e),
    ensures
        forall|q: Expr| op_c(post, kind, e, q) == op_c(pre, kind, e, q),
        post.node_of(e) == pre.node_of(e),
        post.dom_of(e) == pre.dom_of(e),
        post.valid(e),
{
}

/// A canonical entry sequence denoting a single nonzero coefficient is that
/// singleton entry.
pub proof fn lemma_canon_singleton(s: Seq<(Expr, i64)>, t: Expr, v: i64)
    requires
        entries_wf(s),
        v != 0,
        forall|q: Expr|
            map_coeff(s, q) == (if q == t {
                v as int
            } else {
                0
            }),
    ensures
        s == seq![(t, v)],
{
    assert(map_coeff(s, t) == v);
    lemma_coeff_support(s, t);
    let j = choose|j: int| 0 <= j < s.len() && s[j].0 == t;
    lemma_coeff_key_index(s, j);
    if s.len() > 1 {
        let j2: int = if j == 0 {
            1
        } else {
            0
        };
        lemma_coeff_key_index(s, j2);
        assert(s[j2].0 != t);
        assert(false);
    }
    assert(s =~= seq![(t, v)]);
}

/// A canonical entry sequence denoting the zero coefficient function is empty.
pub proof fn lemma_canon_empty(s: Seq<(Expr, i64)>)
    requires
        entries_wf(s),
        forall|q: Expr| map_coeff(s, q) == 0,
    ensures
        s == Seq::<(Expr, i64)>::empty(),
{
    if s.len() > 0 {
        lemma_coeff_key_index(s, 0);
        assert(map_coeff(s, s[0].0) == s[0].1);
        assert(false);
    }
    assert(s =~= Seq::<(Expr, i64)>::empty());
}

/// The coefficient view that materializing the inverse of `b` produces.  In
/// one corner the canonical form collapses: when `b` is itself the combining
/// node `{k: -1}`, its inverse is the bare term `k`, whose view is `k`'s own.
/// Everywhere else it is the pointwise negation of `b`'s view.
pub open spec fn inv_view(store: Store, kind: OpKind, b: Expr, q: Expr) -> int {
    let n = store.node_of(b);
    if is_op_node(n, kind) && op_map(n).len() == 1 && op_map(n)[0].1 == -1 {
        op_c(store, kind, op_map(n)[0].0, q)
    } else {
        -op_c(store, kind, b, q)
    }
}

/// The materialized inverse's coefficient view is `inv_view`.
pub proof fn lemma_inverted_op_c(pre: Store, post: Store, kind: OpKind, b: Expr, nb: Expr)
    requires
        pre.inv(),
        pre.valid(b),
        inverted_ok(pre, post, kind, b, nb),
    ensures
        forall|q: Expr| op_c(post, kind, nb, q) == inv_view(pre, kind, b, q),
{
    let s = choose|s: Seq<(Expr, i64)>|
        {
            &&& #[trigger] entries_wf(s)
            &&& forall|q: Expr| map_coeff(s, q) == -op_c(pre, kind, b, q)
            &&& canon_op(pre, post, kind, pre.dom_of(b), s, nb)
        };
    let n = pre.node_of(b);
    if is_op_node(n, kind) && op_map(n).len() == 1 && op_map(n)[0].1 == -1 {
        // b is the combining node {k: -1}; its inverse collapses to k.
        let k = op_map(n)[0].0;
        assert(entries_wf(op_map(n))) by {
            assert(node_wf_at(pre.nodes@, pre.nodes@[b.id as int], b.id as int));
        }
        assert forall|q: Expr|
            map_coeff(s, q) == (if q == k {
                1int
            } else {
                0int
            }) by {
            lemma_coeff_key_index(op_map(n), 0);
            if q != k {
                if map_coeff(op_map(n), q) != 0 {
                    lemma_coeff_support(op_map(n), q);
                    let j = choose|j: int|
                        0 <= j < op_map(n).len() && op_map(n)[j].0 == q;
                    assert(false);
                }
            }
        }
        lemma_canon_singleton(s, k, 1);
        assert(nb == k);
    } else {
        // The inverse never collapses here, so nb carries s itself.
        if s.len() == 1 && s[0].1 == 1 {
            let k0 = s[0].0;
            lemma_coeff_key_index(s, 0);
            assert forall|q: Expr|
                op_c(pre, kind, b, q) == (if q == k0 {
                    -1int
                } else {
                    0int
                }) by {
                assert(map_coeff(s, q) == -op_c(pre, kind, b, q));
                if q != k0 {
                    if map_coeff(s, q) != 0 {
                        lemma_coeff_support(s, q);
                        let j = choose|j: int| 0 <= j < s.len() && s[j].0 == q;
                        assert(false);
                    }
                }
            }
            if is_op_node(n, kind) {
                assert(entries_wf(op_map(n))) by {
                    assert(node_wf_at(pre.nodes@, pre.nodes@[b.id as int], b.id as int));
                }
                assert forall|q: Expr|
                    map_coeff(op_map(n), q) == (if q == k0 {
                        (-1i64) as int
                    } else {
                        0int
                    }) by {
                    assert(op_c(pre, kind, b, q) == map_coeff(op_map(n), q));
                }
                lemma_canon_singleton(op_map(n), k0, -1i64);
                assert(false);
            } else {
                assert(op_c(pre, kind, b, b) == 1);
                assert(false);
            }
        }
        assert(node_is_op(post.node_of(nb), kind, pre.dom_of(b), s));
        assert forall|q: Expr| op_c(post, kind, nb, q) == inv_view(pre, kind, b, q) by {
            assert(op_map(post.node_of(nb)) == s);
        }
    }
}

} // verus!
