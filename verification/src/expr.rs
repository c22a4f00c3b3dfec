//! The hash-consed expression representation: one owned intern store holding
//! every node ever built, and lightweight copyable handles into it.
//!
//! A node's children are always interned before the node itself, so every
//! child handle is strictly smaller than its parent's index.  The store's
//! invariant adds that no two stored nodes are structurally equal, which gives
//! the hash-consing guarantee: structurally equal values share one handle, and
//! handle equality decides structural equality in constant time.

use vstd::prelude::*;
use crate::abelian::{AbelianMap, entries_wf, map_eq};

verus! {

/// The three cooperating variant families: plain scalars, per-grid-point
/// real-space fields, and their Fourier-space counterparts.
#[derive(Clone, Copy, Debug, PartialEq, Eq, Hash, Structural)]
pub enum Domain {
    Scalar,
    RealSpaceScalar,
    KSpaceScalar,
}

/// A handle to one interned expression: an index into the store's node list.
/// Copyable, hashable, and comparable in constant time; two handles of one
/// store are equal exactly when they denote structurally equal expressions.
#[derive(Clone, Copy, Debug, PartialEq, Eq, Hash, Structural)]
pub struct Expr {
    pub id: usize,
}

/// One interned expression node.  The algebraic shape (`Var`/`Exp`/`Log`/
/// `Add`/`Mul`) is shared by all three domains and carries its domain as a
/// tag; the domain-transition leaves (`Integrate`, `Ifft`, `Fft`) fix their
/// domain by themselves.
#[derive(Clone, Debug, PartialEq, Eq, Hash)]
pub enum Node {
    /// A named leaf: a scalar variable, or a per-grid-point array in the two
    /// field domains.
    Var(Domain, String),
    /// A broadcast scalar reused at every grid point; only meaningful in the
    /// two field domains.
    ScalarVar(Domain, String),
    Exp(Domain, Expr),
    Log(Domain, Expr),
    Add(Domain, AbelianMap),
    Mul(Domain, AbelianMap),
    /// Reduces a real-space field to a scalar by accumulation over the grid.
    Integrate(String, Expr),
    /// Inverse transform of a Fourier-space expression, landing in real space.
    Ifft(Expr),
    /// Forward transform of a real-space expression, landing in Fourier space.
    Fft(Expr),
}

/// A domain-erased handle, used only for cross-domain structural search.
#[derive(Clone, Copy, Debug, PartialEq, Eq, Hash, Structural)]
pub enum GenericExpr {
    Scalar(Expr),
    RealSpaceScalar(Expr),
    KSpaceScalar(Expr),
}

/// The recoverable failures of the library.
#[derive(Clone, Copy, Debug, PartialEq, Eq, Hash, Structural)]
pub enum ExprError {
    /// Converting a scalar that contains an integral into a real-space field:
    /// integration already collapsed the spatial dimension.
    UnsupportedConversion,
    /// Allocating a Fourier-space buffer for a bare variable under a
    /// different name.
    InvalidAllocation,
    /// Projecting an expression that still contains a transform onto the
    /// flat scalar-per-grid-point form.
    IllegalProjection,
    /// Substitution in the field domains, which is intentionally undefined.
    UnimplementedOperation,
}

/// The domain an expression node belongs to.
pub open spec fn node_dom(n: Node) -> Domain {
    match n {
        Node::Var(d, _) => d,
        Node::ScalarVar(d, _) => d,
        Node::Exp(d, _) => d,
        Node::Log(d, _) => d,
        Node::Add(d, _) => d,
        Node::Mul(d, _) => d,
        Node::Integrate(_, _) => Domain::Scalar,
        Node::Ifft(_) => Domain::RealSpaceScalar,
        Node::Fft(_) => Domain::KSpaceScalar,
    }
}

/// Structural equality of nodes, comparing names by their character sequences
/// and maps by their canonical entry lists.
pub open spec fn node_eqv(a: Node, b: Node) -> bool {
    match (a, b) {
        (Node::Var(d1, s1), Node::Var(d2, s2)) => d1 == d2 && s1@ == s2@,
        (Node::ScalarVar(d1, s1), Node::ScalarVar(d2, s2)) => d1 == d2 && s1@ == s2@,
        (Node::Exp(d1, e1), Node::Exp(d2, e2)) => d1 == d2 && e1 == e2,
        (Node::Log(d1, e1), Node::Log(d2, e2)) => d1 == d2 && e1 == e2,
        (Node::Add(d1, m1), Node::Add(d2, m2)) => d1 == d2 && m1@ == m2@,
        (Node::Mul(d1, m1), Node::Mul(d2, m2)) => d1 == d2 && m1@ == m2@,
        (Node::Integrate(s1, e1), Node::Integrate(s2, e2)) => s1@ == s2@ && e1 == e2,
        (Node::Ifft(e1), Node::Ifft(e2)) => e1 == e2,
        (Node::Fft(e1), Node::Fft(e2)) => e1 == e2,
        _ => false,
    }
}

/// Well-formedness of a node whose children must already be interned below
/// `bound`: children in range and of the right domain, maps canonical, and —
/// the canonical-form rule — no `Add` or `Mul` wrapped around a single entry
/// with coefficient one, since such a value collapses to its bare term.
pub open spec fn node_wf_at(ns: Seq<Node>, n: Node, bound: int) -> bool {
    match n {
        Node::Var(_, _) => true,
        Node::ScalarVar(d, _) => d != Domain::Scalar,
        Node::Exp(d, e) => e.id < bound && node_dom(ns[e.id as int]) == d,
        Node::Log(d, e) => e.id < bound && node_dom(ns[e.id as int]) == d,
        Node::Add(d, m) => map_node_wf_at(ns, d, m, bound),
        Node::Mul(d, m) => map_node_wf_at(ns, d, m, bound),
        Node::Integrate(_, e) => e.id < bound && node_dom(ns[e.id as int])
            == Domain::RealSpaceScalar,
        Node::Ifft(e) => e.id < bound && node_dom(ns[e.id as int]) == Domain::KSpaceScalar,
        Node::Fft(e) => e.id < bound && node_dom(ns[e.id as int]) == Domain::RealSpaceScalar,
    }
}

/// The map payload of a well-formed `Add`/`Mul` node: canonical entries, all
/// keys below `bound` and of the node's own domain, and not a bare singleton
/// with coefficient one.
pub open spec fn map_node_wf_at(ns: Seq<Node>, d: Domain, m: AbelianMap, bound: int) -> bool {
    &&& entries_wf(m@)
    &&& !(m@.len() == 1 && m@[0].1 == 1)
    &&& forall|t: int|
        0 <= t < m@.len() ==> m@[t].0.id < bound && node_dom(ns[m@[t].0.id as int]) == d
}

/// The owned intern store.  It only ever grows; a handle, once issued, stays
/// valid and keeps denoting the same node for the life of the store.
#[derive(Debug)]
pub struct Store {
    pub nodes: Vec<Node>,
}

impl Store {
    /// The store's invariant: every node well formed with children below it,
    /// and no two stored nodes structurally equal.
    pub open spec fn inv(self) -> bool {
        &&& forall|i: int|
            0 <= i < self.nodes@.len() ==> node_wf_at(self.nodes@, self.nodes@[i], i)
        &&& forall|i: int, j: int|
            0 <= i < j < self.nodes@.len() ==> !node_eqv(self.nodes@[i], self.nodes@[j])
    }

    /// Whether a handle points into this store.
    pub open spec fn valid(self, e: Expr) -> bool {
        e.id < self.nodes@.len()
    }

    /// The node a handle denotes.
    pub open spec fn node_of(self, e: Expr) -> Node {
        self.nodes@[e.id as int]
    }

    /// The domain of the expression a handle denotes.
    pub open spec fn dom_of(self, e: Expr) -> Domain {
        node_dom(self.node_of(e))
    }

    /// The store after an operation keeps every node the store held before.
    pub open spec fn extends(self, pre: Store) -> bool {
        &&& pre.nodes@.len() <= self.nodes@.len()
        &&& forall|i: int| 0 <= i < pre.nodes@.len() ==> self.nodes@[i] == pre.nodes@[i]
    }

    /// A fresh, empty store.
    pub fn new() -> (r: Store)
        ensures
            r.inv(),
            r.nodes@.len() == 0,
    {
        Store { nodes: Vec::new() }
    }

    /// How many distinct expressions have been interned.
    pub fn len(&self) -> (r: usize)
        ensures
            r == self.nodes@.len(),
    {
        self.nodes.len()
    }

    /// Read the node a handle denotes.
    pub fn node(&self, e: Expr) -> (r: &Node)
        requires
            self.valid(e),
        ensures
            *r == self.node_of(e),
    {
        &self.nodes[e.id]
    }

    /// An owned copy of the node a handle denotes, structurally equal to it.
    pub fn owned_node(&self, e: Expr) -> (n: Node)
        requires
            self.valid(e),
        ensures
            node_eqv(n, self.node_of(e)),
    {
        match self.node(e) {
            Node::Var(d, s) => Node::Var(*d, s.clone()),
            Node::ScalarVar(d, s) => Node::ScalarVar(*d, s.clone()),
            Node::Exp(d, a) => Node::Exp(*d, *a),
            Node::Log(d, a) => Node::Log(*d, *a),
            Node::Add(d, m) => Node::Add(*d, m.duplicate()),
            Node::Mul(d, m) => Node::Mul(*d, m.duplicate()),
            Node::Integrate(s, a) => Node::Integrate(s.clone(), *a),
            Node::Ifft(a) => Node::Ifft(*a),
            Node::Fft(a) => Node::Fft(*a),
        }
    }

    /// Deduplicating insertion: returns the unique handle whose node is
    /// structurally equal to `n`, interning `n` only if no such node exists.
    /// This is the sole way nodes enter the store, and it is what makes
    /// structural equality of expressions coincide with handle equality.
    #[verifier::loop_isolation(false)]
    pub fn intern(&mut self, n: Node) -> (r: Expr)
        requires
            old(self).inv(),
            node_wf_at(old(self).nodes@, n, old(self).nodes@.len() as int),
        ensures
            final(self).inv(),
            final(self).extends(*old(self)),
            final(self).nodes@.len() <= old(self).nodes@.len() + 1,
            final(self).valid(r),
            node_eqv(final(self).node_of(r), n),
            node_dom(final(self).node_of(r)) == node_dom(n),
    {
        let len = self.nodes.len();
        let mut i: usize = 0;
        while i < len
            invariant
                *self == *old(self),
                len == self.nodes@.len(),
                i <= len,
                forall|j: int| 0 <= j < i ==> !node_eqv(self.nodes@[j], n),
            decreases len - i,
        {
            if node_eq(&self.nodes[i], &n) {
                proof {
                    lemma_eqv_dom(self.nodes@[i as int], n);
                }
                return Expr { id: i };
            }
            i = i + 1;
        }
        self.nodes.push(n);
        proof {
            let ns = self.nodes@;
            let pre = old(self).nodes@;
            assert forall|a: int| 0 <= a < ns.len() implies node_wf_at(ns, ns[a], a) by {
                if a < pre.len() {
                    lemma_node_wf_prefix(pre, ns, pre[a], a);
                } else {
                    lemma_node_wf_prefix(pre, ns, n, pre.len() as int);
                }
            }
        }
        Expr { id: len }
    }
}

/// Structurally equal nodes lie in the same domain.
pub proof fn lemma_eqv_dom(a: Node, b: Node)
    requires
        node_eqv(a, b),
    ensures
        node_dom(a) == node_dom(b),
{
}

/// Node well-formedness only looks at nodes below the bound, so it survives
/// appending new nodes to the store.
pub proof fn lemma_node_wf_prefix(ns1: Seq<Node>, ns2: Seq<Node>, n: Node, bound: int)
    requires
        node_wf_at(ns1, n, bound),
        bound <= ns1.len(),
        ns1.len() <= ns2.len(),
        forall|i: int| 0 <= i < ns1.len() ==> ns2[i] == ns1[i],
    ensures
        node_wf_at(ns2, n, bound),
{
}

/// Executable structural equality of nodes, deciding `node_eqv`.
pub fn node_eq(a: &Node, b: &Node) -> (r: bool)
    ensures
        r == node_eqv(*a, *b),
{
    match (a, b) {
        (Node::Var(d1, s1), Node::Var(d2, s2)) => *d1 == *d2 && s1.eq(s2),
        (Node::ScalarVar(d1, s1), Node::ScalarVar(d2, s2)) => *d1 == *d2 && s1.eq(s2),
        (Node::Exp(d1, e1), Node::Exp(d2, e2)) => *d1 == *d2 && e1.id == e2.id,
        (Node::Log(d1, e1), Node::Log(d2, e2)) => *d1 == *d2 && e1.id == e2.id,
        (Node::Add(d1, m1), Node::Add(d2, m2)) => *d1 == *d2 && map_eq(m1, m2),
        (Node::Mul(d1, m1), Node::Mul(d2, m2)) => *d1 == *d2 && map_eq(m1, m2),
        (Node::Integrate(s1, e1), Node::Integrate(s2, e2)) => s1.eq(s2) && e1.id == e2.id,
        (Node::Ifft(e1), Node::Ifft(e2)) => e1.id == e2.id,
        (Node::Fft(e1), Node::Fft(e2)) => e1.id == e2.id,
        _ => false,
    }
}

} // verus!
