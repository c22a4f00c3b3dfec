//! The library's laws, stated over the contracts of the canonicalizing
//! constructors and proved once and for all: hash-consing, the
//! commutative-monoid identities for sums and products, insertion-order
//! independence of the coefficient maps, and the re-canonicalization of
//! rewritten leaves.
//!
//! Each law about an executable operation is phrased over that operation's
//! postcondition relation (`combined_ok`, `inverted_ok`, `reduced_ok`), so it
//! applies to any call of the operation, in any store.

use vstd::prelude::*;
use crate::abelian::{AbelianMap, entries_wf, lemma_entries_unique, map_coeff, pairs_coeff};
use crate::algebra::{
    OpKind, canon_op, combined_ok, inv_view, inverted_ok, is_op_node, lemma_canon_empty,
    lemma_canon_singleton, lemma_extends_op_c, lemma_inverted_op_c, node_is_op, op_c, op_map,
    reduced_ok,
};
use crate::expr::{Expr, Node, Store, node_eqv, node_wf_at};

verus! {

/// Hash-consing: two handles of one store denote structurally equal
/// expressions exactly when they are the same handle.  Equality (and hence
/// hashing) of expressions is therefore decided by the handle alone.
pub proof fn lemma_hash_consing(st: Store, e1: Expr, e2: Expr)
    requires
        st.inv(),
        st.valid(e1),
        st.valid(e2),
    ensures
        node_eqv(st.node_of(e1), st.node_of(e2)) <==> e1 == e2,
{
    if e1 == e2 {
        lemma_eqv_reflexive(st.node_of(e1));
    }
    if node_eqv(st.node_of(e1), st.node_of(e2)) && e1 != e2 {
        if e1.id < e2.id {
            assert(!node_eqv(st.nodes@[e1.id as int], st.nodes@[e2.id as int]));
        } else {
            lemma_eqv_symmetric(st.node_of(e1), st.node_of(e2));
            assert(!node_eqv(st.nodes@[e2.id as int], st.nodes@[e1.id as int]));
        }
        assert(false);
    }
}

/// Structural node equality is reflexive.
pub proof fn lemma_eqv_reflexive(n: Node)
    ensures
        node_eqv(n, n),
{
}

/// Structural node equality is symmetric.
pub proof fn lemma_eqv_symmetric(a: Node, b: Node)
    requires
        node_eqv(a, b),
    ensures
        node_eqv(b, a),
{
}

/// `a + 0 = a` and `a * 1 = a`: combining any expression with the canonical
/// identity element of its monoid returns the very same handle, whichever of
/// the two operands it stood in.
pub proof fn lemma_identity_element(
    pre: Store,
    post: Store,
    kind: OpKind,
    a: Expr,
    z: Expr,
    r: Expr,
)
    requires
        pre.inv(),
        pre.valid(a),
        pre.valid(z),
        node_is_op(pre.node_of(z), kind, pre.dom_of(a), Seq::empty()),
        combined_ok(pre, post, kind, a, z, r) || combined_ok(pre, post, kind, z, a, r),
    ensures
        r == a,
{
    let s = choose|s: Seq<(Expr, i64)>|
        {
            &&& #[trigger] entries_wf(s)
            &&& (forall|q: Expr|
                map_coeff(s, q) == op_c(pre, kind, a, q) + op_c(pre, kind, z, q)) || (forall|
                q: Expr,
            |
                map_coeff(s, q) == op_c(pre, kind, z, q) + op_c(pre, kind, a, q))
            &&& canon_op(pre, post, kind, pre.dom_of(a), s, r) || canon_op(
                pre,
                post,
                kind,
                pre.dom_of(z),
                s,
                r,
            )
        };
    assert(pre.dom_of(z) == pre.dom_of(a));
    assert forall|q: Expr| op_c(pre, kind, z, q) == 0 by {
        assert(op_map(pre.node_of(z)) == Seq::<(Expr, i64)>::empty());
    }
    assert forall|q: Expr| map_coeff(s, q) == op_c(pre, kind, a, q) by {}
    if is_op_node(pre.node_of(a), kind) {
        let ma = op_map(pre.node_of(a));
        assert(node_wf_at(pre.nodes@, pre.nodes@[a.id as int], a.id as int));
        assert(entries_wf(ma));
        assert(!(ma.len() == 1 && ma[0].1 == 1));
        assert forall|q: Expr| map_coeff(s, q) == map_coeff(ma, q) by {
            assert(op_c(pre, kind, a, q) == map_coeff(ma, q));
        }
        lemma_entries_unique(s, ma);
        assert(node_is_op(post.node_of(r), kind, pre.dom_of(a), ma));
        assert(post.node_of(a) == pre.node_of(a));
        assert(node_eqv(post.node_of(r), post.node_of(a)));
        lemma_hash_consing(post, r, a);
    } else {
        assert forall|q: Expr|
            map_coeff(s, q) == (if q == a {
                1int
            } else {
                0int
            }) by {
            assert(map_coeff(s, q) == op_c(pre, kind, a, q));
        }
        lemma_canon_singleton(s, a, 1i64);
        assert(r == s[0].0);
    }
}

/// `a + b = b + a` and `a * b = b * a`: the two combination orders yield the
/// same handle, because the pointwise sum of coefficient views is symmetric
/// and the canonical form of a coefficient function is unique.
pub proof fn lemma_commutative(
    pre: Store,
    mid: Store,
    post: Store,
    kind: OpKind,
    a: Expr,
    b: Expr,
    r1: Expr,
    r2: Expr,
)
    requires
        pre.inv(),
        pre.valid(a),
        pre.valid(b),
        pre.dom_of(a) == pre.dom_of(b),
        combined_ok(pre, mid, kind, a, b, r1),
        combined_ok(mid, post, kind, b, a, r2),
    ensures
        r1 == r2,
{
    let s1 = choose|s: Seq<(Expr, i64)>|
        {
            &&& #[trigger] entries_wf(s)
            &&& forall|q: Expr| map_coeff(s, q) == op_c(pre, kind, a, q) + op_c(pre, kind, b, q)
            &&& canon_op(pre, mid, kind, pre.dom_of(a), s, r1)
        };
    let s2 = choose|s: Seq<(Expr, i64)>|
        {
            &&& #[trigger] entries_wf(s)
            &&& forall|q: Expr| map_coeff(s, q) == op_c(mid, kind, b, q) + op_c(mid, kind, a, q)
            &&& canon_op(mid, post, kind, mid.dom_of(b), s, r2)
        };
    lemma_extends_op_c(pre, mid, kind, a);
    lemma_extends_op_c(pre, mid, kind, b);
    assert forall|q: Expr| map_coeff(s1, q) == map_coeff(s2, q) by {
        assert(op_c(mid, kind, a, q) == op_c(pre, kind, a, q));
        assert(op_c(mid, kind, b, q) == op_c(pre, kind, b, q));
    }
    lemma_entries_unique(s1, s2);
    if s1.len() == 1 && s1[0].1 == 1 {
        assert(r1 == s1[0].0);
        assert(r2 == s2[0].0);
    } else {
        assert(node_is_op(mid.node_of(r1), kind, pre.dom_of(a), s1));
        assert(post.node_of(r1) == mid.node_of(r1));
        assert(node_is_op(post.node_of(r2), kind, mid.dom_of(b), s2));
        assert(mid.dom_of(b) == pre.dom_of(a));
        assert(node_eqv(post.node_of(r1), post.node_of(r2)));
        lemma_hash_consing(post, r1, r2);
    }
}

/// `a - a = 0` and `a / a = 1` for any atomic term `a` (one that is not
/// itself a sum, respectively a product): reducing an expression by itself
/// cancels every coefficient, leaving the canonical identity element.
pub proof fn lemma_cancellation(pre: Store, post: Store, kind: OpKind, a: Expr, r: Expr)
    requires
        pre.inv(),
        pre.valid(a),
        !is_op_node(pre.node_of(a), kind),
        reduced_ok(pre, post, kind, a, a, r),
    ensures
        post.valid(r),
        node_is_op(post.node_of(r), kind, pre.dom_of(a), Seq::empty()),
{
    let (mid, na) = choose|mid: Store, nb: Expr|
        {
            &&& #[trigger] inverted_ok(pre, mid, kind, a, nb)
            &&& mid.valid(nb)
            &&& combined_ok(mid, post, kind, a, nb, r)
        };
    lemma_inverted_op_c(pre, mid, kind, a, na);
    let s_inv = choose|s: Seq<(Expr, i64)>|
        {
            &&& #[trigger] entries_wf(s)
            &&& forall|q: Expr| map_coeff(s, q) == -op_c(pre, kind, a, q)
            &&& canon_op(pre, mid, kind, pre.dom_of(a), s, na)
        };
    lemma_extends_op_c(pre, mid, kind, a);
    let s = choose|s: Seq<(Expr, i64)>|
        {
            &&& #[trigger] entries_wf(s)
            &&& forall|q: Expr| map_coeff(s, q) == op_c(mid, kind, a, q) + op_c(mid, kind, na, q)
            &&& canon_op(mid, post, kind, mid.dom_of(a), s, r)
        };
    assert forall|q: Expr| map_coeff(s, q) == 0 by {
        assert(op_c(mid, kind, a, q) == op_c(pre, kind, a, q));
        assert(op_c(mid, kind, na, q) == inv_view(pre, kind, a, q));
        assert(inv_view(pre, kind, a, q) == -op_c(pre, kind, a, q));
    }
    lemma_canon_empty(s);
    assert(node_is_op(post.node_of(r), kind, mid.dom_of(a), s));
    assert(mid.dom_of(a) == pre.dom_of(a));
}

/// `a + a - a = a` and `a * a / a = a` for any atomic term `a`: doubling then
/// reducing leaves the original handle.
pub proof fn lemma_double_then_cancel(
    pre: Store,
    mid: Store,
    post: Store,
    kind: OpKind,
    a: Expr,
    t: Expr,
    r: Expr,
)
    requires
        pre.inv(),
        pre.valid(a),
        !is_op_node(pre.node_of(a), kind),
        combined_ok(pre, mid, kind, a, a, t),
        reduced_ok(mid, post, kind, t, a, r),
    ensures
        r == a,
{
    let d = pre.dom_of(a);
    let s_t = choose|s: Seq<(Expr, i64)>|
        {
            &&& #[trigger] entries_wf(s)
            &&& forall|q: Expr| map_coeff(s, q) == op_c(pre, kind, a, q) + op_c(pre, kind, a, q)
            &&& canon_op(pre, mid, kind, d, s, t)
        };
    assert forall|q: Expr|
        map_coeff(s_t, q) == (if q == a {
            2int
        } else {
            0int
        }) by {
        assert(map_coeff(s_t, q) == op_c(pre, kind, a, q) + op_c(pre, kind, a, q));
    }
    lemma_canon_singleton(s_t, a, 2i64);
    assert(node_is_op(mid.node_of(t), kind, d, s_t));
    let (mid2, na) = choose|mid2: Store, nb: Expr|
        {
            &&& #[trigger] inverted_ok(mid, mid2, kind, a, nb)
            &&& mid2.valid(nb)
            &&& combined_ok(mid2, post, kind, t, nb, r)
        };
    assert(mid.node_of(a) == pre.node_of(a));
    lemma_inverted_op_c(mid, mid2, kind, a, na);
    lemma_extends_op_c(mid, mid2, kind, t);
    lemma_extends_op_c(mid, mid2, kind, a);
    let s_r = choose|s: Seq<(Expr, i64)>|
        {
            &&& #[trigger] entries_wf(s)
            &&& forall|q: Expr| map_coeff(s, q) == op_c(mid2, kind, t, q) + op_c(mid2, kind, na, q)
            &&& canon_op(mid2, post, kind, mid2.dom_of(t), s, r)
        };
    assert forall|q: Expr|
        map_coeff(s_r, q) == (if q == a {
            1int
        } else {
            0int
        }) by {
        assert(op_c(mid2, kind, t, q) == map_coeff(s_t, q)) by {
            assert(mid2.node_of(t) == mid.node_of(t));
            assert(op_map(mid2.node_of(t)) == s_t);
        }
        assert(op_c(mid2, kind, na, q) == inv_view(mid, kind, a, q));
        assert(inv_view(mid, kind, a, q) == -op_c(mid, kind, a, q));
        assert(op_c(mid, kind, a, q) == (if q == a {
            1int
        } else {
            0int
        }));
    }
    lemma_canon_singleton(s_r, a, 1i64);
    assert(r == s_r[0].0);
}

/// `a + a - a - a = 0` and `a * a / a / a = 1` for any atomic term `a`.
pub proof fn lemma_double_cancel_twice(
    pre: Store,
    m1: Store,
    m2: Store,
    post: Store,
    kind: OpKind,
    a: Expr,
    t: Expr,
    r1: Expr,
    r2: Expr,
)
    requires
        pre.inv(),
        pre.valid(a),
        !is_op_node(pre.node_of(a), kind),
        combined_ok(pre, m1, kind, a, a, t),
        reduced_ok(m1, m2, kind, t, a, r1),
        reduced_ok(m2, post, kind, r1, a, r2),
    ensures
        post.valid(r2),
        node_is_op(post.node_of(r2), kind, pre.dom_of(a), Seq::empty()),
{
    lemma_double_then_cancel(pre, m1, m2, kind, a, t, r1);
    assert(r1 == a);
    // m2 extends pre, so a is still the same atomic node there.
    let s_t = choose|s: Seq<(Expr, i64)>|
        {
            &&& #[trigger] entries_wf(s)
            &&& forall|q: Expr| map_coeff(s, q) == op_c(pre, kind, a, q) + op_c(pre, kind, a, q)
            &&& canon_op(pre, m1, kind, pre.dom_of(a), s, t)
        };
    let (mid2, na) = choose|mid2: Store, nb: Expr|
        {
            &&& #[trigger] inverted_ok(m1, mid2, kind, a, nb)
            &&& mid2.valid(nb)
            &&& combined_ok(mid2, m2, kind, t, nb, r1)
        };
    assert(m2.extends(pre)) by {
        assert(m1.extends(pre));
        assert(mid2.extends(m1));
        assert(m2.extends(mid2));
    }
    assert(m2.node_of(a) == pre.node_of(a));
    assert(m2.dom_of(a) == pre.dom_of(a));
    assert(m2.inv());
    lemma_cancellation(m2, post, kind, a, r2);
}

/// Insertion-order independence: a canonical coefficient map is determined by
/// the coefficient function it denotes, so any two insertion orders of the
/// same multiset of terms produce structurally equal — hence equal-hashing —
/// maps.
pub proof fn lemma_map_insertion_order(m1: AbelianMap, m2: AbelianMap)
    requires
        m1.wf(),
        m2.wf(),
        forall|q: Expr| m1.coeff(q) == m2.coeff(q),
    ensures
        m1@ == m2@,
{
    assert forall|q: Expr| map_coeff(m1@, q) == map_coeff(m2@, q) by {
        assert(m1.coeff(q) == m2.coeff(q));
    }
    lemma_entries_unique(m1@, m2@);
}

/// Leaf-mapping re-canonicalization: when two distinct leaves of a sum are
/// rewritten to one identical replacement `t`, the rebuilt canonical map
/// holds a single merged entry whose coefficient is the sum of the two
/// original coefficients — or no entry at all when they cancel — never two
/// entries with the same key.
pub proof fn lemma_leaf_merge(t: Expr, c1: i64, c2: i64, s: Seq<(Expr, i64)>)
    requires
        entries_wf(s),
        -i64::MAX <= c1 + c2 <= i64::MAX,
        forall|q: Expr| map_coeff(s, q) == pairs_coeff(seq![(t, c1), (t, c2)], q),
    ensures
        c1 + c2 == 0 ==> s == Seq::<(Expr, i64)>::empty(),
        c1 + c2 != 0 ==> s == seq![(t, (c1 + c2) as i64)],
{
    let ps = seq![(t, c1), (t, c2)];
    assert(ps.drop_last() =~= seq![(t, c1)]);
    assert(seq![(t, c1)].drop_last() =~= Seq::<(Expr, i64)>::empty());
    assert forall|q: Expr|
        pairs_coeff(ps, q) == (if q == t {
            c1 + c2
        } else {
            0int
        }) by {
        assert(pairs_coeff(Seq::<(Expr, i64)>::empty(), q) == 0);
        assert(pairs_coeff(seq![(t, c1)], q) == pairs_coeff(Seq::<(Expr, i64)>::empty(), q) + (
        if q == t {
            c1 as int
        } else {
            0int
        }));
        assert(pairs_coeff(ps, q) == pairs_coeff(seq![(t, c1)], q) + (if q == t {
            c2 as int
        } else {
            0int
        }));
    }
    if c1 + c2 == 0 {
        lemma_canon_empty(s);
    } else {
        assert forall|q: Expr|
            map_coeff(s, q) == (if q == t {
                ((c1 + c2) as i64) as int
            } else {
                0int
            }) by {
            assert(map_coeff(s, q) == pairs_coeff(ps, q));
        }
        lemma_canon_singleton(s, t, (c1 + c2) as i64);
    }
}

} // verus!
