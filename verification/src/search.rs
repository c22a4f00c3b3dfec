//! Structural searches over interned expressions: transform reachability
//! (which drives the code generator's mode decision), integral reachability
//! (which gates the scalar-to-field embedding), cross-domain equality search,
//! leaf mapping and substitution.
//!
//! Every recursive definition here descends through child handles, which the
//! store invariant keeps strictly below their parent's index; the recursion
//! is therefore guarded on that bound and measured by it.

use vstd::prelude::*;
use crate::abelian::{AbelianMap, abs_val_sum, map_coeff, pairs_coeff};
use crate::algebra::{OpKind, is_exp_node, is_log_node, node_is_op, op_map};
use crate::expr::{Domain, Expr, ExprError, GenericExpr, Node, Store, node_wf_at};

verus! {

/// Whether an inverse transform is reachable from `e` without crossing a
/// forward transform: the search descends through `Exp`/`Log` operands and
/// every sum/product term, and stops at (but includes) `Ifft` nodes.  This
/// drives the real-space rendering mode.
pub open spec fn spec_contains_ifft(store: Store, e: Expr) -> bool
    decreases e.id, 1int, 0int,
{
    match store.node_of(e) {
        Node::Ifft(_) => true,
        Node::Exp(_, a) => a.id < e.id && spec_contains_ifft(store, a),
        Node::Log(_, a) => a.id < e.id && spec_contains_ifft(store, a),
        Node::Add(_, m) => spec_contains_ifft_list(store, m@, e.id as int),
        Node::Mul(_, m) => spec_contains_ifft_list(store, m@, e.id as int),
        _ => false,
    }
}

/// Whether any key of an entry list reaches an inverse transform.
pub open spec fn spec_contains_ifft_list(store: Store, s: Seq<(Expr, i64)>, bound: int) -> bool
    decreases bound, 0int, s.len(),
{
    if s.len() == 0 {
        false
    } else {
        ||| spec_contains_ifft_list(store, s.drop_last(), bound)
        ||| (s.last().0.id < bound && spec_contains_ifft(store, s.last().0))
    }
}

/// The operands of every forward transform reachable from `e`: the search
/// descends through `Exp`/`Log`, every sum/product term, integral bodies and
/// inverse-transform operands, and stops at (but includes) `Fft` nodes.  An
/// empty result selects the flat element-wise rendering mode in Fourier
/// space.
pub open spec fn spec_cfft(store: Store, e: Expr) -> Seq<Expr>
    decreases e.id, 1int, 0int,
{
    match store.node_of(e) {
        Node::Fft(a) => seq![a],
        Node::Exp(_, a) => if a.id < e.id {
            spec_cfft(store, a)
        } else {
            Seq::empty()
        },
        Node::Log(_, a) => if a.id < e.id {
            spec_cfft(store, a)
        } else {
            Seq::empty()
        },
        Node::Integrate(_, a) => if a.id < e.id {
            spec_cfft(store, a)
        } else {
            Seq::empty()
        },
        Node::Ifft(a) => if a.id < e.id {
            spec_cfft(store, a)
        } else {
            Seq::empty()
        },
        Node::Add(_, m) => spec_cfft_list(store, m@, e.id as int),
        Node::Mul(_, m) => spec_cfft_list(store, m@, e.id as int),
        _ => Seq::empty(),
    }
}

/// The concatenated forward-transform operands of an entry list, in key
/// order.
pub open spec fn spec_cfft_list(store: Store, s: Seq<(Expr, i64)>, bound: int) -> Seq<Expr>
    decreases bound, 0int, s.len(),
{
    if s.len() == 0 {
        Seq::empty()
    } else {
        spec_cfft_list(store, s.drop_last(), bound) + (if s.last().0.id < bound {
            spec_cfft(store, s.last().0)
        } else {
            Seq::empty()
        })
    }
}

impl Store {
    /// Whether an inverse transform is reachable from `e` (stopping at, but
    /// including, `Ifft` nodes).
    #[verifier::loop_isolation(false)]
    pub fn contains_ifft(&self, e: Expr) -> (r: bool)
        requires
            self.inv(),
            self.valid(e),
        ensures
            r == spec_contains_ifft(*self, e),
        decreases e.id,
    {
        proof {
            assert(node_wf_at(self.nodes@, self.nodes@[e.id as int], e.id as int));
        }
        match self.node(e) {
            Node::Ifft(_) => true,
            Node::Exp(_, a) => self.contains_ifft(*a),
            Node::Log(_, a) => self.contains_ifft(*a),
            Node::Add(_, m) => self.contains_ifft_entries(e, m.as_entries()),
            Node::Mul(_, m) => self.contains_ifft_entries(e, m.as_entries()),
            _ => false,
        }
    }

    /// Whether any key of the entry list of `e`'s own map reaches an inverse
    /// transform.
    #[verifier::loop_isolation(false)]
    fn contains_ifft_entries(&self, e: Expr, entries: &Vec<(Expr, i64)>) -> (r: bool)
        requires
            self.inv(),
            self.valid(e),
            forall|j: int|
                0 <= j < entries@.len() ==> (#[trigger] entries@[j].0).id < e.id && self.valid(
                    entries@[j].0,
                ),
        ensures
            r == spec_contains_ifft_list(*self, entries@, e.id as int),
        decreases e.id, entries@.len(),
    {
        let n = entries.len();
        let mut i: usize = 0;
        let mut found = false;
        while i < n
            invariant
                i <= n,
                n == entries@.len(),
                found == spec_contains_ifft_list(*self, entries@.take(i as int), e.id as int),
            decreases n - i,
        {
            proof {
                assert(entries@.take(i + 1).drop_last() =~= entries@.take(i as int));
                assert(entries@.take(i + 1).last() == entries@[i as int]);
            }
            if !found {
                if self.contains_ifft(entries[i].0) {
                    found = true;
                }
            } else {
                proof {
                    assert(spec_contains_ifft_list(
                        *self,
                        entries@.take(i + 1),
                        e.id as int,
                    ));
                }
            }
            i = i + 1;
        }
        proof {
            assert(entries@.take(n as int) =~= entries@);
        }
        found
    }

    /// `contains_fft`: every forward-transform operand reachable from `e`,
    /// in deterministic traversal order (stopping at, but including, `Fft`
    /// nodes).
    #[verifier::loop_isolation(false)]
    pub fn contains_fft(&self, e: Expr) -> (r: Vec<Expr>)
        requires
            self.inv(),
            self.valid(e),
        ensures
            r@ == spec_cfft(*self, e),
        decreases e.id,
    {
        proof {
            assert(node_wf_at(self.nodes@, self.nodes@[e.id as int], e.id as int));
        }
        match self.node(e) {
            Node::Fft(a) => {
                let mut out: Vec<Expr> = Vec::new();
                let av = *a;
                out.push(av);
                proof {
                    assert(out@ =~= seq![av]);
                }
                out
            },
            Node::Exp(_, a) => self.contains_fft(*a),
            Node::Log(_, a) => self.contains_fft(*a),
            Node::Integrate(_, a) => self.contains_fft(*a),
            Node::Ifft(a) => self.contains_fft(*a),
            Node::Add(_, m) => self.contains_fft_entries(e, m.as_entries()),
            Node::Mul(_, m) => self.contains_fft_entries(e, m.as_entries()),
            _ => {
                let out: Vec<Expr> = Vec::new();
                proof {
                    assert(out@ =~= Seq::<Expr>::empty());
                }
                out
            },
        }
    }

    /// The concatenated forward-transform operands of `e`'s own entry list.
    #[verifier::loop_isolation(false)]
    fn contains_fft_entries(&self, e: Expr, entries: &Vec<(Expr, i64)>) -> (r: Vec<Expr>)
        requires
            self.inv(),
            self.valid(e),
            forall|j: int|
                0 <= j < entries@.len() ==> (#[trigger] entries@[j].0).id < e.id && self.valid(
                    entries@[j].0,
                ),
        ensures
            r@ == spec_cfft_list(*self, entries@, e.id as int),
        decreases e.id, entries@.len(),
    {
        let n = entries.len();
        let mut out: Vec<Expr> = Vec::new();
        let mut i: usize = 0;
        while i < n
            invariant
                i <= n,
                n == entries@.len(),
                out@ == spec_cfft_list(*self, entries@.take(i as int), e.id as int),
            decreases n - i,
        {
            proof {
                assert(entries@.take(i + 1).drop_last() =~= entries@.take(i as int));
                assert(entries@.take(i + 1).last() == entries@[i as int]);
            }
            let mut sub = self.contains_fft(entries[i].0);
            out.append(&mut sub);
            i = i + 1;
        }
        proof {
            assert(entries@.take(n as int) =~= entries@);
        }
        out
    }

}

/// The canonical result of rebuilding a sum/product from rewritten
/// key/coefficient pairs: coefficients of keys rewritten to one expression
/// merge, cancelled keys vanish, and the singleton-one form collapses to its
/// bare term.
pub open spec fn canon_pairs(
    post: Store,
    kind: OpKind,
    d: Domain,
    ps: Seq<(Expr, i64)>,
    x: Expr,
) -> bool {
    exists|s2: Seq<(Expr, i64)>|
        {
            &&& #[trigger] crate::abelian::entries_wf(s2)
            &&& forall|q: Expr| map_coeff(s2, q) == pairs_coeff(ps, q)
            &&& if s2.len() == 1 && s2[0].1 == 1 {
                x == s2[0].0
            } else {
                node_is_op(post.node_of(x), kind, d, s2)
            }
        }
}

/// The three structural rewrites that rebuild expressions bottom-up through
/// the canonicalizing constructors.
#[derive(Clone, Copy, Debug, PartialEq, Eq, Structural)]
pub enum RewriteMode {
    /// Embed a scalar into real space: `Var` becomes the broadcast
    /// `ScalarVar`; integrals have no embedding.
    Embed,
    /// Project a field onto its per-grid-point scalar: `Var` becomes the
    /// indexed `Var(name + "[i]")`, `ScalarVar` passes through; transforms
    /// have no projection.
    Project,
    /// Replace every occurrence of the first handle by the second; only
    /// defined in the scalar domain.
    Substitute(Expr, Expr),
}

/// The domain a rewrite lands in.
pub open spec fn rw_dom(mode: RewriteMode) -> Domain {
    match mode {
        RewriteMode::Embed => Domain::RealSpaceScalar,
        RewriteMode::Project => Domain::Scalar,
        RewriteMode::Substitute(_, _) => Domain::Scalar,
    }
}

/// Whether the rewrite is defined on `e`: it fails exactly on the leaves the
/// mode gives no image to (integrals for embedding and substitution,
/// transform nodes for projection), except where substitution replaces the
/// whole subtree first.
pub open spec fn rewrite_ok(mode: RewriteMode, store: Store, e: Expr) -> bool
    decreases e.id, 1int, 0int,
{
    if (mode matches RewriteMode::Substitute(o, _) && e == o) {
        true
    } else {
        match store.node_of(e) {
            Node::Var(_, _) => true,
            Node::ScalarVar(_, _) => mode is Project,
            Node::Exp(_, a) => a.id < e.id ==> rewrite_ok(mode, store, a),
            Node::Log(_, a) => a.id < e.id ==> rewrite_ok(mode, store, a),
            Node::Add(_, m) => rewrite_ok_list(mode, store, m@, e.id as int),
            Node::Mul(_, m) => rewrite_ok_list(mode, store, m@, e.id as int),
            _ => false,
        }
    }
}

/// Whether the rewrite is defined on every key of an entry list.
pub open spec fn rewrite_ok_list(
    mode: RewriteMode,
    store: Store,
    s: Seq<(Expr, i64)>,
    bound: int,
) -> bool
    decreases bound, 0int, s.len(),
{
    if s.len() == 0 {
        true
    } else {
        &&& rewrite_ok_list(mode, store, s.drop_last(), bound)
        &&& (s.last().0.id < bound ==> rewrite_ok(mode, store, s.last().0))
    }
}

/// What the rewrite returns: the mode's leaf images, with `Exp`/`Log`
/// rewrapped around rewritten operands and every sum/product rebuilt from its
/// rewritten keys through the canonicalizing constructor.
pub open spec fn rewrite_rel(mode: RewriteMode, pre: Store, post: Store, e: Expr, x: Expr) -> bool
    decreases e.id, 1int, 0int,
{
    if (mode matches RewriteMode::Substitute(o, _) && e == o) {
        match mode {
            RewriteMode::Substitute(_, n) => x == n,
            _ => false,
        }
    } else {
        post.valid(x) && match pre.node_of(e) {
            Node::Var(_, s) => match mode {
                RewriteMode::Embed => crate::algebra::is_scalar_var_node(
                    post.node_of(x),
                    Domain::RealSpaceScalar,
                    s@,
                ),
                RewriteMode::Project => crate::algebra::is_var_node(
                    post.node_of(x),
                    Domain::Scalar,
                    s@ + "[i]"@,
                ),
                RewriteMode::Substitute(_, _) => x == e,
            },
            Node::ScalarVar(_, s) => mode is Project && crate::algebra::is_var_node(
                post.node_of(x),
                Domain::Scalar,
                s@,
            ),
            Node::Exp(_, a) => a.id < e.id && exists|y: Expr|
                #[trigger] is_exp_node(post.node_of(x), rw_dom(mode), y) && rewrite_rel(
                    mode,
                    pre,
                    post,
                    a,
                    y,
                ),
            Node::Log(_, a) => a.id < e.id && exists|y: Expr|
                #[trigger] is_log_node(post.node_of(x), rw_dom(mode), y) && rewrite_rel(
                    mode,
                    pre,
                    post,
                    a,
                    y,
                ),
            Node::Add(_, m) => exists|ps: Seq<(Expr, i64)>|
                #[trigger] canon_pairs(post, OpKind::Sum, rw_dom(mode), ps, x) && rewrite_pairs(
                    mode,
                    pre,
                    post,
                    m@,
                    ps,
                    e.id as int,
                ),
            Node::Mul(_, m) => exists|ps: Seq<(Expr, i64)>|
                #[trigger] canon_pairs(post, OpKind::Prod, rw_dom(mode), ps, x) && rewrite_pairs(
                    mode,
                    pre,
                    post,
                    m@,
                    ps,
                    e.id as int,
                ),
            _ => false,
        }
    }
}

/// The rewritten image of an entry list: same length, same coefficients,
/// each key related to its image.
pub open spec fn rewrite_pairs(
    mode: RewriteMode,
    pre: Store,
    post: Store,
    s: Seq<(Expr, i64)>,
    ps: Seq<(Expr, i64)>,
    bound: int,
) -> bool
    decreases bound, 0int, 0int,
{
    &&& ps.len() == s.len()
    &&& forall|j: int|
        0 <= j < s.len() ==> (#[trigger] s[j].0).id < bound && ps[j].1 == s[j].1
    &&& forall|j: int|
        0 <= j < s.len() ==> ((#[trigger] s[j].0).id < bound ==> rewrite_rel(
            mode,
            pre,
            post,
            s[j].0,
            ps[j].0,
        ))
}

/// A store extension preserves the canonical-rebuild relation.
proof fn lemma_canon_pairs_grow(
    p1: Store,
    p2: Store,
    kind: OpKind,
    d: Domain,
    ps: Seq<(Expr, i64)>,
    x: Expr,
)
    requires
        canon_pairs(p1, kind, d, ps, x),
        p2.extends(p1),
        p1.valid(x),
    ensures
        canon_pairs(p2, kind, d, ps, x),
{
    let s2 = choose|s2: Seq<(Expr, i64)>|
        {
            &&& #[trigger] crate::abelian::entries_wf(s2)
            &&& forall|q: Expr| map_coeff(s2, q) == pairs_coeff(ps, q)
            &&& if s2.len() == 1 && s2[0].1 == 1 {
                x == s2[0].0
            } else {
                node_is_op(p1.node_of(x), kind, d, s2)
            }
        };
    assert(p2.node_of(x) == p1.node_of(x));
}

/// A store extension preserves the rewrite relation.
proof fn lemma_rewrite_rel_grow(mode: RewriteMode, pre: Store, p1: Store, p2: Store, e: Expr, x: Expr)
    requires
        rewrite_rel(mode, pre, p1, e, x),
        p2.extends(p1),
    ensures
        rewrite_rel(mode, pre, p2, e, x),
    decreases e.id, 1int,
{
    if (mode matches RewriteMode::Substitute(o, _) && e == o) {
    } else {
        assert(p2.node_of(x) == p1.node_of(x));
        match pre.node_of(e) {
            Node::Exp(_, a) => {
                let y = choose|y: Expr|
                    #[trigger] is_exp_node(p1.node_of(x), rw_dom(mode), y) && rewrite_rel(
                        mode,
                        pre,
                        p1,
                        a,
                        y,
                    );
                lemma_rewrite_rel_grow(mode, pre, p1, p2, a, y);
                assert(is_exp_node(p2.node_of(x), rw_dom(mode), y) && rewrite_rel(
                    mode,
                    pre,
                    p2,
                    a,
                    y,
                ));
            },
            Node::Log(_, a) => {
                let y = choose|y: Expr|
                    #[trigger] is_log_node(p1.node_of(x), rw_dom(mode), y) && rewrite_rel(
                        mode,
                        pre,
                        p1,
                        a,
                        y,
                    );
                lemma_rewrite_rel_grow(mode, pre, p1, p2, a, y);
                assert(is_log_node(p2.node_of(x), rw_dom(mode), y) && rewrite_rel(
                    mode,
                    pre,
                    p2,
                    a,
                    y,
                ));
            },
            Node::Add(_, m) => {
                let ps = choose|ps: Seq<(Expr, i64)>|
                    #[trigger] canon_pairs(p1, OpKind::Sum, rw_dom(mode), ps, x) && rewrite_pairs(
                        mode,
                        pre,
                        p1,
                        m@,
                        ps,
                        e.id as int,
                    );
                lemma_canon_pairs_grow(p1, p2, OpKind::Sum, rw_dom(mode), ps, x);
                lemma_rewrite_pairs_grow(mode, pre, p1, p2, m@, ps, e.id as int);
                assert(canon_pairs(p2, OpKind::Sum, rw_dom(mode), ps, x) && rewrite_pairs(
                    mode,
                    pre,
                    p2,
                    m@,
                    ps,
                    e.id as int,
                ));
            },
            Node::Mul(_, m) => {
                let ps = choose|ps: Seq<(Expr, i64)>|
                    #[trigger] canon_pairs(p1, OpKind::Prod, rw_dom(mode), ps, x) && rewrite_pairs(
                        mode,
                        pre,
                        p1,
                        m@,
                        ps,
                        e.id as int,
                    );
                lemma_canon_pairs_grow(p1, p2, OpKind::Prod, rw_dom(mode), ps, x);
                lemma_rewrite_pairs_grow(mode, pre, p1, p2, m@, ps, e.id as int);
                assert(canon_pairs(p2, OpKind::Prod, rw_dom(mode), ps, x) && rewrite_pairs(
                    mode,
                    pre,
                    p2,
                    m@,
                    ps,
                    e.id as int,
                ));
            },
            _ => {},
        }
    }
}

/// A store extension preserves the pairwise rewrite relation.
proof fn lemma_rewrite_pairs_grow(
    mode: RewriteMode,
    pre: Store,
    p1: Store,
    p2: Store,
    s: Seq<(Expr, i64)>,
    ps: Seq<(Expr, i64)>,
    bound: int,
)
    requires
        rewrite_pairs(mode, pre, p1, s, ps, bound),
        p2.extends(p1),
    ensures
        rewrite_pairs(mode, pre, p2, s, ps, bound),
    decreases bound, 0int,
{
    assert forall|j: int|
        0 <= j < s.len() implies ((#[trigger] s[j].0).id < bound ==> rewrite_rel(
        mode,
        pre,
        p2,
        s[j].0,
        ps[j].0,
    )) by {
        if s[j].0.id < bound {
            lemma_rewrite_rel_grow(mode, pre, p1, p2, s[j].0, ps[j].0);
        }
    }
}

/// The rewrite relation reads only the subtree of `e` in its base store, so
/// it can be restated over any earlier store holding the same subtree.
proof fn lemma_rewrite_rel_base(mode: RewriteMode, pre: Store, mid: Store, post: Store, e: Expr, x: Expr)
    requires
        mid.extends(pre),
        pre.valid(e),
        rewrite_rel(mode, mid, post, e, x),
    ensures
        rewrite_rel(mode, pre, post, e, x),
    decreases e.id, 1int,
{
    if (mode matches RewriteMode::Substitute(o, _) && e == o) {
    } else {
        assert(mid.node_of(e) == pre.node_of(e));
        match pre.node_of(e) {
            Node::Exp(_, a) => {
                let y = choose|y: Expr|
                    #[trigger] is_exp_node(post.node_of(x), rw_dom(mode), y) && rewrite_rel(
                        mode,
                        mid,
                        post,
                        a,
                        y,
                    );
                lemma_rewrite_rel_base(mode, pre, mid, post, a, y);
                assert(is_exp_node(post.node_of(x), rw_dom(mode), y) && rewrite_rel(
                    mode,
                    pre,
                    post,
                    a,
                    y,
                ));
            },
            Node::Log(_, a) => {
                let y = choose|y: Expr|
                    #[trigger] is_log_node(post.node_of(x), rw_dom(mode), y) && rewrite_rel(
                        mode,
                        mid,
                        post,
                        a,
                        y,
                    );
                lemma_rewrite_rel_base(mode, pre, mid, post, a, y);
                assert(is_log_node(post.node_of(x), rw_dom(mode), y) && rewrite_rel(
                    mode,
                    pre,
                    post,
                    a,
                    y,
                ));
            },
            Node::Add(_, m) => {
                let ps = choose|ps: Seq<(Expr, i64)>|
                    #[trigger] canon_pairs(post, OpKind::Sum, rw_dom(mode), ps, x) && rewrite_pairs(
                        mode,
                        mid,
                        post,
                        m@,
                        ps,
                        e.id as int,
                    );
                lemma_rewrite_pairs_base(mode, pre, mid, post, m@, ps, e.id as int);
                assert(canon_pairs(post, OpKind::Sum, rw_dom(mode), ps, x) && rewrite_pairs(
                    mode,
                    pre,
                    post,
                    m@,
                    ps,
                    e.id as int,
                ));
            },
            Node::Mul(_, m) => {
                let ps = choose|ps: Seq<(Expr, i64)>|
                    #[trigger] canon_pairs(post, OpKind::Prod, rw_dom(mode), ps, x)
                        && rewrite_pairs(mode, mid, post, m@, ps, e.id as int);
                lemma_rewrite_pairs_base(mode, pre, mid, post, m@, ps, e.id as int);
                assert(canon_pairs(post, OpKind::Prod, rw_dom(mode), ps, x) && rewrite_pairs(
                    mode,
                    pre,
                    post,
                    m@,
                    ps,
                    e.id as int,
                ));
            },
            _ => {},
        }
    }
}

proof fn lemma_rewrite_pairs_base(
    mode: RewriteMode,
    pre: Store,
    mid: Store,
    post: Store,
    s: Seq<(Expr, i64)>,
    ps: Seq<(Expr, i64)>,
    bound: int,
)
    requires
        mid.extends(pre),
        bound <= pre.nodes@.len(),
        rewrite_pairs(mode, mid, post, s, ps, bound),
    ensures
        rewrite_pairs(mode, pre, post, s, ps, bound),
    decreases bound, 0int,
{
    assert forall|j: int|
        0 <= j < s.len() implies ((#[trigger] s[j].0).id < bound ==> rewrite_rel(
        mode,
        pre,
        post,
        s[j].0,
        ps[j].0,
    )) by {
        if s[j].0.id < bound {
            lemma_rewrite_rel_base(mode, pre, mid, post, s[j].0, ps[j].0);
        }
    }
}

/// Every sum/product map in the subtree of `e` keeps its total of absolute
/// coefficients within the machine bound, so a rewrite can re-accumulate it.
pub open spec fn maps_bounded(store: Store, e: Expr) -> bool
    decreases e.id, 1int, 0int,
{
    match store.node_of(e) {
        Node::Exp(_, a) => a.id < e.id ==> maps_bounded(store, a),
        Node::Log(_, a) => a.id < e.id ==> maps_bounded(store, a),
        Node::Integrate(_, a) => a.id < e.id ==> maps_bounded(store, a),
        Node::Ifft(a) => a.id < e.id ==> maps_bounded(store, a),
        Node::Fft(a) => a.id < e.id ==> maps_bounded(store, a),
        Node::Add(_, m) => abs_val_sum(m@) <= i64::MAX && maps_bounded_list(
            store,
            m@,
            e.id as int,
        ),
        Node::Mul(_, m) => abs_val_sum(m@) <= i64::MAX && maps_bounded_list(
            store,
            m@,
            e.id as int,
        ),
        _ => true,
    }
}

/// The bound, over every key of an entry list.
pub open spec fn maps_bounded_list(store: Store, s: Seq<(Expr, i64)>, bound: int) -> bool
    decreases bound, 0int, s.len(),
{
    if s.len() == 0 {
        true
    } else {
        &&& maps_bounded_list(store, s.drop_last(), bound)
        &&& (s.last().0.id < bound ==> maps_bounded(store, s.last().0))
    }
}

/// Each key of a list predicate inherits the list's verdict.
proof fn lemma_bounded_list_key(store: Store, s: Seq<(Expr, i64)>, bound: int, j: int)
    requires
        maps_bounded_list(store, s, bound),
        0 <= j < s.len(),
        s[j].0.id < bound,
    ensures
        maps_bounded(store, s[j].0),
    decreases s.len(),
{
    if j == s.len() - 1 {
    } else {
        assert(s.drop_last()[j] == s[j]);
        lemma_bounded_list_key(store, s.drop_last(), bound, j);
    }
}

proof fn lemma_rewrite_ok_list_key(
    mode: RewriteMode,
    store: Store,
    s: Seq<(Expr, i64)>,
    bound: int,
    j: int,
)
    requires
        rewrite_ok_list(mode, store, s, bound),
        0 <= j < s.len(),
        s[j].0.id < bound,
    ensures
        rewrite_ok(mode, store, s[j].0),
    decreases s.len(),
{
    if j == s.len() - 1 {
    } else {
        assert(s.drop_last()[j] == s[j]);
        lemma_rewrite_ok_list_key(mode, store, s.drop_last(), bound, j);
    }
}

/// `maps_bounded` and `rewrite_ok` read only the nodes of the subtree, so a
/// store extension preserves them.
proof fn lemma_bounded_grow(p1: Store, p2: Store, e: Expr)
    requires
        maps_bounded(p1, e),
        p1.valid(e),
        p2.extends(p1),
    ensures
        maps_bounded(p2, e),
    decreases e.id, 1int,
{
    assert(p2.node_of(e) == p1.node_of(e));
    match p1.node_of(e) {
        Node::Exp(_, a) => {
            if a.id < e.id {
                lemma_bounded_grow(p1, p2, a);
            }
        },
        Node::Log(_, a) => {
            if a.id < e.id {
                lemma_bounded_grow(p1, p2, a);
            }
        },
        Node::Integrate(_, a) => {
            if a.id < e.id {
                lemma_bounded_grow(p1, p2, a);
            }
        },
        Node::Ifft(a) => {
            if a.id < e.id {
                lemma_bounded_grow(p1, p2, a);
            }
        },
        Node::Fft(a) => {
            if a.id < e.id {
                lemma_bounded_grow(p1, p2, a);
            }
        },
        Node::Add(_, m) => {
            lemma_bounded_list_grow(p1, p2, m@, e.id as int);
        },
        Node::Mul(_, m) => {
            lemma_bounded_list_grow(p1, p2, m@, e.id as int);
        },
        _ => {},
    }
}

proof fn lemma_bounded_list_grow(p1: Store, p2: Store, s: Seq<(Expr, i64)>, bound: int)
    requires
        maps_bounded_list(p1, s, bound),
        bound <= p1.nodes@.len(),
        p2.extends(p1),
    ensures
        maps_bounded_list(p2, s, bound),
    decreases bound, 0int, s.len(),
{
    if s.len() > 0 {
        lemma_bounded_list_grow(p1, p2, s.drop_last(), bound);
        if s.last().0.id < bound {
            lemma_bounded_grow(p1, p2, s.last().0);
        }
    }
}

proof fn lemma_rewrite_ok_grow(mode: RewriteMode, p1: Store, p2: Store, e: Expr)
    requires
        rewrite_ok(mode, p1, e),
        p1.valid(e),
        p2.extends(p1),
    ensures
        rewrite_ok(mode, p2, e),
    decreases e.id, 1int,
{
    assert(p2.node_of(e) == p1.node_of(e));
    if (mode matches RewriteMode::Substitute(o, _) && e == o) {
    } else {
        match p1.node_of(e) {
            Node::Exp(_, a) => {
                if a.id < e.id {
                    lemma_rewrite_ok_grow(mode, p1, p2, a);
                }
            },
            Node::Log(_, a) => {
                if a.id < e.id {
                    lemma_rewrite_ok_grow(mode, p1, p2, a);
                }
            },
            Node::Add(_, m) => {
                lemma_rewrite_ok_list_grow(mode, p1, p2, m@, e.id as int);
            },
            Node::Mul(_, m) => {
                lemma_rewrite_ok_list_grow(mode, p1, p2, m@, e.id as int);
            },
            _ => {},
        }
    }
}

proof fn lemma_rewrite_ok_list_grow(
    mode: RewriteMode,
    p1: Store,
    p2: Store,
    s: Seq<(Expr, i64)>,
    bound: int,
)
    requires
        rewrite_ok_list(mode, p1, s, bound),
        bound <= p1.nodes@.len(),
        p2.extends(p1),
    ensures
        rewrite_ok_list(mode, p2, s, bound),
    decreases bound, 0int, s.len(),
{
    if s.len() > 0 {
        lemma_rewrite_ok_list_grow(mode, p1, p2, s.drop_last(), bound);
        if s.last().0.id < bound {
            lemma_rewrite_ok_grow(mode, p1, p2, s.last().0);
        }
    }
}

/// The source-domain condition of a rewrite: embedding reads scalars,
/// projection reads fields, substitution reads scalars and replaces by a
/// scalar.
pub open spec fn rw_src_ok(mode: RewriteMode, store: Store, e: Expr) -> bool {
    match mode {
        RewriteMode::Embed => store.dom_of(e) == Domain::Scalar,
        RewriteMode::Project => store.dom_of(e) != Domain::Scalar,
        RewriteMode::Substitute(_, n) => store.dom_of(e) == Domain::Scalar && store.valid(n)
            && store.dom_of(n) == Domain::Scalar,
    }
}

/// A sum/product node whose coefficients can be re-accumulated in machine
/// arithmetic.
pub open spec fn node_abs_ok(n: Node) -> bool {
    match n {
        Node::Add(_, m) => abs_val_sum(m@) <= i64::MAX,
        Node::Mul(_, m) => abs_val_sum(m@) <= i64::MAX,
        _ => true,
    }
}

/// The domain a rewrite lands in.
fn mode_dom(mode: RewriteMode) -> (d: Domain)
    ensures
        d == rw_dom(mode),
{
    match mode {
        RewriteMode::Embed => Domain::RealSpaceScalar,
        RewriteMode::Project => Domain::Scalar,
        RewriteMode::Substitute(_, _) => Domain::Scalar,
    }
}

impl Store {
    /// Decide whether a rewrite is defined on `e`.
    pub fn rewrite_allowed(&self, mode: RewriteMode, e: Expr) -> (r: bool)
        requires
            self.inv(),
            self.valid(e),
        ensures
            r == rewrite_ok(mode, *self, e),
        decreases e.id, 1int,
    {
        proof {
            assert(node_wf_at(self.nodes@, self.nodes@[e.id as int], e.id as int));
        }
        if let RewriteMode::Substitute(o, _) = mode {
            if e.id == o.id {
                proof {
                    assert(e == o);
                }
                return true;
            }
        }
        match self.node(e) {
            Node::Var(_, _) => true,
            Node::ScalarVar(_, _) => match mode {
                RewriteMode::Project => true,
                _ => false,
            },
            Node::Exp(_, a) => self.rewrite_allowed(mode, *a),
            Node::Log(_, a) => self.rewrite_allowed(mode, *a),
            Node::Add(_, m) => self.rewrite_allowed_entries(mode, e, m.as_entries()),
            Node::Mul(_, m) => self.rewrite_allowed_entries(mode, e, m.as_entries()),
            _ => false,
        }
    }

    /// Decide the rewrite on every key of `e`'s own entry list.
    #[verifier::loop_isolation(false)]
    fn rewrite_allowed_entries(
        &self,
        mode: RewriteMode,
        e: Expr,
        entries: &Vec<(Expr, i64)>,
    ) -> (r: bool)
        requires
            self.inv(),
            self.valid(e),
            forall|j: int|
                0 <= j < entries@.len() ==> (#[trigger] entries@[j].0).id < e.id && self.valid(
                    entries@[j].0,
                ),
        ensures
            r == rewrite_ok_list(mode, *self, entries@, e.id as int),
        decreases e.id, 0int,
    {
        let n = entries.len();
        let mut i: usize = 0;
        let mut ok = true;
        while i < n
            invariant
                i <= n,
                n == entries@.len(),
                ok == rewrite_ok_list(mode, *self, entries@.take(i as int), e.id as int),
            decreases n - i,
        {
            proof {
                assert(entries@.take(i + 1).drop_last() =~= entries@.take(i as int));
                assert(entries@.take(i + 1).last() == entries@[i as int]);
            }
            if ok {
                if !self.rewrite_allowed(mode, entries[i].0) {
                    ok = false;
                }
            } else {
                proof {
                    assert(!rewrite_ok_list(mode, *self, entries@.take(i + 1), e.id as int));
                }
            }
            i = i + 1;
        }
        proof {
            assert(entries@.take(n as int) =~= entries@);
        }
        ok
    }

    /// Rebuild a sum or product from rewritten key/coefficient pairs through
    /// the canonicalizing constructor: keys rewritten to one expression merge
    /// their coefficients, cancelled keys vanish, a bare singleton collapses.
    fn rebuild_op(&mut self, kind: OpKind, d: Domain, pairs: &Vec<(Expr, i64)>) -> (x: Expr)
        requires
            old(self).inv(),
            abs_val_sum(pairs@) <= i64::MAX,
            forall|j: int|
                0 <= j < pairs@.len() ==> old(self).valid(#[trigger] pairs@[j].0) && old(
                    self,
                ).dom_of(pairs@[j].0) == d,
        ensures
            final(self).inv(),
            final(self).extends(*old(self)),
            final(self).valid(x),
            final(self).dom_of(x) == d,
            canon_pairs(*final(self), kind, d, pairs@, x),
    {
        let m = crate::abelian::map_from_pairs(pairs);
        proof {
            assert forall|t: int|
                0 <= t < m@.len() implies self.valid(#[trigger] m@[t].0) && self.dom_of(m@[t].0)
                == d by {
                crate::abelian::lemma_coeff_key_index(m@, t);
                let k = m@[t].0;
                assert(m.coeff(k) == pairs_coeff(pairs@, k));
                assert(map_coeff(m@, k) != 0);
                assert(pairs_coeff(pairs@, k) != 0);
                crate::abelian::lemma_pairs_support(pairs@, k);
            }
            assert(crate::abelian::entries_wf(m@));
            assert forall|q: Expr| map_coeff(m@, q) == pairs_coeff(pairs@, q) by {
                assert(m.coeff(q) == pairs_coeff(pairs@, q));
            }
        }
        let ghost s2 = m@;
        let x = self.from_map(kind, d, m);
        proof {
            assert(crate::abelian::entries_wf(s2));
            assert(forall|q: Expr| map_coeff(s2, q) == pairs_coeff(pairs@, q));
        }
        x
    }

    /// The rewrite engine: rebuild `e` bottom-up, replacing each leaf by the
    /// mode's image and re-establishing canonical form at every sum and
    /// product.
    fn rewrite(&mut self, mode: RewriteMode, e: Expr) -> (x: Expr)
        requires
            old(self).inv(),
            old(self).valid(e),
            rewrite_ok(mode, *old(self), e),
            maps_bounded(*old(self), e),
            rw_src_ok(mode, *old(self), e),
        ensures
            final(self).inv(),
            final(self).extends(*old(self)),
            final(self).valid(x),
            final(self).dom_of(x) == rw_dom(mode),
            rewrite_rel(mode, *old(self), *final(self), e, x),
        decreases e.id, 1int,
    {
        proof {
            assert(node_wf_at(self.nodes@, self.nodes@[e.id as int], e.id as int));
        }
        if let RewriteMode::Substitute(o, n) = mode {
            if e.id == o.id {
                proof {
                    assert(e == o);
                }
                return n;
            }
        }
        let ghost pre = *old(self);
        let nd = self.owned_node(e);
        match nd {
            Node::Var(_, s) => {
                match mode {
                    RewriteMode::Embed => {
                        let x = self.intern(Node::ScalarVar(Domain::RealSpaceScalar, s));
                        x
                    },
                    RewriteMode::Project => {
                        let mut nm = s;
                        nm.append("[i]");
                        let x = self.intern(Node::Var(Domain::Scalar, nm));
                        x
                    },
                    RewriteMode::Substitute(_, _) => e,
                }
            },
            Node::ScalarVar(_, s) => {
                match mode {
                    RewriteMode::Project => {
                        let x = self.intern(Node::Var(Domain::Scalar, s));
                        x
                    },
                    _ => {
                        proof {
                            assert(false);
                        }
                        e
                    },
                }
            },
            Node::Exp(_, a) => {
                let y = self.rewrite(mode, a);
                let ghost mid = *self;
                let d = mode_dom(mode);
                let x = self.intern(Node::Exp(d, y));
                proof {
                    lemma_rewrite_rel_grow(mode, pre, mid, *self, a, y);
                    assert(is_exp_node(self.node_of(x), rw_dom(mode), y));
                }
                x
            },
            Node::Log(_, a) => {
                let y = self.rewrite(mode, a);
                let ghost mid = *self;
                let d = mode_dom(mode);
                let x = self.intern(Node::Log(d, y));
                proof {
                    lemma_rewrite_rel_grow(mode, pre, mid, *self, a, y);
                    assert(is_log_node(self.node_of(x), rw_dom(mode), y));
                }
                x
            },
            Node::Add(_, m) => {
                let x = self.rewrite_map(mode, e, OpKind::Sum, m);
                x
            },
            Node::Mul(_, m) => {
                let x = self.rewrite_map(mode, e, OpKind::Prod, m);
                x
            },
            _ => {
                proof {
                    assert(false);
                }
                e
            },
        }
    }

    /// Rewrite every key of a sum/product map and rebuild it canonically.
    #[verifier::loop_isolation(false)]
    fn rewrite_map(&mut self, mode: RewriteMode, e: Expr, kind: OpKind, m: AbelianMap) -> (x: Expr)
        requires
            old(self).inv(),
            old(self).valid(e),
            crate::algebra::is_op_node(old(self).node_of(e), kind),
            m@ == op_map(old(self).node_of(e)),
            rewrite_ok_list(mode, *old(self), m@, e.id as int),
            abs_val_sum(m@) <= i64::MAX,
            maps_bounded_list(*old(self), m@, e.id as int),
            rw_src_ok(mode, *old(self), e),
        ensures
            final(self).inv(),
            final(self).extends(*old(self)),
            final(self).valid(x),
            final(self).dom_of(x) == rw_dom(mode),
            exists|ps: Seq<(Expr, i64)>|
                #[trigger] canon_pairs(*final(self), kind, rw_dom(mode), ps, x) && rewrite_pairs(
                    mode,
                    *old(self),
                    *final(self),
                    m@,
                    ps,
                    e.id as int,
                ),
        decreases e.id, 0int,
    {
        proof {
            assert(node_wf_at(self.nodes@, self.nodes@[e.id as int], e.id as int));
        }
        let ghost pre = *old(self);
        let ents = m.as_entries();
        let n = ents.len();
        let mut pairs: Vec<(Expr, i64)> = Vec::new();
        let mut i: usize = 0;
        while i < n
            invariant
                i <= n,
                n == m@.len(),
                ents@ == m@,
                self.inv(),
                self.extends(pre),
                pairs@.len() == i,
                forall|t: int| 0 <= t < i ==> pairs@[t].1 == m@[t].1,
                forall|t: int|
                    0 <= t < i ==> self.valid(#[trigger] pairs@[t].0) && self.dom_of(pairs@[t].0)
                        == rw_dom(mode) && rewrite_rel(mode, pre, *self, m@[t].0, pairs@[t].0),
            decreases n - i,
        {
            let k = ents[i].0;
            let v = ents[i].1;
            proof {
                lemma_rewrite_ok_list_key(mode, pre, m@, e.id as int, i as int);
                lemma_bounded_list_key(pre, m@, e.id as int, i as int);
                lemma_rewrite_ok_grow(mode, pre, *self, k);
                lemma_bounded_grow(pre, *self, k);
            }
            let ghost mid = *self;
            let y = self.rewrite(mode, k);
            proof {
                lemma_rewrite_rel_base(mode, pre, mid, *self, k, y);
                assert forall|t: int|
                    0 <= t < i implies self.valid(#[trigger] pairs@[t].0) && self.dom_of(
                    pairs@[t].0,
                ) == rw_dom(mode) && rewrite_rel(mode, pre, *self, m@[t].0, pairs@[t].0) by {
                    lemma_rewrite_rel_grow(mode, pre, mid, *self, m@[t].0, pairs@[t].0);
                }
            }
            pairs.push((y, v));
            proof {
                assert(pairs@[i as int] == (y, v));
                assert(m@[i as int].0 == k);
                assert(rewrite_rel(mode, pre, *self, m@[i as int].0, pairs@[i as int].0));
            }
            i = i + 1;
        }
        proof {
            crate::abelian::lemma_abs_same_vals(pairs@, m@);
        }
        let ghost loop_end = *self;
        let d = mode_dom(mode);
        let x = self.rebuild_op(kind, d, &pairs);
        proof {
            assert forall|t: int|
                0 <= t < n implies rewrite_rel(
                mode,
                pre,
                *self,
                m@[t].0,
                #[trigger] pairs@[t].0,
            ) by {
                lemma_rewrite_rel_grow(mode, pre, loop_end, *self, m@[t].0, pairs@[t].0);
            }
            assert(rewrite_pairs(mode, pre, *self, m@, pairs@, e.id as int));
            assert(canon_pairs(*self, kind, rw_dom(mode), pairs@, x));
        }
        x
    }

    /// Convert a scalar expression into a real-space field: variables become
    /// broadcast scalars, sums and products are rebuilt through the
    /// canonicalizing constructors.  Fails exactly when an integral is
    /// reachable — integration has no embedding.
    pub fn to_real_space(&mut self, e: Expr) -> (r: Result<Expr, ExprError>)
        requires
            old(self).inv(),
            old(self).valid(e),
            old(self).dom_of(e) == Domain::Scalar,
            maps_bounded(*old(self), e),
        ensures
            final(self).inv(),
            final(self).extends(*old(self)),
            r is Ok <==> rewrite_ok(RewriteMode::Embed, *old(self), e),
            r is Err ==> r == Err::<Expr, ExprError>(ExprError::UnsupportedConversion),
            r matches Ok(x) ==> final(self).valid(x) && final(self).dom_of(x)
                == Domain::RealSpaceScalar && rewrite_rel(
                RewriteMode::Embed,
                *old(self),
                *final(self),
                e,
                x,
            ),
    {
        if !self.rewrite_allowed(RewriteMode::Embed, e) {
            Err(ExprError::UnsupportedConversion)
        } else {
            Ok(self.rewrite(RewriteMode::Embed, e))
        }
    }

    /// Project a field expression onto the scalar it computes at one grid
    /// point: array variables become indexed scalars, broadcast scalars pass
    /// through.  Fails exactly when a transform node is reachable — a
    /// transform has no per-point reading.
    pub fn fake_scalar(&mut self, e: Expr) -> (r: Result<Expr, ExprError>)
        requires
            old(self).inv(),
            old(self).valid(e),
            old(self).dom_of(e) != Domain::Scalar,
            maps_bounded(*old(self), e),
        ensures
            final(self).inv(),
            final(self).extends(*old(self)),
            r is Ok <==> rewrite_ok(RewriteMode::Project, *old(self), e),
            r is Err ==> r == Err::<Expr, ExprError>(ExprError::IllegalProjection),
            r matches Ok(x) ==> final(self).valid(x) && final(self).dom_of(x) == Domain::Scalar
                && rewrite_rel(RewriteMode::Project, *old(self), *final(self), e, x),
    {
        if !self.rewrite_allowed(RewriteMode::Project, e) {
            Err(ExprError::IllegalProjection)
        } else {
            Ok(self.rewrite(RewriteMode::Project, e))
        }
    }

    /// Replace every occurrence of `o` in `e` by `n`, rebuilding through the
    /// canonicalizing constructors.  Substitution is defined only in the
    /// scalar domain; in the field domains, and below an integral boundary,
    /// it is an unimplemented operation by design.
    pub fn substitute(&mut self, e: Expr, o: Expr, n: Expr) -> (r: Result<Expr, ExprError>)
        requires
            old(self).inv(),
            old(self).valid(e),
            old(self).valid(o),
            old(self).valid(n),
            old(self).dom_of(e) == Domain::Scalar ==> old(self).dom_of(n) == Domain::Scalar,
            maps_bounded(*old(self), e),
        ensures
            final(self).inv(),
            final(self).extends(*old(self)),
            old(self).dom_of(e) != Domain::Scalar ==> r == Err::<Expr, ExprError>(
                ExprError::UnimplementedOperation,
            ),
            old(self).dom_of(e) == Domain::Scalar ==> (r is Ok <==> rewrite_ok(
                RewriteMode::Substitute(o, n),
                *old(self),
                e,
            )),
            r is Err ==> r == Err::<Expr, ExprError>(ExprError::UnimplementedOperation),
            r matches Ok(x) ==> final(self).valid(x) && final(self).dom_of(x) == Domain::Scalar
                && rewrite_rel(RewriteMode::Substitute(o, n), *old(self), *final(self), e, x),
    {
        let d = self.domain(e);
        match d {
            Domain::Scalar => {
                let mode = RewriteMode::Substitute(o, n);
                if !self.rewrite_allowed(mode, e) {
                    Err(ExprError::UnimplementedOperation)
                } else {
                    Ok(self.rewrite(mode, e))
                }
            },
            _ => Err(ExprError::UnimplementedOperation),
        }
    }

    /// Apply `f` to every position classified as a leaf for this traversal —
    /// named variables and domain-transition nodes, and, one level down, the
    /// immediate operand of `Exp`/`Log` and every sum/product key — then
    /// rebuild through the canonicalizing constructor, so that two distinct
    /// leaves rewritten to one identical replacement merge into a single map
    /// entry with their coefficients added.
    #[verifier::loop_isolation(false)]
    pub fn map_leaves<F: Fn(Expr) -> Expr>(&mut self, e: Expr, f: F) -> (r: Expr)
        requires
            old(self).inv(),
            old(self).valid(e),
            forall|x: Expr|
                old(self).valid(x) && old(self).dom_of(x) == old(self).dom_of(e)
                    ==> #[trigger] call_requires(f, (x,)),
            forall|x: Expr, y: Expr|
                #[trigger] call_ensures(f, (x,), y) ==> old(self).valid(y) && old(self).dom_of(y)
                    == old(self).dom_of(x),
            node_abs_ok(old(self).node_of(e)),
        ensures
            final(self).inv(),
            final(self).extends(*old(self)),
            final(self).valid(r),
            final(self).dom_of(r) == old(self).dom_of(e),
            old(self).node_of(e) matches Node::Var(_, _) ==> call_ensures(f, (e,), r),
            old(self).node_of(e) matches Node::ScalarVar(_, _) ==> call_ensures(f, (e,), r),
            old(self).node_of(e) matches Node::Integrate(_, _) ==> call_ensures(f, (e,), r),
            old(self).node_of(e) matches Node::Ifft(_) ==> call_ensures(f, (e,), r),
            old(self).node_of(e) matches Node::Fft(_) ==> call_ensures(f, (e,), r),
            old(self).node_of(e) matches Node::Exp(d, a) ==> exists|y: Expr|
                #[trigger] call_ensures(f, (a,), y) && is_exp_node(final(self).node_of(r), d, y),
            old(self).node_of(e) matches Node::Log(d, a) ==> exists|y: Expr|
                #[trigger] call_ensures(f, (a,), y) && is_log_node(final(self).node_of(r), d, y),
            old(self).node_of(e) matches Node::Add(d, m) ==> exists|ps: Seq<(Expr, i64)>|
                #[trigger] canon_pairs(*final(self), OpKind::Sum, d, ps, r) && ps.len()
                    == m@.len() && (forall|j: int|
                    0 <= j < m@.len() ==> call_ensures(f, ((#[trigger] m@[j].0),), ps[j].0)
                        && ps[j].1 == m@[j].1),
            old(self).node_of(e) matches Node::Mul(d, m) ==> exists|ps: Seq<(Expr, i64)>|
                #[trigger] canon_pairs(*final(self), OpKind::Prod, d, ps, r) && ps.len()
                    == m@.len() && (forall|j: int|
                    0 <= j < m@.len() ==> call_ensures(f, ((#[trigger] m@[j].0),), ps[j].0)
                        && ps[j].1 == m@[j].1),
    {
        proof {
            assert(node_wf_at(self.nodes@, self.nodes@[e.id as int], e.id as int));
        }
        let d = self.domain(e);
        let nd = self.owned_node(e);
        match nd {
            Node::Exp(_, a) => {
                let y = f(a);
                let x = self.intern(Node::Exp(d, y));
                proof {
                    assert(is_exp_node(self.node_of(x), d, y));
                }
                x
            },
            Node::Log(_, a) => {
                let y = f(a);
                let x = self.intern(Node::Log(d, y));
                proof {
                    assert(is_log_node(self.node_of(x), d, y));
                }
                x
            },
            Node::Add(_, m) => {
                let x = self.map_leaf_entries(e, OpKind::Sum, m, f);
                x
            },
            Node::Mul(_, m) => {
                let x = self.map_leaf_entries(e, OpKind::Prod, m, f);
                x
            },
            _ => {
                let y = f(e);
                y
            },
        }
    }

    /// Apply `f` to every key of a sum/product map and rebuild canonically.
    #[verifier::loop_isolation(false)]
    fn map_leaf_entries<F: Fn(Expr) -> Expr>(&mut self, e: Expr, kind: OpKind, m: AbelianMap, f: F) -> (r: Expr)
        requires
            old(self).inv(),
            old(self).valid(e),
            crate::algebra::is_op_node(old(self).node_of(e), kind),
            m@ == op_map(old(self).node_of(e)),
            abs_val_sum(m@) <= i64::MAX,
            forall|x: Expr|
                old(self).valid(x) && old(self).dom_of(x) == old(self).dom_of(e)
                    ==> #[trigger] call_requires(f, (x,)),
            forall|x: Expr, y: Expr|
                #[trigger] call_ensures(f, (x,), y) ==> old(self).valid(y) && old(self).dom_of(y)
                    == old(self).dom_of(x),
        ensures
            final(self).inv(),
            final(self).extends(*old(self)),
            final(self).valid(r),
            final(self).dom_of(r) == old(self).dom_of(e),
            exists|ps: Seq<(Expr, i64)>|
                #[trigger] canon_pairs(*final(self), kind, old(self).dom_of(e), ps, r) && ps.len()
                    == m@.len() && (forall|j: int|
                    0 <= j < m@.len() ==> call_ensures(f, ((#[trigger] m@[j].0),), ps[j].0)
                        && ps[j].1 == m@[j].1),
    {
        proof {
            assert(node_wf_at(self.nodes@, self.nodes@[e.id as int], e.id as int));
        }
        let d = self.domain(e);
        let ents = m.as_entries();
        let n = ents.len();
        let mut pairs: Vec<(Expr, i64)> = Vec::new();
        let mut i: usize = 0;
        while i < n
            invariant
                i <= n,
                n == m@.len(),
                ents@ == m@,
                *self == *old(self),
                pairs@.len() == i,
                forall|t: int|
                    0 <= t < i ==> call_ensures(f, ((#[trigger] m@[t].0),), pairs@[t].0),
                forall|t: int| 0 <= t < i ==> (#[trigger] pairs@[t]).1 == m@[t].1,
                forall|t: int|
                    0 <= t < i ==> self.valid((#[trigger] pairs@[t]).0) && self.dom_of(
                        pairs@[t].0,
                    ) == self.dom_of(e),
            decreases n - i,
        {
            let k = ents[i].0;
            let v = ents[i].1;
            proof {
                assert(m@[i as int].0 == k);
                assert(self.dom_of(k) == self.dom_of(e));
            }
            let y = f(k);
            pairs.push((y, v));
            proof {
                assert(pairs@[i as int] == (y, v));
                assert(call_ensures(f, (k,), y));
                assert(self.valid(y) && self.dom_of(y) == self.dom_of(e));
            }
            i = i + 1;
        }
        proof {
            crate::abelian::lemma_abs_same_vals(pairs@, m@);
            assert forall|j: int|
                0 <= j < pairs@.len() implies self.valid(#[trigger] pairs@[j].0) && self.dom_of(
                pairs@[j].0,
            ) == d by {
                // The loop invariant speaks of the image of the j-th key.
                assert(call_ensures(f, ((m@[j].0),), pairs@[j].0));
            }
        }
        let x = self.rebuild_op(kind, d, &pairs);
        proof {
            assert(canon_pairs(*self, kind, old(self).dom_of(e), pairs@, x));
        }
        x
    }
}

/// The handle a domain-erased expression carries.
pub open spec fn ge_expr(g: GenericExpr) -> Expr {
    match g {
        GenericExpr::Scalar(e) => e,
        GenericExpr::RealSpaceScalar(e) => e,
        GenericExpr::KSpaceScalar(e) => e,
    }
}

/// The domain a domain-erased expression claims.
pub open spec fn ge_dom(g: GenericExpr) -> Domain {
    match g {
        GenericExpr::Scalar(_) => Domain::Scalar,
        GenericExpr::RealSpaceScalar(_) => Domain::RealSpaceScalar,
        GenericExpr::KSpaceScalar(_) => Domain::KSpaceScalar,
    }
}

/// Wrap a handle in the erased form of its domain.
pub open spec fn mk_generic(d: Domain, e: Expr) -> GenericExpr {
    match d {
        Domain::Scalar => GenericExpr::Scalar(e),
        Domain::RealSpaceScalar => GenericExpr::RealSpaceScalar(e),
        Domain::KSpaceScalar => GenericExpr::KSpaceScalar(e),
    }
}

/// A well-formed erased expression: its tag agrees with its handle's domain.
pub open spec fn gen_wf(store: Store, g: GenericExpr) -> bool {
    store.valid(ge_expr(g)) && store.dom_of(ge_expr(g)) == ge_dom(g)
}

/// Depth-first structural-equality search: the current node first (so the
/// root itself can match), then `Exp`/`Log` operands, then every sum/product
/// key in key order, crossing domain boundaries at `Integrate`, `Ifft` and
/// `Fft`.  Returns the first match in this order.
pub open spec fn spec_find(store: Store, g: GenericExpr, needle: GenericExpr) -> Option<GenericExpr>
    decreases ge_expr(g).id, 1int, 0int,
{
    if g == needle {
        Some(g)
    } else {
        let e = ge_expr(g);
        match store.node_of(e) {
            Node::Exp(_, a) => if a.id < e.id {
                spec_find(store, mk_generic(ge_dom(g), a), needle)
            } else {
                None
            },
            Node::Log(_, a) => if a.id < e.id {
                spec_find(store, mk_generic(ge_dom(g), a), needle)
            } else {
                None
            },
            Node::Add(_, m) => spec_find_list(store, ge_dom(g), m@, needle, e.id as int),
            Node::Mul(_, m) => spec_find_list(store, ge_dom(g), m@, needle, e.id as int),
            Node::Integrate(_, b) => if b.id < e.id {
                spec_find(store, GenericExpr::RealSpaceScalar(b), needle)
            } else {
                None
            },
            Node::Ifft(b) => if b.id < e.id {
                spec_find(store, GenericExpr::KSpaceScalar(b), needle)
            } else {
                None
            },
            Node::Fft(b) => if b.id < e.id {
                spec_find(store, GenericExpr::RealSpaceScalar(b), needle)
            } else {
                None
            },
            _ => None,
        }
    }
}

/// The first match over an entry list, keys searched in key order.
pub open spec fn spec_find_list(
    store: Store,
    d: Domain,
    s: Seq<(Expr, i64)>,
    needle: GenericExpr,
    bound: int,
) -> Option<GenericExpr>
    decreases bound, 0int, s.len(),
{
    if s.len() == 0 {
        None
    } else {
        let rest = spec_find_list(store, d, s.drop_last(), needle, bound);
        if rest is Some {
            rest
        } else if s.last().0.id < bound {
            spec_find(store, mk_generic(d, s.last().0), needle)
        } else {
            None
        }
    }
}

impl Store {
    /// The erased form of an expression.
    pub fn to_generic(&self, e: Expr) -> (g: GenericExpr)
        requires
            self.valid(e),
        ensures
            g == mk_generic(self.dom_of(e), e),
            ge_expr(g) == e,
    {
        match self.domain(e) {
            Domain::Scalar => GenericExpr::Scalar(e),
            Domain::RealSpaceScalar => GenericExpr::RealSpaceScalar(e),
            Domain::KSpaceScalar => GenericExpr::KSpaceScalar(e),
        }
    }

    /// `find`: depth-first structural-equality search across domain
    /// boundaries, returning the first subexpression equal to `needle`.
    pub fn find(&self, g: GenericExpr, needle: GenericExpr) -> (r: Option<GenericExpr>)
        requires
            self.inv(),
            gen_wf(*self, g),
        ensures
            r == spec_find(*self, g, needle),
            r matches Some(x) ==> x == needle,
        decreases ge_expr(g).id, 1int,
    {
        if g == needle {
            return Some(g);
        }
        let (e, d) = match g {
            GenericExpr::Scalar(e) => (e, Domain::Scalar),
            GenericExpr::RealSpaceScalar(e) => (e, Domain::RealSpaceScalar),
            GenericExpr::KSpaceScalar(e) => (e, Domain::KSpaceScalar),
        };
        proof {
            assert(e == ge_expr(g));
            assert(d == ge_dom(g));
            assert(node_wf_at(self.nodes@, self.nodes@[e.id as int], e.id as int));
        }
        match self.node(e) {
            Node::Exp(_, a) => self.find(wrap_generic(d, *a), needle),
            Node::Log(_, a) => self.find(wrap_generic(d, *a), needle),
            Node::Add(_, m) => self.find_entries(d, e, m.as_entries(), needle),
            Node::Mul(_, m) => self.find_entries(d, e, m.as_entries(), needle),
            Node::Integrate(_, b) => self.find(GenericExpr::RealSpaceScalar(*b), needle),
            Node::Ifft(b) => self.find(GenericExpr::KSpaceScalar(*b), needle),
            Node::Fft(b) => self.find(GenericExpr::RealSpaceScalar(*b), needle),
            _ => None,
        }
    }

    /// The first match over `e`'s own entry list.
    #[verifier::loop_isolation(false)]
    fn find_entries(
        &self,
        d: Domain,
        e: Expr,
        entries: &Vec<(Expr, i64)>,
        needle: GenericExpr,
    ) -> (r: Option<GenericExpr>)
        requires
            self.inv(),
            self.valid(e),
            forall|j: int|
                0 <= j < entries@.len() ==> (#[trigger] entries@[j].0).id < e.id && self.valid(
                    entries@[j].0,
                ) && self.dom_of(entries@[j].0) == d,
        ensures
            r == spec_find_list(*self, d, entries@, needle, e.id as int),
            r matches Some(x) ==> x == needle,
        decreases e.id, 0int,
    {
        let n = entries.len();
        let mut i: usize = 0;
        let mut acc: Option<GenericExpr> = None;
        while i < n
            invariant
                i <= n,
                n == entries@.len(),
                acc == spec_find_list(*self, d, entries@.take(i as int), needle, e.id as int),
                acc matches Some(x) ==> x == needle,
            decreases n - i,
        {
            proof {
                assert(entries@.take(i + 1).drop_last() =~= entries@.take(i as int));
                assert(entries@.take(i + 1).last() == entries@[i as int]);
            }
            if acc.is_none() {
                acc = self.find(wrap_generic(d, entries[i].0), needle);
            }
            i = i + 1;
        }
        proof {
            assert(entries@.take(n as int) =~= entries@);
        }
        acc
    }
}

/// Wrap a handle in the erased form of the given domain.
fn wrap_generic(d: Domain, e: Expr) -> (g: GenericExpr)
    ensures
        g == mk_generic(d, e),
        ge_expr(g) == e,
        ge_dom(g) == d,
{
    match d {
        Domain::Scalar => GenericExpr::Scalar(e),
        Domain::RealSpaceScalar => GenericExpr::RealSpaceScalar(e),
        Domain::KSpaceScalar => GenericExpr::KSpaceScalar(e),
    }
}

} // verus!
