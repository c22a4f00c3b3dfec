//! The commutative-monoid payload of every `Add` and `Mul` node: a finite map
//! from expression handle to a nonzero integer coefficient (for sums) or
//! exponent (for products).
//!
//! The map is kept in a canonical form — entries sorted strictly by handle
//! index, no zero values — so that two maps are structurally equal exactly when
//! they assign the same coefficient to every handle.  This is what makes the
//! equality and hash of a sum or product independent of the order in which its
//! terms were inserted.

use vstd::prelude::*;
use crate::expr::Expr;

verus! {

/// The mathematical reading of an entry sequence: the coefficient it assigns to
/// a handle, zero meaning "absent".
pub open spec fn map_coeff(s: Seq<(Expr, i64)>, k: Expr) -> int
    decreases s.len(),
{
    if s.len() == 0 {
        0
    } else if s.last().0 == k {
        s.last().1 as int
    } else {
        map_coeff(s.drop_last(), k)
    }
}

/// Canonical form of an entry sequence: strictly sorted by handle index,
/// every coefficient nonzero and strictly above `i64::MIN` (so that negation
/// can never overflow).
pub open spec fn entries_wf(s: Seq<(Expr, i64)>) -> bool {
    &&& forall|i: int, j: int| 0 <= i < j < s.len() ==> s[i].0.id < s[j].0.id
    &&& forall|i: int| 0 <= i < s.len() ==> s[i].1 != 0 && s[i].1 > i64::MIN
}

/// A canonical coefficient map.  `Add` and `Mul` nodes own exactly one of
/// these; its keys are handles interned in the same store.
#[derive(Clone, Debug, PartialEq, Eq, Hash)]
pub struct AbelianMap {
    pub entries: Vec<(Expr, i64)>,
}

impl View for AbelianMap {
    type V = Seq<(Expr, i64)>;

    open spec fn view(&self) -> Seq<(Expr, i64)> {
        self.entries@
    }
}

/// In a sequence with pairwise-distinct keys, the coefficient of a present key
/// is the value stored beside it.
pub proof fn lemma_coeff_key_index(s: Seq<(Expr, i64)>, i: int)
    requires
        forall|a: int, b: int| 0 <= a < b < s.len() ==> s[a].0 != s[b].0,
        0 <= i < s.len(),
    ensures
        map_coeff(s, s[i].0) == s[i].1,
    decreases s.len(),
{
    if i == s.len() - 1 {
    } else {
        assert(s.last().0 != s[i].0);
        assert(s.drop_last()[i] == s[i]);
        lemma_coeff_key_index(s.drop_last(), i);
    }
}

/// A key that appears beside no entry has coefficient zero.
pub proof fn lemma_coeff_absent(s: Seq<(Expr, i64)>, k: Expr)
    requires
        forall|j: int| 0 <= j < s.len() ==> s[j].0 != k,
    ensures
        map_coeff(s, k) == 0,
    decreases s.len(),
{
    if s.len() > 0 {
        lemma_coeff_absent(s.drop_last(), k);
    }
}

/// Inserting a fresh key at any position adds its value to exactly that key's
/// coefficient.
pub proof fn lemma_coeff_insert(s: Seq<(Expr, i64)>, i: int, p: (Expr, i64))
    requires
        0 <= i <= s.len(),
        forall|j: int| 0 <= j < s.len() ==> s[j].0 != p.0,
    ensures
        forall|q: Expr|
            map_coeff(s.insert(i, p), q) == map_coeff(s, q) + (if q == p.0 {
                p.1 as int
            } else {
                0
            }),
    decreases s.len(),
{
    let t = s.insert(i, p);
    if i == s.len() {
        assert(t.last() == p);
        assert(t.drop_last() =~= s);
        lemma_coeff_absent(s, p.0);
    } else {
        assert(t.last() == s.last());
        assert(t.drop_last() =~= s.drop_last().insert(i, p));
        lemma_coeff_insert(s.drop_last(), i, p);
        assert forall|q: Expr|
            map_coeff(t, q) == map_coeff(s, q) + (if q == p.0 {
                p.1 as int
            } else {
                0
            }) by {
            if q == s.last().0 {
                assert(s[s.len() - 1].0 != p.0);
                assert(map_coeff(t, q) == t.last().1 as int);
                assert(map_coeff(s, q) == s.last().1 as int);
            } else {
                assert(map_coeff(t, q) == map_coeff(t.drop_last(), q));
                assert(map_coeff(s, q) == map_coeff(s.drop_last(), q));
                assert(map_coeff(t.drop_last(), q) == map_coeff(s.drop_last().insert(i, p), q));
            }
        }
    }
}

/// Removing an entry subtracts its value from exactly its key's coefficient.
pub proof fn lemma_coeff_remove(s: Seq<(Expr, i64)>, i: int)
    requires
        forall|a: int, b: int| 0 <= a < b < s.len() ==> s[a].0 != s[b].0,
        0 <= i < s.len(),
    ensures
        forall|q: Expr|
            map_coeff(s.remove(i), q) == map_coeff(s, q) - (if q == s[i].0 {
                s[i].1 as int
            } else {
                0
            }),
    decreases s.len(),
{
    let t = s.remove(i);
    if i == s.len() - 1 {
        assert(t =~= s.drop_last());
        assert forall|q: Expr|
            map_coeff(t, q) == map_coeff(s, q) - (if q == s[i].0 {
                s[i].1 as int
            } else {
                0
            }) by {
            if q == s[i].0 {
                assert forall|j: int| 0 <= j < t.len() implies t[j].0 != q by {
                    assert(s[j].0 != s[i].0);
                }
                lemma_coeff_absent(t, q);
            }
        }
    } else {
        assert(t.last() == s.last());
        assert(t.drop_last() =~= s.drop_last().remove(i));
        lemma_coeff_remove(s.drop_last(), i);
        assert forall|q: Expr|
            map_coeff(t, q) == map_coeff(s, q) - (if q == s[i].0 {
                s[i].1 as int
            } else {
                0
            }) by {
            if q == s.last().0 {
                assert(s[i].0 != s[s.len() - 1].0);
                assert(map_coeff(t, q) == t.last().1 as int);
                assert(map_coeff(s, q) == s.last().1 as int);
            } else {
                assert(s.drop_last()[i] == s[i]);
                assert(map_coeff(t, q) == map_coeff(t.drop_last(), q));
                assert(map_coeff(s, q) == map_coeff(s.drop_last(), q));
                assert(map_coeff(t.drop_last(), q) == map_coeff(s.drop_last().remove(i), q));
            }
        }
    }
}

/// The hash-consing heart of the map: canonical entry sequences are uniquely
/// determined by the coefficient function they denote.  Two maps built by any
/// two insertion orders of the same terms are therefore structurally equal.
pub proof fn lemma_entries_unique(s1: Seq<(Expr, i64)>, s2: Seq<(Expr, i64)>)
    requires
        entries_wf(s1),
        entries_wf(s2),
        forall|q: Expr| map_coeff(s1, q) == map_coeff(s2, q),
    ensures
        s1 == s2,
    decreases s1.len() + s2.len(),
{
    if s1.len() == 0 {
        if s2.len() > 0 {
            lemma_coeff_key_index(s2, s2.len() - 1);
            lemma_coeff_absent(s1, s2.last().0);
        }
        assert(s1 =~= s2);
    } else if s2.len() == 0 {
        lemma_coeff_key_index(s1, s1.len() - 1);
        lemma_coeff_absent(s2, s1.last().0);
        assert(s1 =~= s2);
    } else {
        let k1 = s1.last().0;
        let k2 = s2.last().0;
        lemma_coeff_key_index(s1, s1.len() - 1);
        lemma_coeff_key_index(s2, s2.len() - 1);
        // Each maximal key is present in the other sequence, so the maxima agree.
        if k1 != k2 {
            assert(map_coeff(s2, k1) != 0);
            if (forall|j: int| 0 <= j < s2.len() ==> s2[j].0 != k1) {
                lemma_coeff_absent(s2, k1);
                assert(false);
            }
            let j1 = choose|j: int| 0 <= j < s2.len() && s2[j].0 == k1;
            assert(k1.id <= k2.id);
            assert(map_coeff(s1, k2) != 0);
            if (forall|j: int| 0 <= j < s1.len() ==> s1[j].0 != k2) {
                lemma_coeff_absent(s1, k2);
                assert(false);
            }
            let j2 = choose|j: int| 0 <= j < s1.len() && s1[j].0 == k2;
            assert(k2.id <= k1.id);
            assert(false);
        }
        // Equal last entries; the prefixes denote the same coefficients.
        assert(s1.last().1 == s2.last().1);
        assert forall|q: Expr| map_coeff(s1.drop_last(), q) == map_coeff(s2.drop_last(), q) by {
            assert(map_coeff(s1, q) == map_coeff(s2, q));
            if q != k1 {
                assert(map_coeff(s1, q) == map_coeff(s1.drop_last(), q));
                assert(map_coeff(s2, q) == map_coeff(s2.drop_last(), q));
            }
            if q == k1 {
                assert forall|j: int| 0 <= j < s1.drop_last().len() implies s1.drop_last()[j].0
                    != q by {
                    assert(s1[j].0.id < s1[s1.len() - 1].0.id);
                }
                lemma_coeff_absent(s1.drop_last(), q);
                assert forall|j: int| 0 <= j < s2.drop_last().len() implies s2.drop_last()[j].0
                    != q by {
                    assert(s2[j].0.id < s2[s2.len() - 1].0.id);
                }
                lemma_coeff_absent(s2.drop_last(), q);
            }
        }
        lemma_entries_unique(s1.drop_last(), s2.drop_last());
        assert(s1.drop_last() == s2.drop_last());
        assert(s1.len() == s2.len());
        assert forall|t: int| 0 <= t < s1.len() implies s1[t] == s2[t] by {
            if t < s1.len() - 1 {
                assert(s1.drop_last()[t] == s2.drop_last()[t]);
            } else {
                assert(s1.last() == s2.last());
            }
        }
        assert(s1 =~= s2);
    }
}

/// Position of the first entry whose key index is not below `key`.
#[verifier::loop_isolation(false)]
fn find_pos(v: &Vec<(Expr, i64)>, key: usize) -> (r: usize)
    ensures
        r <= v@.len(),
        forall|j: int| 0 <= j < r ==> v@[j].0.id < key,
        r < v@.len() ==> v@[r as int].0.id >= key,
{
    let mut i: usize = 0;
    while i < v.len() && v[i].0.id < key
        invariant
            i <= v@.len(),
            forall|j: int| 0 <= j < i ==> v@[j].0.id < key,
        decreases v@.len() - i,
    {
        i = i + 1;
    }
    i
}

impl AbelianMap {
    /// Canonical form of the whole map.
    pub open spec fn wf(self) -> bool {
        entries_wf(self@)
    }

    /// The coefficient this map assigns to a handle (zero when absent).
    pub open spec fn coeff(self, k: Expr) -> int {
        map_coeff(self@, k)
    }

    /// The empty map: every coefficient zero.
    pub fn new() -> (r: Self)
        ensures
            r.wf(),
            r@.len() == 0,
            forall|q: Expr| r.coeff(q) == 0,
    {
        let r = AbelianMap { entries: Vec::new() };
        proof {
            assert forall|q: Expr| r.coeff(q) == 0 by {
                lemma_coeff_absent(r@, q);
            }
        }
        r
    }

    /// Number of entries.
    pub fn len(&self) -> (r: usize)
        ensures
            r == self@.len(),
    {
        self.entries.len()
    }

    /// Read-only access to the canonical entry list, in key order.
    pub fn as_entries(&self) -> (r: &Vec<(Expr, i64)>)
        ensures
            r@ == self@,
    {
        &self.entries
    }

    /// An identical map with the same entries.
    #[verifier::loop_isolation(false)]
    pub fn duplicate(&self) -> (r: Self)
        ensures
            r@ == self@,
    {
        let mut entries: Vec<(Expr, i64)> = Vec::new();
        let mut i: usize = 0;
        while i < self.entries.len()
            invariant
                i <= self.entries@.len(),
                entries@ == self.entries@.take(i as int),
            decreases self.entries@.len() - i,
        {
            entries.push(self.entries[i]);
            proof {
                assert(entries@ =~= self.entries@.take(i + 1));
            }
            i = i + 1;
        }
        proof {
            assert(entries@ =~= self.entries@);
        }
        AbelianMap { entries }
    }

    /// `self[k] += v`, removing the entry when the sum cancels to zero.
    ///
    /// This single operation is what merges repeated terms and cancels
    /// opposite terms in every sum and product.
    #[verifier::loop_isolation(false)]
    pub fn insert(&mut self, k: Expr, v: i64)
        requires
            old(self).wf(),
            -i64::MAX <= old(self).coeff(k) + v <= i64::MAX,
        ensures
            final(self).wf(),
            forall|q: Expr|
                final(self).coeff(q) == old(self).coeff(q) + (if q == k {
                    v as int
                } else {
                    0
                }),
    {
        let ghost s0 = self.entries@;
        let pos = find_pos(&self.entries, k.id);
        if pos < self.entries.len() && self.entries[pos].0.id == k.id {
            assert(self.entries@[pos as int].0 == k);
            proof {
                lemma_coeff_key_index(s0, pos as int);
            }
            let nv = self.entries[pos].1 + v;
            let removed = self.entries.remove(pos);
            proof {
                lemma_coeff_remove(s0, pos as int);
            }
            let ghost s1 = self.entries@;
            if nv != 0 {
                self.entries.insert(pos, (k, nv));
                proof {
                    assert forall|j: int| 0 <= j < s1.len() implies s1[j].0 != k by {
                        if j < pos {
                            assert(s1[j] == s0[j]);
                        } else {
                            assert(s1[j] == s0[j + 1]);
                        }
                    }
                    lemma_coeff_insert(s1, pos as int, (k, nv));
                    assert forall|a: int, b: int|
                        0 <= a < b < self.entries@.len() implies self.entries@[a].0.id
                        < self.entries@[b].0.id by {}
                }
            } else {
                proof {
                    assert forall|q: Expr|
                        self.coeff(q) == map_coeff(s0, q) + (if q == k {
                            v as int
                        } else {
                            0
                        }) by {}
                }
            }
        } else {
            proof {
                assert forall|j: int| 0 <= j < s0.len() implies s0[j].0 != k by {
                    if j >= pos {
                        assert(s0[j].0.id >= k.id);
                        if j > pos {
                            assert(s0[pos as int].0.id < s0[j].0.id);
                        }
                    }
                }
                lemma_coeff_absent(s0, k);
            }
            if v != 0 {
                self.entries.insert(pos, (k, v));
                proof {
                    lemma_coeff_insert(s0, pos as int, (k, v));
                }
            }
        }
    }

    /// Pointwise addition: `self[q] += other[q]` for every handle `q`.
    #[verifier::loop_isolation(false)]
    pub fn union(&mut self, other: &AbelianMap)
        requires
            old(self).wf(),
            other.wf(),
            forall|q: Expr| #![trigger other.coeff(q)]
                -i64::MAX <= old(self).coeff(q) + other.coeff(q) <= i64::MAX,
        ensures
            final(self).wf(),
            forall|q: Expr| final(self).coeff(q) == old(self).coeff(q) + other.coeff(q),
    {
        let n = other.entries.len();
        let mut i: usize = 0;
        while i < n
            invariant
                n == other.entries@.len(),
                i <= n,
                old(self).wf(),
                other.wf(),
                forall|q: Expr| #![trigger other.coeff(q)]
                    -i64::MAX <= old(self).coeff(q) + other.coeff(q) <= i64::MAX,
                self.wf(),
                forall|q: Expr|
                    self.coeff(q) == old(self).coeff(q) + map_coeff(
                        other.entries@.take(i as int),
                        q,
                    ),
            decreases n - i,
        {
            let ghost pre = self@;
            let (k, v) = other.entries[i];
            proof {
                lemma_coeff_key_index(other.entries@, i as int);
                assert(other.entries@.take(i + 1).drop_last() =~= other.entries@.take(i as int));
                assert(other.entries@.take(i + 1).last() == (k, v));
                assert forall|j: int| 0 <= j < i implies other.entries@.take(i as int)[j].0
                    != k by {
                    assert(other.entries@[j].0.id < other.entries@[i as int].0.id);
                }
                lemma_coeff_absent(other.entries@.take(i as int), k);
                assert(self.coeff(k) == old(self).coeff(k));
                assert(other.coeff(k) == v);
            }
            self.insert(k, v);
            proof {
                assert forall|q: Expr|
                    self.coeff(q) == old(self).coeff(q) + map_coeff(
                        other.entries@.take(i + 1),
                        q,
                    ) by {
                    assert(map_coeff(other.entries@.take(i + 1), q) == (if q == k {
                        v as int
                    } else {
                        map_coeff(other.entries@.take(i as int), q)
                    }));
                    if q == k {
                        assert(map_coeff(other.entries@.take(i as int), q) == 0);
                    }
                }
            }
            i = i + 1;
        }
        proof {
            assert(other.entries@.take(n as int) =~= other.entries@);
        }
    }

    /// The pointwise negation of this map.  Never overflows: canonical maps
    /// hold no coefficient equal to `i64::MIN`.
    #[verifier::loop_isolation(false)]
    pub fn negated(&self) -> (r: Self)
        requires
            self.wf(),
        ensures
            r.wf(),
            forall|q: Expr| r.coeff(q) == -self.coeff(q),
    {
        let mut entries: Vec<(Expr, i64)> = Vec::new();
        let n = self.entries.len();
        let mut i: usize = 0;
        while i < n
            invariant
                n == self.entries@.len(),
                i <= n,
                self.wf(),
                entries@.len() == i,
                forall|j: int|
                    0 <= j < i ==> entries@[j] == (self.entries@[j].0, (-self.entries@[j].1) as i64),
            decreases n - i,
        {
            let (k, v) = self.entries[i];
            entries.push((k, -v));
            i = i + 1;
        }
        let r = AbelianMap { entries };
        proof {
            lemma_negated_coeff(r@, self@);
        }
        r
    }
}

/// If `neg` mirrors `s` entry by entry with negated values, it denotes the
/// pointwise negated coefficient function.
proof fn lemma_negated_coeff(neg: Seq<(Expr, i64)>, s: Seq<(Expr, i64)>)
    requires
        neg.len() == s.len(),
        forall|j: int| 0 <= j < s.len() ==> neg[j] == (s[j].0, (-s[j].1) as i64),
        forall|j: int| 0 <= j < s.len() ==> s[j].1 > i64::MIN,
    ensures
        forall|q: Expr| map_coeff(neg, q) == -map_coeff(s, q),
    decreases s.len(),
{
    if s.len() > 0 {
        assert(neg.drop_last().len() == s.drop_last().len());
        assert forall|j: int| 0 <= j < s.drop_last().len() implies neg.drop_last()[j] == (
        s.drop_last()[j].0, (-s.drop_last()[j].1) as i64) by {
            assert(neg[j] == (s[j].0, (-s[j].1) as i64));
        }
        lemma_negated_coeff(neg.drop_last(), s.drop_last());
        assert(neg.last() == (s.last().0, (-s.last().1) as i64));
        assert(s.last().1 > i64::MIN);
        assert forall|q: Expr| map_coeff(neg, q) == -map_coeff(s, q) by {
            if q == s.last().0 {
                assert(map_coeff(neg, q) == neg.last().1 as int);
                assert(map_coeff(s, q) == s.last().1 as int);
            } else {
                assert(neg.last().0 == s.last().0);
                assert(map_coeff(neg, q) == map_coeff(neg.drop_last(), q));
                assert(map_coeff(s, q) == map_coeff(s.drop_last(), q));
            }
        }
    }
}


/// A nonzero coefficient names a present key.
pub proof fn lemma_coeff_support(s: Seq<(Expr, i64)>, k: Expr)
    requires
        map_coeff(s, k) != 0,
    ensures
        exists|j: int| 0 <= j < s.len() && s[j].0 == k,
    decreases s.len(),
{
    if s.len() > 0 {
        if s.last().0 == k {
            assert(s[s.len() - 1].0 == k);
        } else {
            lemma_coeff_support(s.drop_last(), k);
            let j = choose|j: int| 0 <= j < s.drop_last().len() && s.drop_last()[j].0 == k;
            assert(s[j].0 == k);
        }
    }
}

/// The total of the absolute values of a pair sequence: the machine bound
/// under which any regrouping of those pairs can be accumulated in `i64`.
pub open spec fn abs_val_sum(s: Seq<(Expr, i64)>) -> int
    decreases s.len(),
{
    if s.len() == 0 {
        0
    } else {
        abs_val_sum(s.drop_last()) + (if s.last().1 >= 0 {
            s.last().1 as int
        } else {
            -(s.last().1 as int)
        })
    }
}

/// The coefficient a raw pair sequence assigns to a key, summing over every
/// occurrence; unlike `map_coeff` it does not assume distinct keys.
pub open spec fn pairs_coeff(s: Seq<(Expr, i64)>, q: Expr) -> int
    decreases s.len(),
{
    if s.len() == 0 {
        0
    } else {
        pairs_coeff(s.drop_last(), q) + (if s.last().0 == q {
            s.last().1 as int
        } else {
            0
        })
    }
}

/// Any regrouped coefficient is bounded by the total of absolute values.
pub proof fn lemma_pairs_coeff_bound(s: Seq<(Expr, i64)>, q: Expr)
    ensures
        abs_val_sum(s) >= 0,
        -abs_val_sum(s) <= pairs_coeff(s, q) <= abs_val_sum(s),
    decreases s.len(),
{
    if s.len() > 0 {
        lemma_pairs_coeff_bound(s.drop_last(), q);
    }
}

/// Prefixes never exceed the whole sequence's total of absolute values.
pub proof fn lemma_abs_prefix(s: Seq<(Expr, i64)>, j: int)
    requires
        0 <= j <= s.len(),
    ensures
        abs_val_sum(s.take(j)) <= abs_val_sum(s),
    decreases s.len(),
{
    if j == s.len() {
        assert(s.take(j) =~= s);
    } else {
        assert(s.drop_last().take(j) =~= s.take(j));
        lemma_abs_prefix(s.drop_last(), j);
        assert(abs_val_sum(s) >= abs_val_sum(s.drop_last())) by {
            lemma_pairs_coeff_bound(s, s.last().0);
        }
    }
}

/// A key with a nonzero regrouped coefficient occurs among the pairs.
pub proof fn lemma_pairs_support(s: Seq<(Expr, i64)>, k: Expr)
    requires
        pairs_coeff(s, k) != 0,
    ensures
        exists|j: int| 0 <= j < s.len() && s[j].0 == k,
    decreases s.len(),
{
    if s.len() > 0 {
        if s.last().0 == k {
            assert(s[s.len() - 1].0 == k);
        } else {
            lemma_pairs_support(s.drop_last(), k);
            let j = choose|j: int| 0 <= j < s.drop_last().len() && s.drop_last()[j].0 == k;
            assert(s[j].0 == k);
        }
    }
}

/// Two pair sequences with the same value column have the same total of
/// absolute values, whatever their keys.
pub proof fn lemma_abs_same_vals(a: Seq<(Expr, i64)>, b: Seq<(Expr, i64)>)
    requires
        a.len() == b.len(),
        forall|j: int| 0 <= j < a.len() ==> a[j].1 == b[j].1,
    ensures
        abs_val_sum(a) == abs_val_sum(b),
    decreases a.len(),
{
    if a.len() > 0 {
        lemma_abs_same_vals(a.drop_last(), b.drop_last());
        assert(a[a.len() - 1].1 == b[b.len() - 1].1);
    }
}

/// Canonicalize a raw pair sequence — the image of a map under key rewriting —
/// by accumulating every occurrence of a key into one entry and dropping
/// cancelled ones.  This is the re-canonicalization step behind leaf mapping,
/// substitution, and the domain conversions.
#[verifier::loop_isolation(false)]
pub fn map_from_pairs(pairs: &Vec<(Expr, i64)>) -> (r: AbelianMap)
    requires
        abs_val_sum(pairs@) <= i64::MAX,
    ensures
        r.wf(),
        forall|q: Expr| r.coeff(q) == pairs_coeff(pairs@, q),
{
    let mut m = AbelianMap::new();
    let n = pairs.len();
    let mut j: usize = 0;
    while j < n
        invariant
            n == pairs@.len(),
            j <= n,
            m.wf(),
            forall|q: Expr| m.coeff(q) == pairs_coeff(pairs@.take(j as int), q),
        decreases n - j,
    {
        let (k, v) = pairs[j];
        proof {
            assert(pairs@.take(j + 1).drop_last() =~= pairs@.take(j as int));
            assert(pairs@.take(j + 1).last() == (k, v));
            lemma_abs_prefix(pairs@, j + 1);
            lemma_pairs_coeff_bound(pairs@.take(j + 1), k);
            assert(pairs_coeff(pairs@.take(j + 1), k) == pairs_coeff(pairs@.take(j as int), k)
                + v);
        }
        m.insert(k, v);
        proof {
            assert forall|q: Expr| m.coeff(q) == pairs_coeff(pairs@.take(j + 1), q) by {
                assert(pairs_coeff(pairs@.take(j + 1), q) == pairs_coeff(
                    pairs@.take(j as int),
                    q,
                ) + (if q == k {
                    v as int
                } else {
                    0
                }));
            }
        }
        j = j + 1;
    }
    proof {
        assert(pairs@.take(n as int) =~= pairs@);
    }
    m
}

/// Structural equality of two maps, which by canonicality coincides with
/// equality of the coefficient functions they denote.
#[verifier::loop_isolation(false)]
pub fn map_eq(a: &AbelianMap, b: &AbelianMap) -> (r: bool)
    ensures
        r == (a@ == b@),
{
    if a.entries.len() != b.entries.len() {
        proof {
            assert(a@ != b@);
        }
        return false;
    }
    let n = a.entries.len();
    let mut i: usize = 0;
    while i < n
        invariant
            n == a.entries@.len(),
            n == b.entries@.len(),
            i <= n,
            forall|j: int| 0 <= j < i ==> a.entries@[j] == b.entries@[j],
        decreases n - i,
    {
        let (ka, va) = a.entries[i];
        let (kb, vb) = b.entries[i];
        if ka.id != kb.id || va != vb {
            proof {
                assert(a@[i as int] != b@[i as int]);
            }
            return false;
        }
        i = i + 1;
    }
    proof {
        assert(a@ =~= b@);
    }
    true
}

} // verus!
