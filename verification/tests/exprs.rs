use std::collections::hash_map::DefaultHasher;
use std::hash::{Hash, Hasher};

use gridexpr::abelian::AbelianMap;
use gridexpr::expr::{Domain, ExprError, Store};

fn hash_of<T: Hash>(value: &T) -> u64 {
    let mut h = DefaultHasher::new();
    value.hash(&mut h);
    h.finish()
}

#[test]
fn abelian() {
    let mut st = Store::new();
    let x = st.var(Domain::Scalar, "x");
    let y = st.var(Domain::Scalar, "y");
    let z = st.var(Domain::Scalar, "z");

    let mut s = AbelianMap::new();
    s.insert(x, 1);
    s.insert(x, 1);
    s.insert(y, 1);
    s.insert(z, 1);

    assert_eq!(s, s);

    // Rebuilding from the entries yields an equal map.
    let mut rebuilt = AbelianMap::new();
    for &(k, v) in s.as_entries().iter() {
        rebuilt.insert(k, v);
    }
    assert_eq!(s, rebuilt);

    let mut smaller = AbelianMap::new();
    smaller.insert(x, 1);
    smaller.insert(y, 1);
    smaller.insert(z, 1);
    assert!(s != smaller);
}

#[test]
fn abelian_order_independent() {
    // Inserting {x, x, y, z} in any order yields the same map as {z, y, x, x}.
    let mut st = Store::new();
    let x = st.var(Domain::Scalar, "x");
    let y = st.var(Domain::Scalar, "y");
    let z = st.var(Domain::Scalar, "z");

    let mut forward = AbelianMap::new();
    forward.insert(x, 1);
    forward.insert(x, 1);
    forward.insert(y, 1);
    forward.insert(z, 1);

    let mut backward = AbelianMap::new();
    backward.insert(z, 1);
    backward.insert(y, 1);
    backward.insert(x, 1);
    backward.insert(x, 1);

    assert_eq!(forward, backward);
    assert_eq!(hash_of(&forward), hash_of(&backward));
}

#[test]
fn arith() {
    let mut st = Store::new();
    let a = st.var(Domain::Scalar, "a");
    let b = st.var(Domain::Scalar, "b");

    assert_eq!(a, a);
    assert!(a != b);

    let zero = st.from_int(Domain::Scalar, 0);
    let one = st.from_int(Domain::Scalar, 1);

    let a_plus_0 = st.add(a, zero);
    assert_eq!(a_plus_0, a);
    let aa1 = st.add(a, a);
    let aa2 = st.add(a, a);
    assert_eq!(aa1, aa2);
    let ab1 = st.add(a, b);
    let ab2 = st.add(a, b);
    assert_eq!(ab1, ab2);
    let ba = st.add(b, a);
    assert_eq!(ab1, ba);
    let aa_minus_a = st.sub(aa1, a);
    assert_eq!(aa_minus_a, a);
    let a_minus_a = st.sub(a, a);
    assert_eq!(a_minus_a, zero);
    let all_gone = st.sub(aa_minus_a, a);
    assert_eq!(all_gone, zero);

    let a_times_1 = st.mul(a, one);
    assert_eq!(a_times_1, a);
    let sq1 = st.mul(a, a);
    let sq2 = st.mul(a, a);
    assert_eq!(sq1, sq2);
    let p1 = st.mul(a, b);
    let p2 = st.mul(a, b);
    assert_eq!(p1, p2);
    let p3 = st.mul(b, a);
    assert_eq!(p1, p3);
    let sq_over_a = st.div(sq1, a);
    assert_eq!(sq_over_a, a);
    let a_over_a = st.div(a, a);
    assert_eq!(a_over_a, one);
    let unit = st.div(sq_over_a, a);
    assert_eq!(unit, one);
}

#[test]
fn realspace() {
    let mut st = Store::new();
    let a = st.var(Domain::RealSpaceScalar, "a");
    let _s = st.var(Domain::Scalar, "s");
    let rs_s = st.scalar_var(Domain::RealSpaceScalar, "s");

    let p1 = st.mul(a, rs_s);
    let p2 = st.mul(a, rs_s);
    assert_eq!(p1, p2);
}

#[test]
fn hash_consing_handles() {
    // Structurally equal construction paths yield the identical handle.
    let mut st = Store::new();
    let a1 = st.var(Domain::Scalar, "a");
    let a2 = st.var(Domain::Scalar, "a");
    assert_eq!(a1, a2);
    let e1 = st.exp(a1);
    let e2 = st.exp(a2);
    assert_eq!(e1, e2);
    assert_eq!(hash_of(&e1), hash_of(&e2));
    // The same name in another domain is a different expression.
    let rs_a = st.var(Domain::RealSpaceScalar, "a");
    assert!(a1 != rs_a);
}

#[test]
fn log_builds_exp_variant() {
    // The log constructor mirrors the constructor family exactly: it builds
    // the Exp variant, a documented discrepancy flagged for the system owner.
    let mut st = Store::new();
    let a = st.var(Domain::Scalar, "a");
    let viaexp = st.exp(a);
    let vialog = st.log(a);
    assert_eq!(viaexp, vialog);
}

#[test]
fn conversion_rejects_integrals() {
    let mut st = Store::new();
    let field = st.var(Domain::RealSpaceScalar, "n");
    let total = st.integrate("total", field);
    assert_eq!(st.to_real_space(total), Err(ExprError::UnsupportedConversion));
    // A plain scalar embeds fine, as a broadcast value.
    let s = st.var(Domain::Scalar, "s");
    let embedded = st.to_real_space(s).unwrap();
    let direct = st.scalar_var(Domain::RealSpaceScalar, "s");
    assert_eq!(embedded, direct);
}

#[test]
fn projection_rejects_transforms() {
    let mut st = Store::new();
    let k = st.var(Domain::KSpaceScalar, "k");
    let back = st.ifft(k);
    assert_eq!(st.fake_scalar(back), Err(ExprError::IllegalProjection));
    let a = st.var(Domain::RealSpaceScalar, "a");
    let projected = st.fake_scalar(a).unwrap();
    let direct = st.var(Domain::Scalar, "a[i]");
    assert_eq!(projected, direct);
}

#[test]
fn substitute_scalar_only() {
    let mut st = Store::new();
    let a = st.var(Domain::Scalar, "a");
    let b = st.var(Domain::Scalar, "b");
    let e = st.exp(a);
    let swapped = st.substitute(e, a, b).unwrap();
    let expected = st.exp(b);
    assert_eq!(swapped, expected);

    // Substitution in the field domains is an unimplemented operation.
    let rs = st.var(Domain::RealSpaceScalar, "r");
    assert_eq!(st.substitute(rs, a, b), Err(ExprError::UnimplementedOperation));

    // So is substituting below an integral boundary.
    let field = st.var(Domain::RealSpaceScalar, "n");
    let total = st.integrate("total", field);
    assert_eq!(
        st.substitute(total, a, b),
        Err(ExprError::UnimplementedOperation)
    );
}

#[test]
fn find_crosses_domains() {
    let mut st = Store::new();
    let a = st.var(Domain::Scalar, "a");
    let e = st.exp(a);
    let g = st.to_generic(e);
    let needle = st.to_generic(a);
    assert_eq!(st.find(g, needle), Some(needle));

    // The root itself can match.
    assert_eq!(st.find(g, g), Some(g));

    // Search crosses the integrate boundary into real space.
    let field = st.var(Domain::RealSpaceScalar, "n");
    let total = st.integrate("total", field);
    let g_total = st.to_generic(total);
    let g_field = st.to_generic(field);
    assert_eq!(st.find(g_total, g_field), Some(g_field));

    let other = st.var(Domain::Scalar, "missing");
    let g_other = st.to_generic(other);
    assert_eq!(st.find(g, g_other), None);
}
