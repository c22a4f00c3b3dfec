use gridexpr::expr::{Domain, ExprError, Store};
use gridexpr::stmt::{Stmt, test_stmt};

#[test]
fn cpp() {
    let mut st = Store::new();
    let a = st.var(Domain::Scalar, "a");
    let b = st.var(Domain::Scalar, "b");
    let c = st.var(Domain::Scalar, "c");

    let cb = st.add(c, b);
    let cba = st.add(cb, a);
    assert_eq!(st.cpp(cba), "a + b + c");

    let cb_m = st.mul(c, b);
    let cba_m = st.mul(cb_m, a);
    assert_eq!(st.cpp(cba_m), "a * b * c");

    let ac = st.div(a, c);
    let acb = st.div(ac, b);
    assert_eq!(st.cpp(acb), "a / (b * c)");
}

#[test]
fn fourier() {
    let mut st = Store::new();
    let k = st.var(Domain::KSpaceScalar, "k");
    let back = st.ifft(k);
    assert_eq!(st.cpp(back), "ifft(Nx, Ny, Nz, dV, k)");

    let k2 = st.var(Domain::KSpaceScalar, "k2");
    let sum = st.add(k, k2);
    let back_sum = st.ifft(sum);
    assert_eq!(st.cpp(back_sum), "ifft(Nx, Ny, Nz, dV, temp)");

    let r = st.var(Domain::RealSpaceScalar, "r");
    let fwd = st.fft(r);
    assert_eq!(st.cpp(fwd), "fft(Nx, Ny, Nz, dV, r)");
}

#[test]
fn replacer() {
    let mut st = Store::new();
    let a = st.var(Domain::Scalar, "a");
    let b = st.var(Domain::Scalar, "b");
    let x = st.var(Domain::Scalar, "x");
    let y = st.var(Domain::Scalar, "y");

    let xy = st.add(x, y);
    let expected = st.cpp(xy);
    let ab = st.add(a, b);
    let mapped = st.map_leaves(ab, move |leaf| if leaf == a { x } else { y });
    assert_eq!(expected, st.cpp(mapped));
}

#[test]
fn replacer_merges_identical_images() {
    // Two distinct leaves rewritten to one identical replacement merge into a
    // single map entry with their coefficients added.
    let mut st = Store::new();
    let a = st.var(Domain::Scalar, "a");
    let b = st.var(Domain::Scalar, "b");
    let t = st.var(Domain::Scalar, "t");

    let ab = st.add(a, b);
    let merged = st.map_leaves(ab, move |_| t);
    assert_eq!(st.cpp(merged), "2 * t");

    // And opposite coefficients cancel to the canonical zero.
    let a_minus_b = st.sub(a, b);
    let cancelled = st.map_leaves(a_minus_b, move |_| t);
    let zero = st.from_int(Domain::Scalar, 0);
    assert_eq!(cancelled, zero);
    assert_eq!(st.cpp(cancelled), "0");
}

#[test]
fn test_stmts() {
    let mut st = Store::new();
    let x = st.var(Domain::Scalar, "x");
    let (stmts, back) = st.to_stmts(x);
    assert_eq!(stmts.len(), 0);
    assert_eq!(back, x);
}

#[test]
fn stmt_rendering() {
    let mut st = Store::new();

    // Allocating a Fourier-space variable under its own name emits only the
    // declaration.
    let k = st.var(Domain::KSpaceScalar, "k");
    let own = Stmt::alloc_k_space_scalar("k", k);
    assert_eq!(
        own.cpp(&st).unwrap(),
        "ComplexVector k(Nx*Ny*(int(Nz)/2+1);"
    );

    // Under a different name the allocation is invalid.
    let other = st.var(Domain::KSpaceScalar, "other");
    let wrong = Stmt::alloc_k_space_scalar("k", other);
    assert_eq!(wrong.cpp(&st), Err(ExprError::InvalidAllocation));

    // A scalar declaration.
    let a = st.var(Domain::Scalar, "a");
    let b = st.var(Domain::Scalar, "b");
    let s = st.add(a, b);
    let decl = Stmt::alloc_scalar("total", s);
    assert_eq!(decl.cpp(&st).unwrap(), "double total = a + b;\n");
}

#[test]
fn test_stmt_text() {
    assert_eq!(test_stmt(), "ComplexVector k(Nx*Ny*(int(Nz)/2+1);");
}

#[test]
fn coefficient_rendering() {
    let mut st = Store::new();
    let a = st.var(Domain::Scalar, "a");

    let five = st.from_int(Domain::Scalar, 5);
    assert_eq!(st.cpp(five), "5");
    let zero = st.from_int(Domain::Scalar, 0);
    assert_eq!(st.cpp(zero), "0");
    let one = st.from_int(Domain::Scalar, 1);
    assert_eq!(st.cpp(one), "1");
    let minus_three = st.from_int(Domain::Scalar, -3);
    assert_eq!(st.cpp(minus_three), "-3");

    let doubled = st.add(a, a);
    assert_eq!(st.cpp(doubled), "2 * a");
    let negated = st.neg(a);
    assert_eq!(st.cpp(negated), "-a");

    let sq = st.mul(a, a);
    assert_eq!(st.cpp(sq), "a * a");
    let cube = st.mul(sq, a);
    assert_eq!(st.cpp(cube), "pow(a, 3)");
    let inverse = st.recip(a);
    assert_eq!(st.cpp(inverse), "1 / (a)");

    let e = st.exp(a);
    assert_eq!(st.cpp(e), "exp(a)");
}

#[test]
fn field_rendering_modes() {
    let mut st = Store::new();

    // Without a reachable transform, a real-space expression renders as a
    // flat element-wise loop over its point-wise projection.
    let a = st.var(Domain::RealSpaceScalar, "a");
    let s = st.scalar_var(Domain::RealSpaceScalar, "s");
    let sum = st.add(a, s);
    assert_eq!(
        st.cpp(sum),
        "Vector temp(Nx*Ny*Nz);\nfor (int i = 0; i < Nx * Ny * Nz; i++)\n\ttemp[i] = a[i] + s\n"
    );

    // An integral renders as an accumulation loop; its body is a real-space
    // rendering.
    let total = st.integrate("total", a);
    assert_eq!(
        st.cpp(total),
        "for (int i = 0, integrand = 0.0; i < Nx * Ny * Nz; i++)\n\ttotal += Vector temp(Nx*Ny*Nz);\nfor (int i = 0; i < Nx * Ny * Nz; i++)\n\ttemp[i] = a[i]\n;\n"
    );
}

#[test]
fn embedded_scalar_renders_broadcast() {
    let mut st = Store::new();
    let s = st.var(Domain::Scalar, "s");
    let e = st.exp(s);
    let field = st.to_real_space(e).unwrap();
    assert_eq!(
        st.cpp(field),
        "Vector temp(Nx*Ny*Nz);\nfor (int i = 0; i < Nx * Ny * Nz; i++)\n\ttemp[i] = exp(s)\n"
    );
}
