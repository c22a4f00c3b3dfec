//! The statement builder: wraps a finished expression into a named
//! declaration plus loop/assignment text, the one structured interface the
//! code generator exposes outward.

use vstd::prelude::*;
use vstd::string::StringExecFns;
use crate::expr::{Domain, Expr, ExprError, Node, Store};
use crate::render::spec_render;

verus! {

/// A declaration of a named value or array, initialized from an expression's
/// rendering.
#[derive(Clone, Debug, PartialEq, Eq, Hash)]
pub enum Stmt {
    AllocScalar(String, Expr),
    AllocRealSpaceScalar(String, Expr),
    AllocKSpaceScalar(String, Expr),
}

/// A statement whose expression is interned and lies in the domain its
/// variant declares.
pub open spec fn stmt_wf(store: Store, s: Stmt) -> bool {
    match s {
        Stmt::AllocScalar(_, e) => store.valid(e) && store.dom_of(e) == Domain::Scalar,
        Stmt::AllocRealSpaceScalar(_, e) => store.valid(e) && store.dom_of(e)
            == Domain::RealSpaceScalar,
        Stmt::AllocKSpaceScalar(_, e) => store.valid(e) && store.dom_of(e)
            == Domain::KSpaceScalar,
    }
}

/// The text a statement emits.  Allocating a Fourier-space buffer for a bare
/// variable succeeds only under the variable's own name — and then emits only
/// the declaration, since the value is understood to be computed into that
/// buffer elsewhere; under any other name the allocation is invalid.
pub open spec fn spec_stmt_cpp(store: Store, s: Stmt) -> Result<Seq<char>, ExprError> {
    match s {
        Stmt::AllocKSpaceScalar(nm, e) => match store.node_of(e) {
            Node::Var(_, v) => if v@ == nm@ {
                Ok("ComplexVector "@ + nm@ + "(Nx*Ny*(int(Nz)/2+1);"@)
            } else {
                Err(ExprError::InvalidAllocation)
            },
            _ => Ok(
                "ComplexVector "@ + nm@ + "(Nx*Ny*(int(Nz)/2+1);\nfor (int i=0; i<Nx*Ny*Nz; i++) {\n"@
                    + nm@ + "[i] = "@ + spec_render(store, e) + ";\n}"@,
            ),
        },
        Stmt::AllocRealSpaceScalar(nm, e) => Ok(
            "Vector"@ + nm@ + "(Nx*Ny*Nz);\nfor (int i=0; i<Nx*Ny*Nz; i++) {\n"@ + nm@ + "[i] = "@
                + spec_render(store, e) + ";\n}"@,
        ),
        Stmt::AllocScalar(nm, e) => Ok("double "@ + nm@ + " = "@ + spec_render(store, e) + ";\n"@),
    }
}

impl Stmt {
    /// Declare a named scalar.
    pub fn alloc_scalar(name: &str, e: Expr) -> (r: Stmt)
        ensures
            r matches Stmt::AllocScalar(nm, x) && nm@ == name@ && x == e,
    {
        Stmt::AllocScalar(name.to_owned(), e)
    }

    /// Declare a named real-space array.
    pub fn alloc_real_space_scalar(name: &str, e: Expr) -> (r: Stmt)
        ensures
            r matches Stmt::AllocRealSpaceScalar(nm, x) && nm@ == name@ && x == e,
    {
        Stmt::AllocRealSpaceScalar(name.to_owned(), e)
    }

    /// Declare a named Fourier-space array.
    pub fn alloc_k_space_scalar(name: &str, e: Expr) -> (r: Stmt)
        ensures
            r matches Stmt::AllocKSpaceScalar(nm, x) && nm@ == name@ && x == e,
    {
        Stmt::AllocKSpaceScalar(name.to_owned(), e)
    }

    /// Render the statement.  Fails exactly when a Fourier-space buffer is
    /// allocated for a bare variable under a different name.
    pub fn cpp(&self, store: &Store) -> (r: Result<String, ExprError>)
        requires
            store.inv(),
            stmt_wf(*store, *self),
        ensures
            match r {
                Ok(s) => spec_stmt_cpp(*store, *self) is Ok && s@ == spec_stmt_cpp(
                    *store,
                    *self,
                )->Ok_0,
                Err(er) => spec_stmt_cpp(*store, *self) == Err::<Seq<char>, ExprError>(er),
            },
    {
        match self {
            Stmt::AllocKSpaceScalar(nm, e) => {
                match store.node(*e) {
                    Node::Var(_, v) => {
                        if v.eq(nm) {
                            let mut out = String::from_str("ComplexVector ");
                            out.append(nm.as_str());
                            out.append("(Nx*Ny*(int(Nz)/2+1);");
                            proof {
                                assert(out@ =~= "ComplexVector "@ + nm@
                                    + "(Nx*Ny*(int(Nz)/2+1);"@);
                            }
                            Ok(out)
                        } else {
                            Err(ExprError::InvalidAllocation)
                        }
                    },
                    _ => {
                        let mut out = String::from_str("ComplexVector ");
                        out.append(nm.as_str());
                        out.append("(Nx*Ny*(int(Nz)/2+1);\nfor (int i=0; i<Nx*Ny*Nz; i++) {\n");
                        out.append(nm.as_str());
                        out.append("[i] = ");
                        let body = store.cpp(*e);
                        out.append(body.as_str());
                        out.append(";\n}");
                        proof {
                            assert(out@ =~= spec_stmt_cpp(*store, *self)->Ok_0);
                        }
                        Ok(out)
                    },
                }
            },
            Stmt::AllocRealSpaceScalar(nm, e) => {
                let mut out = String::from_str("Vector");
                out.append(nm.as_str());
                out.append("(Nx*Ny*Nz);\nfor (int i=0; i<Nx*Ny*Nz; i++) {\n");
                out.append(nm.as_str());
                out.append("[i] = ");
                let body = store.cpp(*e);
                out.append(body.as_str());
                out.append(";\n}");
                proof {
                    assert(out@ =~= spec_stmt_cpp(*store, *self)->Ok_0);
                }
                Ok(out)
            },
            Stmt::AllocScalar(nm, e) => {
                let mut out = String::from_str("double ");
                out.append(nm.as_str());
                out.append(" = ");
                let body = store.cpp(*e);
                out.append(body.as_str());
                out.append(";\n");
                proof {
                    assert(out@ =~= spec_stmt_cpp(*store, *self)->Ok_0);
                }
                Ok(out)
            },
        }
    }
}

impl Store {
    /// The staged-materialization pipeline: intentionally a stub that emits
    /// no statements and hands the expression back unchanged.  Hoisting
    /// shared transform temporaries into an explicit statement sequence is
    /// future design work, not a behavior of this core.
    pub fn to_stmts(&self, e: Expr) -> (r: (Vec<Stmt>, Expr))
        requires
            self.inv(),
            self.valid(e),
        ensures
            r.0@.len() == 0,
            r.1 == e,
    {
        (Vec::new(), e)
    }
}

/// A small end-to-end exercise of the bare-variable allocation path:
/// allocating a Fourier-space variable under its own name emits only the
/// array declaration.
pub fn test_stmt() -> (r: String)
    ensures
        r@ == "ComplexVector "@ + "k"@ + "(Nx*Ny*(int(Nz)/2+1);"@,
{
    let mut st = Store::new();
    let k = st.var(Domain::KSpaceScalar, "k");
    let stmt = Stmt::alloc_k_space_scalar("k", k);
    let out = stmt.cpp(&st);
    match out {
        Ok(s) => s,
        Err(_) => {
            proof {
                assert(false);
            }
            String::new()
        },
    }
}

} // verus!
