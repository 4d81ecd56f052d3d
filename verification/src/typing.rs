//! A typing judgment: a context, an expression and a scheme.

use crate::ctxt::{ctxt_free, Ctxt};
use crate::expr::Expr;
use crate::types::{names_difference, poly_free, Poly};
use vstd::prelude::*;

verus! {

/// A context, an expression and the scheme inferred for it.
pub struct Typing(pub Ctxt, pub Expr, pub Poly);

impl Typing {
    /// The variables free in the scheme but not in the context.
    pub fn free(self) -> (r: Vec<String>)
        ensures
            r.deep_view().to_set() == poly_free(self.2@).difference(ctxt_free(self.0@)),
            r.deep_view().no_duplicates(),
    {
        let Typing(gamma, _, sigma) = self;
        let sigma_free = sigma.free();
        let gamma_free = gamma.free();
        names_difference(&sigma_free, &gamma_free)
    }
}

} // verus!
