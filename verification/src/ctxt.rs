//! Typing contexts: ordered, shadow-respecting mappings from names to
//! type schemes.

use crate::types::{contains_name, poly_free, Poly, SpecPoly};
use vstd::prelude::*;

verus! {

broadcast use vstd::set::group_set_axioms, vstd::seq::group_seq_axioms;

/// An ordered sequence of name-to-scheme bindings.  Lookup returns the
/// most recently added binding for a name; extending a context produces a
/// new value and leaves the old one untouched.
pub struct Ctxt(Vec<(String, Poly)>);

impl View for Ctxt {
    type V = Seq<(Seq<char>, SpecPoly)>;

    closed spec fn view(&self) -> Seq<(Seq<char>, SpecPoly)> {
        self.0.deep_view()
    }
}

/// The variables free in any scheme bound from position `i` on.
pub open spec fn ctxt_free_from(bs: Seq<(Seq<char>, SpecPoly)>, i: int) -> Set<Seq<char>>
    decreases bs.len() - i,
{
    if i < 0 || i >= bs.len() {
        Set::empty()
    } else {
        poly_free(bs[i].1).union(ctxt_free_from(bs, i + 1))
    }
}

/// The variables free in any scheme bound by the context.
pub open spec fn ctxt_free(bs: Seq<(Seq<char>, SpecPoly)>) -> Set<Seq<char>> {
    ctxt_free_from(bs, 0)
}

/// A variable is free in a context exactly when it is free in one of the
/// bound schemes.
pub proof fn lemma_ctxt_free_from(bs: Seq<(Seq<char>, SpecPoly)>, i: int)
    requires
        0 <= i <= bs.len(),
    ensures
        forall|x: Seq<char>|
            ctxt_free_from(bs, i).contains(x) <==> (exists|j: int|
                i <= j < bs.len() && (#[trigger] poly_free(bs[j].1)).contains(x)),
    decreases bs.len() - i,
{
    if i < bs.len() {
        lemma_ctxt_free_from(bs, i + 1);
        assert forall|x: Seq<char>| ctxt_free_from(bs, i).contains(x) implies (exists|j: int|
            i <= j < bs.len() && (#[trigger] poly_free(bs[j].1)).contains(x)) by {
            if poly_free(bs[i].1).contains(x) {
                assert(i <= i < bs.len() && poly_free(bs[i].1).contains(x));
            } else {
                assert(ctxt_free_from(bs, i + 1).contains(x));
            }
        }
        assert forall|x: Seq<char>|
            (exists|j: int| i <= j < bs.len() && (#[trigger] poly_free(bs[j].1)).contains(x))
            implies ctxt_free_from(bs, i).contains(x) by {
            let j = choose|j: int| i <= j < bs.len() && (#[trigger] poly_free(bs[j].1)).contains(x);
            if j > i {
                assert(ctxt_free_from(bs, i + 1).contains(x));
            }
        }
    }
}

/// Binding one more name shadows it and leaves the others alone.
pub proof fn lemma_lookup_push(
    bs: Seq<(Seq<char>, SpecPoly)>,
    x: Seq<char>,
    sigma: SpecPoly,
    y: Seq<char>,
)
    ensures
        lookup(bs.push((x, sigma)), y) == if y == x {
            Some(sigma)
        } else {
            lookup(bs, y)
        },
{
    let bs2 = bs.push((x, sigma));
    assert(bs2.last() == (x, sigma));
    assert(bs2.drop_last() =~= bs);
}

/// The scheme most recently bound to `x`, if any.
pub open spec fn lookup(bs: Seq<(Seq<char>, SpecPoly)>, x: Seq<char>) -> Option<SpecPoly>
    decreases bs.len(),
{
    if bs.len() == 0 {
        None
    } else if bs.last().0 == x {
        Some(bs.last().1)
    } else {
        lookup(bs.drop_last(), x)
    }
}

impl Ctxt {
    /// The empty context.
    pub fn new() -> (r: Ctxt)
        ensures
            r@.len() == 0,
    {
        let bindings: Vec<(String, Poly)> = Vec::new();
        Ctxt(bindings)
    }

    /// The list of variables free in any bound scheme, without
    /// duplicates.
    #[verifier::loop_isolation(false)]
    pub fn free(&self) -> (r: Vec<String>)
        ensures
            r.deep_view().to_set() == ctxt_free(self@),
            r.deep_view().no_duplicates(),
    {
        proof {
            lemma_ctxt_free_from(self@, 0);
        }
        let mut acc: Vec<String> = Vec::new();
        let mut i: usize = 0;
        while i < self.0.len()
            invariant
                i <= self.0.len(),
                self@.len() == self.0.len(),
                acc.deep_view().no_duplicates(),
                forall|n: Seq<char>|
                    acc.deep_view().to_set().contains(n) <==> (exists|j: int|
                        0 <= j < i && (#[trigger] poly_free(self@[j].1)).contains(n)),
            decreases self.0.len() - i,
        {
            let sigma_free = self.0[i].1.free();
            proof {
                assert(self@[i as int] == self.0@[i as int].deep_view());
                assert(self.0@[i as int].1@ == self@[i as int].1);
            }
            let mut k: usize = 0;
            while k < sigma_free.len()
                invariant
                    k <= sigma_free.len(),
                    i < self.0.len(),
                    self@.len() == self.0.len(),
                    acc.deep_view().no_duplicates(),
                    sigma_free.deep_view().to_set() == poly_free(self@[i as int].1),
                    forall|n: Seq<char>|
                        acc.deep_view().to_set().contains(n) <==> ((exists|j: int|
                            0 <= j < i && (#[trigger] poly_free(self@[j].1)).contains(n)) || (exists|
                            m: int,
                        |
                            0 <= m < k && #[trigger] sigma_free.deep_view()[m] == n)),
                decreases sigma_free.len() - k,
            {
                if !contains_name(&acc, &sigma_free[k]) {
                    proof {
                        assert(!acc.deep_view().contains(sigma_free.deep_view()[k as int])) by {
                            if acc.deep_view().contains(sigma_free.deep_view()[k as int]) {
                                let jj = choose|jj: int|
                                    0 <= jj < acc.deep_view().len() && acc.deep_view()[jj]
                                        == sigma_free.deep_view()[k as int];
                            }
                        };
                        crate::types::lemma_push_name_set(
                            acc.deep_view(),
                            sigma_free.deep_view()[k as int],
                        );
                    }
                    let ghost old_a = acc.deep_view();
                    acc.push(sigma_free[k].clone());
                    proof {
                        assert(acc.deep_view() =~= old_a.push(sigma_free.deep_view()[k as int]));
                    }
                } else {
                    proof {
                        assert(acc.deep_view().to_set().contains(
                            sigma_free.deep_view()[k as int],
                        )) by {
                            let jj = choose|jj: int|
                                0 <= jj < acc.deep_view().len() && acc.deep_view()[jj]
                                    == sigma_free.deep_view()[k as int];
                        }
                    }
                }
                k = k + 1;
            }
            proof {
                assert forall|n: Seq<char>|
                    acc.deep_view().to_set().contains(n) <==> ((exists|j: int|
                        0 <= j < i + 1 && (#[trigger] poly_free(self@[j].1)).contains(n))) by {
                    if exists|m: int|
                        0 <= m < sigma_free.deep_view().len() && sigma_free.deep_view()[m] == n {
                        let m = choose|m: int|
                            0 <= m < sigma_free.deep_view().len() && sigma_free.deep_view()[m] == n;
                        assert(sigma_free.deep_view().to_set().contains(n));
                    }
                    if poly_free(self@[i as int].1).contains(n) {
                        let mm = choose|mm: int|
                            0 <= mm < sigma_free.deep_view().len() && sigma_free.deep_view()[mm]
                                == n;
                        assert(sigma_free.deep_view()[mm] == n);
                    }
                }
            }
            i = i + 1;
        }
        proof {
            assert(acc.deep_view().to_set() =~= ctxt_free(self@));
        }
        acc
    }

    /// The scheme most recently bound to `x`, if any.
    #[verifier::loop_isolation(false)]
    pub fn get(&self, x: &String) -> (r: Option<&Poly>)
        ensures
            match r {
                Some(sigma) => lookup(self@, x@) == Some(sigma@),
                None => lookup(self@, x@) is None,
            },
    {
        proof {
            assert(self@.subrange(0, self@.len() as int) =~= self@);
        }
        let mut i: usize = self.0.len();
        while i > 0
            invariant
                i <= self.0.len(),
                self@.len() == self.0.len(),
                lookup(self@, x@) == lookup(self@.subrange(0, i as int), x@),
            decreases i,
        {
            i = i - 1;
            proof {
                assert(self@[i as int] == self.0@[i as int].deep_view());
                assert(self@.subrange(0, i + 1).last() == self@[i as int]);
                assert(self@.subrange(0, i + 1).drop_last() =~= self@.subrange(0, i as int));
            }
            if self.0[i].0 == *x {
                return Some(&self.0[i].1);
            }
        }
        proof {
            assert(self@.subrange(0, 0) =~= Seq::<(Seq<char>, SpecPoly)>::empty());
        }
        None
    }

    /// Extends the context with `x` bound to `sigma`, leaving `self`
    /// untouched.
    pub fn bind(&self, x: &str, sigma: Poly) -> (r: Ctxt)
        ensures
            r@ == self@.push((x@, sigma@)),
    {
        let mut bindings: Vec<(String, Poly)> = Vec::new();
        let mut i: usize = 0;
        while i < self.0.len()
            invariant
                i <= self.0.len(),
                bindings@.len() == i,
                forall|j: int|
                    0 <= j < i ==> bindings.deep_view()[j] == #[trigger] self.0.deep_view()[j],
            decreases self.0.len() - i,
        {
            let pair = (self.0[i].0.clone(), self.0[i].1.clone());
            bindings.push(pair);
            i = i + 1;
        }
        let name: String = x.to_owned();
        let ghost old_b = bindings.deep_view();
        proof {
            assert(old_b =~= self@);
        }
        bindings.push((name, sigma));
        proof {
            assert(bindings.deep_view() =~= self@.push((x@, sigma@)));
        }
        Ctxt(bindings)
    }

    /// Whether a name has a binding.
    pub open spec fn binds(bs: Seq<(Seq<char>, SpecPoly)>, x: Seq<char>) -> bool {
        lookup(bs, x) is Some
    }
}

} // verus!
