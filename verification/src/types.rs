//! The type algebra: monotypes, type schemes, free variables and
//! substitution.

use crate::ctxt::Ctxt;
use vstd::prelude::*;

verus! {

broadcast use
    vstd::std_specs::vec::axiom_vec_index_decreases,
    vstd::seq::axiom_seq_index_decreases,
    vstd::set::group_set_axioms,
    vstd::seq::group_seq_axioms;

/// A monotype: either a bare type variable, or an application of a named
/// type constructor to an ordered sequence of argument monotypes.  The
/// binary function constructor is the distinguished name built by
/// [`Mono::arrow`].
#[derive(Debug, Eq)]
pub enum Mono {
    Var(String),
    App(String, Vec<Mono>),
}

/// The mathematical shape of a [`Mono`]: names are sequences of
/// characters, constructor arguments a sequence of shapes.
pub enum SpecMono {
    Var(Seq<char>),
    App(Seq<char>, Seq<SpecMono>),
}

/// The shape of the argument list `taus` from position `i` on.
pub open spec fn monos_view_from(taus: Vec<Mono>, i: int) -> Seq<SpecMono>
    decreases taus, taus@.len() - i,
{
    if i < 0 || i >= taus@.len() {
        Seq::empty()
    } else {
        seq![mono_view(taus[i])] + monos_view_from(taus, i + 1)
    }
}

/// The shape of a whole argument list.
pub open spec fn monos_view(taus: Vec<Mono>) -> Seq<SpecMono>
    decreases taus, taus@.len() + 1,
{
    monos_view_from(taus, 0)
}

/// The shape of a monotype.
pub open spec fn mono_view(tau: Mono) -> SpecMono
    decreases tau, 0int,
{
    match tau {
        Mono::Var(alpha) => SpecMono::Var(alpha@),
        Mono::App(c, taus) => SpecMono::App(c@, monos_view(taus)),
    }
}

impl View for Mono {
    type V = SpecMono;

    open spec fn view(&self) -> SpecMono {
        mono_view(*self)
    }
}

impl DeepView for Mono {
    type V = SpecMono;

    open spec fn deep_view(&self) -> SpecMono {
        mono_view(*self)
    }
}

impl Clone for Mono {
    /// Cloning preserves the shape of a monotype.
    #[verifier::loop_isolation(false)]
    fn clone(&self) -> (r: Mono)
        ensures
            r@ == self@,
        decreases self,
    {
        match self {
            Mono::Var(alpha) => Mono::Var(alpha.clone()),
            Mono::App(c, taus) => {
                let mut args: Vec<Mono> = Vec::new();
                let mut i: usize = 0;
                while i < taus.len()
                    invariant
                        i <= taus.len(),
                        args@.len() == i,
                        forall|j: int|
                            0 <= j < i ==> mono_view(args@[j]) == mono_view(#[trigger] taus@[j]),
                    decreases taus.len() - i,
                {
                    proof {
                        assert(*taus == self->App_1);
                        assert(decreases_to!(self => self->App_1));
                        assert(decreases_to!(*taus => taus[i as int]));
                    }
                    let arg = taus[i].clone();
                    args.push(arg);
                    i = i + 1;
                }
                proof {
                    lemma_monos_view_eq(args, *taus);
                }
                Mono::App(c.clone(), args)
            },
        }
    }
}

/// Structural equality of monotypes, at the level of their shapes.
#[verifier::loop_isolation(false)]
fn mono_eq(a: &Mono, b: &Mono) -> (r: bool)
    ensures
        r == (a@ == b@),
    decreases a,
{
    match (a, b) {
        (Mono::Var(x), Mono::Var(y)) => {
            proof {
                assert(a@ == SpecMono::Var(x@));
                assert(b@ == SpecMono::Var(y@));
            }
            *x == *y
        },
        (Mono::App(c, ts), Mono::App(d, us)) => {
            if !(*c == *d) || ts.len() != us.len() {
                proof {
                    lemma_monos_view_from(*ts, 0);
                    lemma_monos_view_from(*us, 0);
                    assert(a@ == SpecMono::App(c@, monos_view(*ts)));
                    assert(b@ == SpecMono::App(d@, monos_view(*us)));
                }
                false
            } else {
                let mut i: usize = 0;
                while i < ts.len()
                    invariant
                        i <= ts.len(),
                        ts@.len() == us@.len(),
                        forall|j: int|
                            0 <= j < i ==> mono_view(ts@[j]) == mono_view(#[trigger] us@[j]),
                    decreases ts.len() - i,
                {
                    proof {
                        assert(*ts == a->App_1);
                        assert(decreases_to!(a => a->App_1));
                        assert(decreases_to!(*ts => ts[i as int]));
                    }
                    if !mono_eq(&ts[i], &us[i]) {
                        proof {
                            lemma_monos_view_from(*ts, 0);
                            lemma_monos_view_from(*us, 0);
                            assert(a@ == SpecMono::App(c@, monos_view(*ts)));
                            assert(b@ == SpecMono::App(d@, monos_view(*us)));
                            assert(monos_view(*ts)[i as int] != monos_view(*us)[i as int]);
                        }
                        return false;
                    }
                    i = i + 1;
                }
                proof {
                    lemma_monos_view_eq(*ts, *us);
                    assert(a@ == SpecMono::App(c@, monos_view(*ts)));
                    assert(b@ == SpecMono::App(d@, monos_view(*us)));
                }
                true
            }
        },
        (Mono::Var(x), Mono::App(d, us)) => {
            proof {
                assert(a@ == SpecMono::Var(x@));
                assert(b@ == SpecMono::App(d@, monos_view(*us)));
            }
            false
        },
        (Mono::App(c, ts), Mono::Var(y)) => {
            proof {
                assert(a@ == SpecMono::App(c@, monos_view(*ts)));
                assert(b@ == SpecMono::Var(y@));
            }
            false
        },
    }
}

impl PartialEq for Mono {
    fn eq(&self, other: &Mono) -> bool {
        mono_eq(self, other)
    }
}

impl vstd::std_specs::cmp::PartialEqSpecImpl for Mono {
    open spec fn obeys_eq_spec() -> bool {
        true
    }

    open spec fn eq_spec(&self, other: &Mono) -> bool {
        self@ == other@
    }
}

/// Relies on `String::push`: appends the given character to the end of
/// the string.
#[verifier::external_body]
pub(crate) fn string_push(s: &mut String, c: char)
    ensures
        final(s)@ == old(s)@.push(c),
{
    s.push(c);
}

/// The name of the built-in binary function constructor.
pub open spec fn arrow_str() -> Seq<char> {
    seq!['\u{2192}']
}

/// The set of type variables occurring anywhere in `t`.
pub open spec fn free_of(t: SpecMono) -> Set<Seq<char>>
    decreases t, 0int,
{
    match t {
        SpecMono::Var(alpha) => Set::empty().insert(alpha),
        SpecMono::App(c, ts) => free_of_seq_from(ts, 0),
    }
}

/// The set of type variables occurring in `ts` from position `i` on.
pub open spec fn free_of_seq_from(ts: Seq<SpecMono>, i: int) -> Set<Seq<char>>
    decreases ts, ts.len() - i,
{
    if i < 0 || i >= ts.len() {
        Set::empty()
    } else {
        free_of(ts[i]).union(free_of_seq_from(ts, i + 1))
    }
}

/// A variable is free in an argument list exactly when it is free in one
/// of its entries.
pub proof fn lemma_free_of_seq_from(ts: Seq<SpecMono>, i: int)
    requires
        0 <= i <= ts.len(),
    ensures
        forall|x: Seq<char>|
            free_of_seq_from(ts, i).contains(x) <==> (exists|j: int|
                i <= j < ts.len() && (#[trigger] free_of(ts[j])).contains(x)),
    decreases ts.len() - i,
{
    if i < ts.len() {
        lemma_free_of_seq_from(ts, i + 1);
        assert forall|x: Seq<char>| free_of_seq_from(ts, i).contains(x) implies (exists|j: int|
            i <= j < ts.len() && (#[trigger] free_of(ts[j])).contains(x)) by {
            if free_of(ts[i]).contains(x) {
                assert(i <= i < ts.len() && free_of(ts[i]).contains(x));
            } else {
                assert(free_of_seq_from(ts, i + 1).contains(x));
            }
        }
        assert forall|x: Seq<char>|
            (exists|j: int| i <= j < ts.len() && (#[trigger] free_of(ts[j])).contains(x))
            implies free_of_seq_from(ts, i).contains(x) by {
            let j = choose|j: int| i <= j < ts.len() && (#[trigger] free_of(ts[j])).contains(x);
            if j > i {
                assert(free_of_seq_from(ts, i + 1).contains(x));
            }
        }
    }
}

/// The set of type variables occurring in the first `i` entries of `ts`.
pub open spec fn free_of_seq_upto(ts: Seq<SpecMono>, i: int) -> Set<Seq<char>>
    decreases i,
{
    if i <= 0 {
        Set::empty()
    } else {
        free_of_seq_upto(ts, i - 1).union(free_of(ts[i - 1]))
    }
}

/// A full prefix covers the same variables as the whole list.
pub proof fn lemma_free_of_seq_upto_full(ts: Seq<SpecMono>)
    ensures
        free_of_seq_upto(ts, ts.len() as int) == free_of_seq_from(ts, 0),
{
    lemma_free_of_seq_upto(ts, ts.len() as int);
    lemma_free_of_seq_from(ts, 0);
    assert(free_of_seq_upto(ts, ts.len() as int) =~= free_of_seq_from(ts, 0));
}

/// A variable is free in a prefix exactly when it is free in one of its
/// entries.
pub proof fn lemma_free_of_seq_upto(ts: Seq<SpecMono>, i: int)
    requires
        0 <= i <= ts.len(),
    ensures
        forall|x: Seq<char>|
            free_of_seq_upto(ts, i).contains(x) <==> (exists|j: int|
                0 <= j < i && (#[trigger] free_of(ts[j])).contains(x)),
    decreases i,
{
    if i > 0 {
        lemma_free_of_seq_upto(ts, i - 1);
        assert forall|x: Seq<char>| free_of_seq_upto(ts, i).contains(x) implies (exists|j: int|
            0 <= j < i && (#[trigger] free_of(ts[j])).contains(x)) by {
            if free_of(ts[i - 1]).contains(x) {
                assert(0 <= i - 1 < i && free_of(ts[i - 1]).contains(x));
            } else {
                assert(free_of_seq_upto(ts, i - 1).contains(x));
            }
        }
        assert forall|x: Seq<char>|
            (exists|j: int| 0 <= j < i && (#[trigger] free_of(ts[j])).contains(x))
            implies free_of_seq_upto(ts, i).contains(x) by {
            let j = choose|j: int| 0 <= j < i && (#[trigger] free_of(ts[j])).contains(x);
            if j < i - 1 {
                assert(free_of_seq_upto(ts, i - 1).contains(x));
            }
        }
    }
}

/// Free-variable sets are finite.
pub proof fn lemma_free_of_finite(t: SpecMono)
    ensures
        free_of(t).finite(),
    decreases t, 0int,
{
    match t {
        SpecMono::Var(alpha) => {},
        SpecMono::App(c, ts) => {
            lemma_free_of_seq_from_finite(ts, 0);
        },
    }
}

/// Free-variable sets of argument lists are finite.
pub proof fn lemma_free_of_seq_from_finite(ts: Seq<SpecMono>, i: int)
    ensures
        free_of_seq_from(ts, i).finite(),
    decreases ts, ts.len() - i,
{
    if 0 <= i < ts.len() {
        lemma_free_of_finite(ts[i]);
        lemma_free_of_seq_from_finite(ts, i + 1);
    }
}

/// The names of `acc` followed by the variables of `t` that are not
/// yet among them, in first-occurrence order.
pub open spec fn collect_spec(t: SpecMono, acc: Seq<Seq<char>>) -> Seq<Seq<char>>
    decreases t, 0int,
{
    match t {
        SpecMono::Var(alpha) => if acc.contains(alpha) {
            acc
        } else {
            acc.push(alpha)
        },
        SpecMono::App(c, ts) => collect_spec_seq(ts, acc, 0),
    }
}

/// Collects the variables of the entries of `ts` from position `i` on,
/// left to right.
pub open spec fn collect_spec_seq(ts: Seq<SpecMono>, acc: Seq<Seq<char>>, i: int) -> Seq<
    Seq<char>,
>
    decreases ts, ts.len() - i,
{
    if i < 0 || i >= ts.len() {
        acc
    } else {
        collect_spec_seq(ts, collect_spec(ts[i], acc), i + 1)
    }
}

/// The variables of `t`, in first-occurrence order.
pub open spec fn free_list(t: SpecMono) -> Seq<Seq<char>> {
    collect_spec(t, Seq::empty())
}

/// The first `i` names of `a` that are not in `bs`, in the order of
/// `a`.
pub open spec fn diff_upto(a: Seq<Seq<char>>, bs: Set<Seq<char>>, i: int) -> Seq<Seq<char>>
    decreases i,
{
    if i <= 0 {
        Seq::empty()
    } else if bs.contains(a[i - 1]) {
        diff_upto(a, bs, i - 1)
    } else {
        diff_upto(a, bs, i - 1).push(a[i - 1])
    }
}

/// The names of `a` that are not in `bs`, in the order of `a`.
pub open spec fn name_diff(a: Seq<Seq<char>>, bs: Set<Seq<char>>) -> Seq<Seq<char>> {
    diff_upto(a, bs, a.len() as int)
}

/// `t` with every occurrence of the variable `alpha` replaced by `target`.
pub open spec fn subst(t: SpecMono, alpha: Seq<char>, target: SpecMono) -> SpecMono
    decreases t, 0int,
{
    match t {
        SpecMono::Var(beta) => if beta == alpha {
            target
        } else {
            t
        },
        SpecMono::App(c, ts) => SpecMono::App(c, subst_seq_from(ts, alpha, target, 0)),
    }
}

/// The entries of `ts` from position `i` on, each with `alpha` replaced by
/// `target`.
pub open spec fn subst_seq_from(
    ts: Seq<SpecMono>,
    alpha: Seq<char>,
    target: SpecMono,
    i: int,
) -> Seq<SpecMono>
    decreases ts, ts.len() - i,
{
    if i < 0 || i >= ts.len() {
        Seq::empty()
    } else {
        seq![subst(ts[i], alpha, target)] + subst_seq_from(ts, alpha, target, i + 1)
    }
}

/// Substitution rewrites an argument list entry by entry.
pub proof fn lemma_subst_seq_from(ts: Seq<SpecMono>, alpha: Seq<char>, target: SpecMono, i: int)
    requires
        0 <= i <= ts.len(),
    ensures
        subst_seq_from(ts, alpha, target, i).len() == ts.len() - i,
        forall|j: int|
            0 <= j < ts.len() - i ==> subst_seq_from(ts, alpha, target, i)[j] == subst(
                #[trigger] ts[i + j],
                alpha,
                target,
            ),
    decreases ts.len() - i,
{
    if i < ts.len() {
        lemma_subst_seq_from(ts, alpha, target, i + 1);
        assert forall|j: int|
            0 <= j < ts.len() - i implies subst_seq_from(ts, alpha, target, i)[j] == subst(
            #[trigger] ts[i + j],
            alpha,
            target,
        ) by {
            if j > 0 {
                assert(subst_seq_from(ts, alpha, target, i)[j] == subst_seq_from(
                    ts,
                    alpha,
                    target,
                    i + 1,
                )[j - 1]);
                assert(subst_seq_from(ts, alpha, target, i + 1)[j - 1] == subst(
                    ts[i + 1 + (j - 1)],
                    alpha,
                    target,
                ));
            }
        }
    }
}

/// The position of the first entry of `names` from `i` on that equals
/// `x`, or `names.len()` if there is none.
pub open spec fn first_index_from(names: Seq<Seq<char>>, x: Seq<char>, i: int) -> int
    decreases names.len() - i,
{
    if i < 0 || i >= names.len() {
        names.len() as int
    } else if names[i] == x {
        i
    } else {
        first_index_from(names, x, i + 1)
    }
}

/// What the first matching position means.
pub proof fn lemma_first_index_from(names: Seq<Seq<char>>, x: Seq<char>, i: int)
    requires
        0 <= i <= names.len(),
    ensures
        i <= first_index_from(names, x, i) <= names.len(),
        first_index_from(names, x, i) < names.len() ==> names[first_index_from(names, x, i)]
            == x,
        forall|j: int| i <= j < first_index_from(names, x, i) ==> #[trigger] names[j] != x,
    decreases names.len() - i,
{
    if i < names.len() && names[i] != x {
        lemma_first_index_from(names, x, i + 1);
    }
}

/// `t` with each variable quantified in `alphas` replaced by the monotype
/// at the matching position of `news`, all positions read simultaneously.
pub open spec fn inst_body(t: SpecMono, alphas: Seq<Seq<char>>, news: Seq<SpecMono>) -> SpecMono
    decreases t, 0int,
{
    match t {
        SpecMono::Var(beta) => {
            let i = first_index_from(alphas, beta, 0);
            if i < alphas.len() && i < news.len() {
                news[i]
            } else {
                t
            }
        },
        SpecMono::App(c, ts) => SpecMono::App(c, inst_seq_from(ts, alphas, news, 0)),
    }
}

/// The entries of `ts` from position `i` on, each instantiated.
pub open spec fn inst_seq_from(
    ts: Seq<SpecMono>,
    alphas: Seq<Seq<char>>,
    news: Seq<SpecMono>,
    i: int,
) -> Seq<SpecMono>
    decreases ts, ts.len() - i,
{
    if i < 0 || i >= ts.len() {
        Seq::empty()
    } else {
        seq![inst_body(ts[i], alphas, news)] + inst_seq_from(ts, alphas, news, i + 1)
    }
}

/// Instantiation rewrites an argument list entry by entry.
pub proof fn lemma_inst_seq_from(
    ts: Seq<SpecMono>,
    alphas: Seq<Seq<char>>,
    news: Seq<SpecMono>,
    i: int,
)
    requires
        0 <= i <= ts.len(),
    ensures
        inst_seq_from(ts, alphas, news, i).len() == ts.len() - i,
        forall|j: int|
            0 <= j < ts.len() - i ==> inst_seq_from(ts, alphas, news, i)[j] == inst_body(
                #[trigger] ts[i + j],
                alphas,
                news,
            ),
    decreases ts.len() - i,
{
    if i < ts.len() {
        lemma_inst_seq_from(ts, alphas, news, i + 1);
        assert forall|j: int|
            0 <= j < ts.len() - i implies inst_seq_from(ts, alphas, news, i)[j] == inst_body(
            #[trigger] ts[i + j],
            alphas,
            news,
        ) by {
            if j > 0 {
                assert(inst_seq_from(ts, alphas, news, i)[j] == inst_seq_from(
                    ts,
                    alphas,
                    news,
                    i + 1,
                )[j - 1]);
                assert(inst_seq_from(ts, alphas, news, i + 1)[j - 1] == inst_body(
                    ts[i + 1 + (j - 1)],
                    alphas,
                    news,
                ));
            }
        }
    }
}

/// Whether the list `v` holds the name `x`.
pub fn contains_name(v: &Vec<String>, x: &String) -> (r: bool)
    ensures
        r == v.deep_view().contains(x@),
{
    let mut i: usize = 0;
    while i < v.len()
        invariant
            i <= v.len(),
            forall|j: int| 0 <= j < i ==> v.deep_view()[j] != x@,
        decreases v.len() - i,
    {
        if v[i] == *x {
            proof {
                assert(v.deep_view()[i as int] == x@);
            }
            return true;
        }
        i = i + 1;
    }
    false
}

impl Mono {
    /// The binary function type from `tau1` to `tau2`.
    pub fn arrow(tau1: Mono, tau2: Mono) -> (r: Mono)
        ensures
            r@ == SpecMono::App(arrow_str(), seq![tau1@, tau2@]),
    {
        let ghost v1 = tau1@;
        let ghost v2 = tau2@;
        let mut args: Vec<Mono> = Vec::new();
        args.push(tau1);
        args.push(tau2);
        proof {
            reveal_strlit("\u{2192}");
            lemma_monos_view_from(args, 0);
            assert(monos_view(args) =~= seq![v1, v2]);
            assert("\u{2192}"@ =~= arrow_str());
        }
        Mono::App("\u{2192}".to_owned(), args)
    }

    /// The application of the constructor named `c` to no arguments.
    pub fn nullary(c: String) -> (r: Mono)
        ensures
            r@ == SpecMono::App(c@, Seq::<SpecMono>::empty()),
    {
        let args: Vec<Mono> = Vec::new();
        proof {
            lemma_monos_view_from(args, 0);
            assert(monos_view(args) =~= Seq::<SpecMono>::empty());
        }
        Mono::App(c, args)
    }

    /// Whether the variable `alpha` occurs anywhere in `self`.
    #[verifier::loop_isolation(false)]
    pub fn occurs(&self, alpha: &String) -> (r: bool)
        ensures
            r == free_of(self@).contains(alpha@),
        decreases self,
    {
        match self {
            Mono::Var(beta) => {
                proof {
                    assert(self@ == SpecMono::Var(beta@));
                    assert(free_of(self@) == Set::empty().insert(beta@));
                }
                *beta == *alpha
            },
            Mono::App(c, ts) => {
                proof {
                    assert(self@ == SpecMono::App(c@, monos_view(*ts)));
                    assert(free_of(self@) == free_of_seq_from(monos_view(*ts), 0));
                    lemma_monos_view_from(*ts, 0);
                    lemma_free_of_seq_from(monos_view(*ts), 0);
                }
                let mut i: usize = 0;
                while i < ts.len()
                    invariant
                        i <= ts.len(),
                        forall|j: int|
                            0 <= j < i ==> !free_of(mono_view(#[trigger] ts@[j])).contains(alpha@),
                    decreases ts.len() - i,
                {
                    proof {
                        assert(*ts == self->App_1);
                        assert(decreases_to!(self => self->App_1));
                        assert(decreases_to!(*ts => ts[i as int]));
                    }
                    if ts[i].occurs(alpha) {
                        proof {
                            assert(monos_view(*ts)[i as int] == mono_view(ts@[i as int]));
                            assert(free_of(monos_view(*ts)[i as int]).contains(alpha@));
                        }
                        return true;
                    }
                    i = i + 1;
                }
                proof {
                    assert forall|j: int| 0 <= j < monos_view(*ts).len() implies !(#[trigger] free_of(
                        monos_view(*ts)[j],
                    )).contains(alpha@) by {
                        assert(monos_view(*ts)[j] == mono_view(ts@[j]));
                    }
                }
                false
            },
        }
    }

    /// `self` with every occurrence of the variable `alpha` replaced by
    /// `beta`.
    #[verifier::loop_isolation(false)]
    pub fn replace(&self, alpha: &String, beta: &Mono) -> (r: Mono)
        ensures
            r@ == subst(self@, alpha@, beta@),
        decreases self,
    {
        match self {
            Mono::Var(gamma) => {
                proof {
                    assert(self@ == SpecMono::Var(gamma@));
                }
                if *gamma == *alpha {
                    beta.clone()
                } else {
                    Mono::Var(gamma.clone())
                }
            },
            Mono::App(c, ts) => {
                let mut args: Vec<Mono> = Vec::new();
                let mut i: usize = 0;
                while i < ts.len()
                    invariant
                        i <= ts.len(),
                        args@.len() == i,
                        forall|j: int|
                            0 <= j < i ==> mono_view(args@[j]) == subst(
                                mono_view(#[trigger] ts@[j]),
                                alpha@,
                                beta@,
                            ),
                    decreases ts.len() - i,
                {
                    proof {
                        assert(*ts == self->App_1);
                        assert(decreases_to!(self => self->App_1));
                        assert(decreases_to!(*ts => ts[i as int]));
                    }
                    let arg = ts[i].replace(alpha, beta);
                    args.push(arg);
                    i = i + 1;
                }
                proof {
                    assert(self@ == SpecMono::App(c@, monos_view(*ts)));
                    lemma_monos_view_from(args, 0);
                    lemma_monos_view_from(*ts, 0);
                    lemma_subst_seq_from(monos_view(*ts), alpha@, beta@, 0);
                    assert forall|j: int| 0 <= j < ts@.len() implies monos_view(args)[j]
                        == subst_seq_from(monos_view(*ts), alpha@, beta@, 0)[j] by {
                        assert(monos_view(args)[j] == mono_view(args@[j]));
                        assert(subst_seq_from(monos_view(*ts), alpha@, beta@, 0)[j] == subst(
                            monos_view(*ts)[0 + j],
                            alpha@,
                            beta@,
                        ));
                        assert(monos_view(*ts)[j] == mono_view(ts@[j]));
                    }
                    assert(monos_view(args) =~= subst_seq_from(monos_view(*ts), alpha@, beta@, 0));
                }
                Mono::App(c.clone(), args)
            },
        }
    }
}

/// The number of nodes in `t`.
pub open spec fn mono_size(t: SpecMono) -> nat
    decreases t, 0int,
{
    match t {
        SpecMono::Var(alpha) => 1,
        SpecMono::App(c, ts) => 1 + mono_size_seq_from(ts, 0),
    }
}

/// The total number of nodes in the entries of `ts` from position `i` on.
pub open spec fn mono_size_seq_from(ts: Seq<SpecMono>, i: int) -> nat
    decreases ts, ts.len() - i,
{
    if i < 0 || i >= ts.len() {
        0
    } else {
        mono_size(ts[i]) + mono_size_seq_from(ts, i + 1)
    }
}

/// Each entry counts no more nodes than the whole list.
pub proof fn lemma_mono_size_seq_from(ts: Seq<SpecMono>, i: int)
    requires
        0 <= i <= ts.len(),
    ensures
        forall|j: int| i <= j < ts.len() ==> mono_size(#[trigger] ts[j]) <= mono_size_seq_from(ts, i),
    decreases ts.len() - i,
{
    if i < ts.len() {
        lemma_mono_size_seq_from(ts, i + 1);
    }
}

/// Substituting a variable that does not occur changes nothing.
pub proof fn lemma_subst_id(t: SpecMono, alpha: Seq<char>, target: SpecMono)
    requires
        !free_of(t).contains(alpha),
    ensures
        subst(t, alpha, target) == t,
    decreases t, 0int,
{
    match t {
        SpecMono::Var(beta) => {
            assert(free_of(t) == Set::empty().insert(beta));
        },
        SpecMono::App(c, ts) => {
            lemma_free_of_seq_from(ts, 0);
            lemma_subst_seq_from(ts, alpha, target, 0);
            lemma_subst_id_seq(ts, alpha, target, 0);
            assert forall|j: int| 0 <= j < ts.len() implies subst_seq_from(ts, alpha, target, 0)[j]
                == ts[j] by {
                assert(subst_seq_from(ts, alpha, target, 0)[j] == subst(ts[0 + j], alpha, target));
                assert(subst(ts[j], alpha, target) == ts[j]);
            }
            assert(subst_seq_from(ts, alpha, target, 0) =~= ts);
        },
    }
}

/// Substitution of an absent variable changes no entry from `i` on.
pub proof fn lemma_subst_id_seq(ts: Seq<SpecMono>, alpha: Seq<char>, target: SpecMono, i: int)
    requires
        0 <= i <= ts.len(),
        !free_of_seq_from(ts, 0).contains(alpha),
    ensures
        forall|j: int| i <= j < ts.len() ==> subst(#[trigger] ts[j], alpha, target) == ts[j],
    decreases ts, ts.len() - i,
{
    if i < ts.len() {
        assert forall|j: int| i <= j < ts.len() implies subst(#[trigger] ts[j], alpha, target)
            == ts[j] by {
            assert(!free_of(ts[j]).contains(alpha)) by {
                lemma_free_of_seq_from(ts, 0);
                if free_of(ts[j]).contains(alpha) {
                    assert(0 <= j < ts.len() && free_of(ts[j]).contains(alpha));
                }
            };
            lemma_subst_id(ts[j], alpha, target);
        }
    }
}

/// A variable free after substitution was free before, or comes from the
/// substituted monotype.
pub proof fn lemma_subst_free(t: SpecMono, alpha: Seq<char>, target: SpecMono)
    ensures
        forall|x: Seq<char>|
            #[trigger] free_of(subst(t, alpha, target)).contains(x) ==> ((free_of(t).contains(x)
                && x != alpha) || free_of(target).contains(x)),
    decreases t, 0int,
{
    match t {
        SpecMono::Var(beta) => {
            assert(free_of(t) == Set::empty().insert(beta));
        },
        SpecMono::App(c, ts) => {
            lemma_subst_seq_from(ts, alpha, target, 0);
            lemma_subst_free_seq(ts, alpha, target, 0);
            assert forall|x: Seq<char>|
                #[trigger] free_of(subst(t, alpha, target)).contains(x) implies ((free_of(
                t,
            ).contains(x) && x != alpha) || free_of(target).contains(x)) by {
                let us = subst_seq_from(ts, alpha, target, 0);
                assert(subst(t, alpha, target) == SpecMono::App(c, us));
                lemma_free_of_seq_from(us, 0);
                lemma_free_of_seq_from(ts, 0);
                assert(free_of(SpecMono::App(c, us)) == free_of_seq_from(us, 0));
                assert(free_of_seq_from(us, 0).contains(x));
                let k = choose|k: int| 0 <= k < us.len() && (#[trigger] free_of(us[k])).contains(x);
                assert(us[k] == subst(ts[0 + k], alpha, target));
                assert(free_of(subst(ts[k], alpha, target)).contains(x));
                if free_of(ts[k]).contains(x) && x != alpha {
                    assert(free_of_seq_from(ts, 0).contains(x));
                }
            }
        },
    }
}

/// The entrywise form of `lemma_subst_free`.
pub proof fn lemma_subst_free_seq(ts: Seq<SpecMono>, alpha: Seq<char>, target: SpecMono, i: int)
    requires
        0 <= i <= ts.len(),
    ensures
        forall|j: int, x: Seq<char>|
            #![trigger free_of(subst(ts[j], alpha, target)).contains(x)]
            i <= j < ts.len() && free_of(subst(ts[j], alpha, target)).contains(x) ==> ((free_of(
                ts[j],
            ).contains(x) && x != alpha) || free_of(target).contains(x)),
    decreases ts, ts.len() - i,
{
    if i < ts.len() {
        assert(*&ts == ts);
        assert(decreases_to!(ts => ts[i]));
        lemma_subst_free(ts[i], alpha, target);
        lemma_subst_free_seq(ts, alpha, target, i + 1);
    }
}

/// A type scheme: a list of quantified type variables paired with a
/// monotype body.  A non-generalized scheme has an empty list.
#[derive(Debug)]
pub struct Poly(pub Vec<String>, pub Mono);

/// The mathematical shape of a [`Poly`].
pub struct SpecPoly {
    pub vars: Seq<Seq<char>>,
    pub body: SpecMono,
}

impl View for Poly {
    type V = SpecPoly;

    open spec fn view(&self) -> SpecPoly {
        SpecPoly { vars: self.0.deep_view(), body: self.1@ }
    }
}

impl DeepView for Poly {
    type V = SpecPoly;

    open spec fn deep_view(&self) -> SpecPoly {
        self.view()
    }
}

/// The free variables of a scheme: those of its body less the quantified
/// ones.
pub open spec fn poly_free(p: SpecPoly) -> Set<Seq<char>> {
    free_of(p.body).difference(p.vars.to_set())
}

/// Pushing a name onto a list inserts it into the set the list holds, and
/// keeps the list duplicate-free when the name is new.
pub proof fn lemma_push_name_set(v: Seq<Seq<char>>, x: Seq<char>)
    ensures
        v.push(x).to_set() == v.to_set().insert(x),
        v.no_duplicates() && !v.contains(x) ==> v.push(x).no_duplicates(),
{
    assert forall|y: Seq<char>| v.push(x).to_set().contains(y) implies v.to_set().insert(
        x,
    ).contains(y) by {
        let idx = choose|idx: int| 0 <= idx < v.push(x).len() && v.push(x)[idx] == y;
        if idx < v.len() {
            assert(v[idx] == y);
        }
    }
    assert forall|y: Seq<char>| v.to_set().insert(x).contains(y) implies v.push(x).to_set().contains(
        y,
    ) by {
        if y == x {
            assert(v.push(x)[v.len() as int] == x);
        } else {
            let idx = choose|idx: int| 0 <= idx < v.len() && v[idx] == y;
            assert(v.push(x)[idx] == y);
        }
    }
    assert(v.push(x).to_set() =~= v.to_set().insert(x));
}

/// Copies a list of names.
fn clone_names(v: &Vec<String>) -> (r: Vec<String>)
    ensures
        r.deep_view() == v.deep_view(),
{
    let mut r: Vec<String> = Vec::new();
    let mut i: usize = 0;
    while i < v.len()
        invariant
            i <= v.len(),
            r@.len() == i,
            forall|j: int| 0 <= j < i ==> r.deep_view()[j] == #[trigger] v.deep_view()[j],
        decreases v.len() - i,
    {
        r.push(v[i].clone());
        i = i + 1;
    }
    proof {
        assert(r.deep_view() =~= v.deep_view());
    }
    r
}

/// The names of `a` that are not in `b`, in the order of `a`.
#[verifier::loop_isolation(false)]
pub(crate) fn names_difference(a: &Vec<String>, b: &Vec<String>) -> (r: Vec<String>)
    requires
        a.deep_view().no_duplicates(),
    ensures
        r.deep_view().to_set() == a.deep_view().to_set().difference(b.deep_view().to_set()),
        r.deep_view().no_duplicates(),
        r.deep_view() == name_diff(a.deep_view(), b.deep_view().to_set()),
{
    let mut r: Vec<String> = Vec::new();
    let mut i: usize = 0;
    proof {
        assert(r.deep_view().to_set() =~= a.deep_view().take(0).to_set().difference(
            b.deep_view().to_set(),
        ));
        assert(r.deep_view() =~= diff_upto(a.deep_view(), b.deep_view().to_set(), 0));
    }
    while i < a.len()
        invariant
            i <= a.len(),
            r.deep_view().no_duplicates(),
            r.deep_view().to_set() == a.deep_view().take(i as int).to_set().difference(
                b.deep_view().to_set(),
            ),
            r.deep_view() == diff_upto(a.deep_view(), b.deep_view().to_set(), i as int),
        decreases a.len() - i,
    {
        let ghost adv = a.deep_view();
        let ghost ai = a.deep_view()[i as int];
        proof {
            assert(adv.take(i + 1) =~= adv.take(i as int).push(ai));
            lemma_push_name_set(adv.take(i as int), ai);
        }
        if !contains_name(b, &a[i]) {
            proof {
                assert(!b.deep_view().to_set().contains(ai)) by {
                    if b.deep_view().to_set().contains(ai) {
                        let jj = choose|jj: int|
                            0 <= jj < b.deep_view().len() && b.deep_view()[jj] == ai;
                        assert(b.deep_view().contains(ai));
                    }
                };
                assert(!r.deep_view().contains(ai)) by {
                    if r.deep_view().contains(ai) {
                        assert(r.deep_view().to_set().contains(ai));
                        assert(adv.take(i as int).to_set().contains(ai));
                        let jj = choose|jj: int|
                            0 <= jj < adv.take(i as int).len() && adv.take(i as int)[jj] == ai;
                        assert(adv[jj] == adv[i as int]);
                    }
                };
                lemma_push_name_set(r.deep_view(), ai);
            }
            let ghost old_r = r.deep_view();
            r.push(a[i].clone());
            proof {
                assert(r.deep_view() =~= old_r.push(ai));
                assert(r.deep_view().to_set() =~= adv.take(i + 1).to_set().difference(
                    b.deep_view().to_set(),
                ));
                assert(r.deep_view() == diff_upto(adv, b.deep_view().to_set(), i + 1));
            }
        } else {
            proof {
                assert(b.deep_view().to_set().contains(ai)) by {
                    let jj = choose|jj: int|
                        0 <= jj < b.deep_view().len() && b.deep_view()[jj] == ai;
                };
                assert(r.deep_view().to_set() =~= adv.take(i + 1).to_set().difference(
                    b.deep_view().to_set(),
                ));
                assert(r.deep_view() == diff_upto(adv, b.deep_view().to_set(), i + 1));
            }
        }
        i = i + 1;
    }
    proof {
        assert(a.deep_view().take(a.len() as int) =~= a.deep_view());
    }
    r
}

/// Collects the free variables of `t` that `acc` does not hold yet.
#[verifier::loop_isolation(false)]
fn collect_free(t: &Mono, acc: &mut Vec<String>)
    requires
        old(acc).deep_view().no_duplicates(),
    ensures
        final(acc).deep_view().no_duplicates(),
        final(acc).deep_view().to_set() == old(acc).deep_view().to_set().union(free_of(t@)),
        final(acc).deep_view() == collect_spec(t@, old(acc).deep_view()),
    decreases t,
{
    match t {
        Mono::Var(alpha) => {
            proof {
                assert(t@ == SpecMono::Var(alpha@));
                assert(free_of(t@) == Set::empty().insert(alpha@));
            }
            if contains_name(acc, alpha) {
                proof {
                    assert(acc.deep_view().to_set().contains(alpha@)) by {
                        let jj = choose|jj: int|
                            0 <= jj < acc.deep_view().len() && acc.deep_view()[jj] == alpha@;
                    }
                    assert(acc.deep_view().to_set() =~= old(acc).deep_view().to_set().union(
                        free_of(t@),
                    ));
                }
            } else {
                proof {
                    assert(!acc.deep_view().contains(alpha@)) by {
                        if acc.deep_view().contains(alpha@) {
                            let jj = choose|jj: int|
                                0 <= jj < acc.deep_view().len() && acc.deep_view()[jj] == alpha@;
                        }
                    };
                    lemma_push_name_set(acc.deep_view(), alpha@);
                }
                let ghost old_a = acc.deep_view();
                acc.push(alpha.clone());
                proof {
                    assert(acc.deep_view() =~= old_a.push(alpha@));
                    assert(acc.deep_view().to_set() =~= old(acc).deep_view().to_set().union(
                        free_of(t@),
                    ));
                }
            }
        },
        Mono::App(c, ts) => {
            proof {
                assert(t@ == SpecMono::App(c@, monos_view(*ts)));
                assert(free_of(t@) == free_of_seq_from(monos_view(*ts), 0));
                lemma_monos_view_from(*ts, 0);
                lemma_free_of_seq_from(monos_view(*ts), 0);
            }
            let ghost base = acc.deep_view().to_set();
            let ghost entry_dv = acc.deep_view();
            let ghost mv = monos_view(*ts);
            let mut i: usize = 0;
            proof {
                assert(acc.deep_view().to_set() =~= base.union(free_of_seq_upto(mv, 0)));
            }
            while i < ts.len()
                invariant
                    i <= ts.len(),
                    acc.deep_view().no_duplicates(),
                    acc.deep_view().to_set() == base.union(free_of_seq_upto(mv, i as int)),
                    collect_spec_seq(mv, entry_dv, 0) == collect_spec_seq(
                        mv,
                        acc.deep_view(),
                        i as int,
                    ),
                decreases ts.len() - i,
            {
                proof {
                    assert(*ts == t->App_1);
                    assert(decreases_to!(t => t->App_1));
                    assert(decreases_to!(*ts => ts[i as int]));
                }
                let ghost before_dv = acc.deep_view();
                collect_free(&ts[i], acc);
                proof {
                    assert(mv[i as int] == mono_view(ts@[i as int]));
                    assert(acc.deep_view().to_set() =~= base.union(
                        free_of_seq_upto(mv, i + 1),
                    ));
                    assert(acc.deep_view() == collect_spec(mv[i as int], before_dv));
                    assert(collect_spec_seq(mv, before_dv, i as int) == collect_spec_seq(
                        mv,
                        acc.deep_view(),
                        i + 1,
                    ));
                }
                i = i + 1;
            }
            proof {
                lemma_free_of_seq_upto_full(mv);
                assert(acc.deep_view().to_set() =~= old(acc).deep_view().to_set().union(
                    free_of(t@),
                ));
                assert(collect_spec_seq(mv, acc.deep_view(), ts@.len() as int)
                    == acc.deep_view());
            }
        },
    }
}

/// Finds the first position of `x` in `v`, or `v.len()` if absent.
#[verifier::loop_isolation(false)]
fn find_name(v: &Vec<String>, x: &String) -> (r: usize)
    ensures
        r as int == first_index_from(v.deep_view(), x@, 0),
{
    proof {
        lemma_first_index_from(v.deep_view(), x@, 0);
    }
    let mut i: usize = 0;
    while i < v.len()
        invariant
            i <= v.len(),
            forall|j: int| 0 <= j < i ==> #[trigger] v.deep_view()[j] != x@,
        decreases v.len() - i,
    {
        if v[i] == *x {
            proof {
                let fi = first_index_from(v.deep_view(), x@, 0);
                assert(v.deep_view()[i as int] == x@);
                if fi < i {
                    assert(v.deep_view()[fi] != x@);
                }
            }
            return i;
        }
        i = i + 1;
    }
    proof {
        let fi = first_index_from(v.deep_view(), x@, 0);
        if fi < v.deep_view().len() {
            assert(v.deep_view()[fi] != x@);
        }
    }
    v.len()
}

/// Instantiates `t`: each variable listed in `alphas` becomes the
/// monotype at the matching position of `news`.
#[verifier::loop_isolation(false)]
fn inst_mono(t: &Mono, alphas: &Vec<String>, news: &Vec<Mono>) -> (r: Mono)
    ensures
        r@ == inst_body(t@, alphas.deep_view(), monos_view(*news)),
    decreases t,
{
    match t {
        Mono::Var(beta) => {
            proof {
                assert(t@ == SpecMono::Var(beta@));
                lemma_monos_view_from(*news, 0);
            }
            let i = find_name(alphas, beta);
            if i < alphas.len() && i < news.len() {
                proof {
                    assert(monos_view(*news)[i as int] == mono_view(news@[i as int]));
                }
                news[i].clone()
            } else {
                Mono::Var(beta.clone())
            }
        },
        Mono::App(c, ts) => {
            let mut args: Vec<Mono> = Vec::new();
            let mut i: usize = 0;
            while i < ts.len()
                invariant
                    i <= ts.len(),
                    args@.len() == i,
                    forall|j: int|
                        0 <= j < i ==> mono_view(args@[j]) == inst_body(
                            mono_view(#[trigger] ts@[j]),
                            alphas.deep_view(),
                            monos_view(*news),
                        ),
                decreases ts.len() - i,
            {
                proof {
                    assert(*ts == t->App_1);
                    assert(decreases_to!(t => t->App_1));
                    assert(decreases_to!(*ts => ts[i as int]));
                }
                let arg = inst_mono(&ts[i], alphas, news);
                args.push(arg);
                i = i + 1;
            }
            proof {
                assert(t@ == SpecMono::App(c@, monos_view(*ts)));
                lemma_monos_view_from(args, 0);
                lemma_monos_view_from(*ts, 0);
                lemma_inst_seq_from(monos_view(*ts), alphas.deep_view(), monos_view(*news), 0);
                assert forall|j: int| 0 <= j < ts@.len() implies monos_view(args)[j]
                    == inst_seq_from(monos_view(*ts), alphas.deep_view(), monos_view(*news), 0)[j] by {
                    assert(monos_view(args)[j] == mono_view(args@[j]));
                    assert(inst_seq_from(monos_view(*ts), alphas.deep_view(), monos_view(*news), 0)[j]
                        == inst_body(monos_view(*ts)[0 + j], alphas.deep_view(), monos_view(*news)));
                    assert(monos_view(*ts)[j] == mono_view(ts@[j]));
                }
                assert(monos_view(args) =~= inst_seq_from(
                    monos_view(*ts),
                    alphas.deep_view(),
                    monos_view(*news),
                    0,
                ));
            }
            Mono::App(c.clone(), args)
        },
    }
}

impl Mono {
    /// The list of variables occurring in `self`, without duplicates.
    pub fn free(&self) -> (r: Vec<String>)
        ensures
            r.deep_view().to_set() == free_of(self@),
            r.deep_view().no_duplicates(),
            r.deep_view() == free_list(self@),
    {
        let mut acc: Vec<String> = Vec::new();
        proof {
            assert(acc.deep_view() =~= Seq::<Seq<char>>::empty());
        }
        collect_free(self, &mut acc);
        proof {
            assert(acc.deep_view().to_set() =~= free_of(self@));
        }
        acc
    }

    /// Quantifies over the variables free in `self` but not in `gamma`.
    pub fn generalize(self, gamma: &Ctxt) -> (p: Poly)
        ensures
            p@.body == self@,
            p@.vars.to_set() == free_of(self@).difference(crate::ctxt::ctxt_free(gamma@)),
            p@.vars.no_duplicates(),
            p@.vars == name_diff(free_list(self@), crate::ctxt::ctxt_free(gamma@)),
    {
        let mine = self.free();
        let ambient = gamma.free();
        let vars = names_difference(&mine, &ambient);
        Poly(vars, self)
    }
}

impl Clone for Poly {
    /// Cloning preserves the shape of a scheme.
    fn clone(&self) -> (r: Poly)
        ensures
            r@ == self@,
    {
        Poly(clone_names(&self.0), self.1.clone())
    }
}

impl Poly {
    /// The scheme that quantifies over nothing.
    pub fn mono(tau: Mono) -> (p: Poly)
        ensures
            p@.vars.len() == 0,
            p@.body == tau@,
    {
        let vars: Vec<String> = Vec::new();
        Poly(vars, tau)
    }

    /// The list of variables free in `self`, without duplicates.
    pub fn free(&self) -> (r: Vec<String>)
        ensures
            r.deep_view().to_set() == poly_free(self@),
            r.deep_view().no_duplicates(),
    {
        let body_free = self.1.free();
        names_difference(&body_free, &self.0)
    }

    /// Instantiates `self`'s body, replacing each quantified variable by
    /// the monotype at the matching position of `news`.
    pub fn inst(&self, news: &Vec<Mono>) -> (r: Mono)
        ensures
            r@ == inst_body(self@.body, self@.vars, monos_view(*news)),
    {
        inst_mono(&self.1, &self.0, news)
    }
}

/// Argument lists with pairwise equal shapes have equal shapes.
pub proof fn lemma_monos_view_eq(a: Vec<Mono>, b: Vec<Mono>)
    requires
        a@.len() == b@.len(),
        forall|j: int| 0 <= j < a@.len() ==> mono_view(a@[j]) == mono_view(#[trigger] b@[j]),
    ensures
        monos_view(a) == monos_view(b),
{
    lemma_monos_view_from(a, 0);
    lemma_monos_view_from(b, 0);
    assert(monos_view(a) =~= monos_view(b));
}

/// An argument list's shape has one entry per argument, in order.
pub broadcast proof fn lemma_monos_view_from(taus: Vec<Mono>, i: int)
    requires
        0 <= i <= taus@.len(),
    ensures
        (#[trigger] monos_view_from(taus, i)).len() == taus@.len() - i,
        forall|j: int|
            0 <= j < taus@.len() - i ==> monos_view_from(taus, i)[j] == mono_view(
                taus@[i + j],
            ),
    decreases taus@.len() - i,
{
    if i < taus@.len() {
        lemma_monos_view_from(taus, i + 1);
    }
}

} // verus!
