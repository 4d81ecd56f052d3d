//! The inference driver: Algorithm J, with its unification engine and
//! per-run fresh-variable supply.

use crate::alias::{
    aliases_wf, canon, canon_at, canon_seq_from, involved, is_key_from, keyset_from,
    lemma_canon_compose, lemma_canon_equal_extend, lemma_canon_free_in, lemma_canon_no_keys,
    lemma_canon_push, lemma_canon_seq_from, lemma_canon_untouched, lemma_keyset_from, lemma_unresolved_finite,
    lemma_valfree_from, unresolved, valfree_from, Aliases, AliasSeq,
};
use crate::ctxt::{ctxt_free, lemma_lookup_push, lookup, Ctxt};
use crate::expr::{has_unbound, Expr};
use crate::types::{
    arrow_str, free_list, free_of, free_of_seq_from, inst_body, lemma_free_of_seq_from,
    lemma_mono_size_seq_from, lemma_monos_view_from, lemma_subst_id, mono_size,
    mono_size_seq_from, mono_view, monos_view, name_diff, string_push, subst, Mono, Poly,
    SpecMono, SpecPoly,
};
use vstd::prelude::*;

verus! {

broadcast use
    vstd::std_specs::vec::axiom_vec_index_decreases,
    vstd::seq::axiom_seq_index_decreases,
    vstd::set::group_set_axioms,
    vstd::seq::group_seq_axioms;

/// The three terminal failure kinds of inference.  Every failure aborts
/// the whole inference call; none is recoverable.
#[derive(Debug, PartialEq, Eq)]
pub enum InferenceError {
    /// A name had no binding in the context at the point of lookup.
    UnknownVar(String),
    /// Two canonicalized monotypes had incompatible constructors.
    ImpossibleUnification(Mono, Mono),
    /// Aliasing the variable to the monotype would create an infinite
    /// type.
    RecursiveType(Mono, String),
}

pub type InferenceResult<T> = Result<T, InferenceError>;

/// A terminal failure, at the level of shapes.
pub enum SpecErr {
    Unknown(Seq<char>),
    Impossible(SpecMono, SpecMono),
    Recursive(SpecMono, Seq<char>),
}

/// The shape of an inference failure.
pub open spec fn err_view(e: InferenceError) -> SpecErr {
    match e {
        InferenceError::UnknownVar(x) => SpecErr::Unknown(x@),
        InferenceError::ImpossibleUnification(t1, t2) => SpecErr::Impossible(t1@, t2@),
        InferenceError::RecursiveType(t, a) => SpecErr::Recursive(t@, a@),
    }
}

/// The failure a unification call reports, if any.
pub open spec fn unify_err(r: InferenceResult<()>) -> Option<SpecErr> {
    match r {
        Ok(u) => None,
        Err(e) => Some(err_view(e)),
    }
}

/// One unification run, at the level of shapes: canonicalize both
/// operands; succeed on equal forms; descend pairwise into matching
/// applications, aborting at the first failure; alias an unaliased
/// variable after the occurs check; fail on clashing constructors.
/// `fuel` bounds the nesting of application descents; `None` means it
/// ran out.  For every large enough `fuel` the outcome is the same, so
/// the run is a function of the map and the two operands
/// (`lemma_spec_unify_deterministic`).
pub open spec fn spec_unify(s: AliasSeq, t1: SpecMono, t2: SpecMono, fuel: nat) -> Option<
    (AliasSeq, Option<SpecErr>),
>
    decreases fuel, 0int, 0int,
{
    if fuel == 0 {
        None
    } else {
        let a = canon(s, t1);
        let b = canon(s, t2);
        if a == b {
            Some((s, None))
        } else {
            match (a, b) {
                (SpecMono::App(c1, ts1), SpecMono::App(c2, ts2)) => {
                    if c1 == c2 && ts1.len() == ts2.len() {
                        spec_unify_args(s, ts1, ts2, (fuel - 1) as nat, 0)
                    } else {
                        Some((s, Some(SpecErr::Impossible(a, b))))
                    }
                },
                (SpecMono::Var(al), _) => {
                    if free_of(b).contains(al) {
                        Some((s, Some(SpecErr::Recursive(b, al))))
                    } else {
                        Some((s.push((al, b)), None))
                    }
                },
                (_, SpecMono::Var(be)) => {
                    if free_of(a).contains(be) {
                        Some((s, Some(SpecErr::Recursive(a, be))))
                    } else {
                        Some((s.push((be, a)), None))
                    }
                },
            }
        }
    }
}

/// Unifies the argument pairs from position `i` on, threading the map;
/// the first failure aborts the remaining pairs.
pub open spec fn spec_unify_args(
    s: AliasSeq,
    ts1: Seq<SpecMono>,
    ts2: Seq<SpecMono>,
    fuel: nat,
    i: int,
) -> Option<(AliasSeq, Option<SpecErr>)>
    decreases fuel, 1int, ts1.len() - i,
{
    if i < 0 || i >= ts1.len() {
        Some((s, None))
    } else {
        match spec_unify(s, ts1[i], ts2[i], fuel) {
            None => None,
            Some(step) => match step.1 {
                Some(er) => Some((step.0, Some(er))),
                None => spec_unify_args(step.0, ts1, ts2, fuel, i + 1),
            },
        }
    }
}

/// The unification of `t1` with `t2` under `s` ends with the map `s2`
/// and the outcome `out`: the spec-level run reaches exactly that at
/// some step allowance, and at every larger one.
pub open spec fn unify_runs_to(
    s: AliasSeq,
    t1: SpecMono,
    t2: SpecMono,
    s2: AliasSeq,
    out: Option<SpecErr>,
) -> bool {
    exists|f: nat|
        (#[trigger] spec_unify(s, t1, t2, f) == Some((s2, out))) && (forall|g: nat|
            g >= f ==> spec_unify(s, t1, t2, g) == Some((s2, out)))
}

/// A unification run ends one way: repeating a call on the same map and
/// operands gives the same final map and the same outcome.
pub proof fn lemma_spec_unify_deterministic(
    s: AliasSeq,
    t1: SpecMono,
    t2: SpecMono,
    s2a: AliasSeq,
    outa: Option<SpecErr>,
    s2b: AliasSeq,
    outb: Option<SpecErr>,
)
    requires
        unify_runs_to(s, t1, t2, s2a, outa),
        unify_runs_to(s, t1, t2, s2b, outb),
    ensures
        s2a == s2b,
        outa == outb,
{
    let fa = choose|fa: nat|
        (#[trigger] spec_unify(s, t1, t2, fa) == Some((s2a, outa))) && (forall|g: nat|
            g >= fa ==> spec_unify(s, t1, t2, g) == Some((s2a, outa)));
    let fb = choose|fb: nat|
        (#[trigger] spec_unify(s, t1, t2, fb) == Some((s2b, outb))) && (forall|g: nat|
            g >= fb ==> spec_unify(s, t1, t2, g) == Some((s2b, outb)));
    assert(spec_unify(s, t1, t2, fa + fb) == Some((s2a, outa)));
    assert(spec_unify(s, t1, t2, fa + fb) == Some((s2b, outb)));
}

/// A run that ends in one unification step runs to its outcome at
/// every positive step allowance.
proof fn lemma_unify_one_step(
    s: AliasSeq,
    t1: SpecMono,
    t2: SpecMono,
    s2: AliasSeq,
    out: Option<SpecErr>,
)
    requires
        forall|g: nat| g >= 1 ==> spec_unify(s, t1, t2, g) == Some((s2, out)),
    ensures
        unify_runs_to(s, t1, t2, s2, out),
{
    assert(spec_unify(s, t1, t2, 1) == Some((s2, out)));
}

/// Inference is deterministic: two runs on equal inputs compute the
/// same scheme, or the same error with the same payloads.
pub proof fn lemma_infer_deterministic(
    e: Expr,
    gamma: Seq<(Seq<char>, SpecPoly)>,
    outa: Result<SpecPoly, SpecErr>,
    outb: Result<SpecPoly, SpecErr>,
)
    requires
        infer_computes(e, gamma, outa),
        infer_computes(e, gamma, outb),
    ensures
        outa == outb,
{
    let fa = choose|fa: nat|
        (#[trigger] spec_infer_scheme(e, gamma, fa) == Some(outa)) && (forall|g: nat|
            g >= fa ==> spec_infer_scheme(e, gamma, g) == Some(outa));
    let fb = choose|fb: nat|
        (#[trigger] spec_infer_scheme(e, gamma, fb) == Some(outb)) && (forall|g: nat|
            g >= fb ==> spec_infer_scheme(e, gamma, g) == Some(outb));
    assert(spec_infer_scheme(e, gamma, fa + fb) == Some(outa));
    assert(spec_infer_scheme(e, gamma, fa + fb) == Some(outb));
}

/// The decimal digit `d` as a character.
pub open spec fn digit_char(d: int) -> char {
    if d == 0 {
        '0'
    } else if d == 1 {
        '1'
    } else if d == 2 {
        '2'
    } else if d == 3 {
        '3'
    } else if d == 4 {
        '4'
    } else if d == 5 {
        '5'
    } else if d == 6 {
        '6'
    } else if d == 7 {
        '7'
    } else if d == 8 {
        '8'
    } else {
        '9'
    }
}

/// The decimal digits of `n`, most significant first.
pub open spec fn dec_digits(n: int) -> Seq<char>
    decreases n,
{
    if n < 10 {
        seq![digit_char(n)]
    } else {
        dec_digits(n / 10).push(digit_char(n % 10))
    }
}

/// The name of the fresh variable produced by the counter value `n`.
pub open spec fn fresh_name(n: int) -> Seq<char> {
    seq!['_'] + dec_digits(n)
}

/// The counter value after one more fresh variable; the supply tops out
/// rather than wrap.
pub open spec fn next_counter(c: u64) -> u64 {
    if c < u64::MAX {
        (c + 1) as u64
    } else {
        c
    }
}

/// The counter value after `m` more fresh variables.
pub open spec fn counter_after(c: u64, m: int) -> u64
    decreases m,
{
    if m <= 0 {
        c
    } else {
        next_counter(counter_after(c, m - 1))
    }
}

/// The monotypes of the `k` fresh variables drawn after counter value
/// `c`.
pub open spec fn fresh_monos(c: u64, k: int) -> Seq<SpecMono> {
    Seq::new(k as nat, |i: int| SpecMono::Var(fresh_name(counter_after(c, i + 1) as int)))
}

/// Appends the decimal digits of `n` to `out`.
fn push_digits(n: u64, out: &mut String)
    ensures
        final(out)@ == old(out)@ + dec_digits(n as int),
    decreases n,
{
    if n >= 10 {
        proof {
            assert(n / 10 < n && n / 10 >= 1) by (nonlinear_arith)
                requires
                    n >= 10,
            ;
        }
        push_digits(n / 10, out);
    }
    let d: u64 = n % 10;
    let c: char = if d == 0 {
        '0'
    } else if d == 1 {
        '1'
    } else if d == 2 {
        '2'
    } else if d == 3 {
        '3'
    } else if d == 4 {
        '4'
    } else if d == 5 {
        '5'
    } else if d == 6 {
        '6'
    } else if d == 7 {
        '7'
    } else if d == 8 {
        '8'
    } else {
        '9'
    };
    proof {
        assert(c == digit_char(n as int % 10));
    }
    string_push(out, c);
    proof {
        if n < 10 {
            assert(n as int % 10 == n as int) by (nonlinear_arith)
                requires
                    0 <= n < 10,
            ;
            assert(final(out)@ =~= old(out)@ + dec_digits(n as int));
        } else {
            assert(final(out)@ =~= old(out)@ + dec_digits(n as int));
        }
    }
}

/// The name of the fresh variable for counter value `n`, as a string.
fn fresh_name_string(n: u64) -> (r: String)
    ensures
        r@ == fresh_name(n as int),
{
    let mut s = String::new();
    string_push(&mut s, '_');
    push_digits(n, &mut s);
    proof {
        assert(s@ =~= fresh_name(n as int));
    }
    s
}

/// One inference run, at the level of shapes, over the four expression
/// forms of Algorithm J: the alias map, the counter, and the result of
/// the descent.  A variable is looked up and its scheme instantiated at
/// fresh variables; an application infers both parts and unifies the
/// function type with an arrow onto a fresh result variable; an
/// abstraction binds its parameter monomorphically; a let generalizes
/// the canonicalized bound type against the original context.  The
/// first failure anywhere aborts the whole descent and is returned
/// unchanged.  `fuel` is the unification step allowance; for every
/// large enough `fuel` the outcome is the same
/// (`lemma_spec_infer_deterministic`).
pub open spec fn spec_infer(
    e: Expr,
    gamma: Seq<(Seq<char>, SpecPoly)>,
    s: AliasSeq,
    c: u64,
    fuel: nat,
) -> Option<(AliasSeq, u64, Result<SpecMono, SpecErr>)>
    decreases e,
{
    match e {
        Expr::Var(x) => match lookup(gamma, x@) {
            Some(sigma) => Some(
                (
                    s,
                    counter_after(c, sigma.vars.len() as int),
                    Ok(inst_body(sigma.body, sigma.vars, fresh_monos(c, sigma.vars.len() as int))),
                ),
            ),
            None => Some((s, c, Err::<SpecMono, SpecErr>(SpecErr::Unknown(x@)))),
        },
        Expr::App(e0, e1) => match spec_infer(*e0, gamma, s, c, fuel) {
            None => None,
            Some(r0) => match r0.2 {
                Err(er) => Some(r0),
                Ok(t0) => match spec_infer(*e1, gamma, r0.0, r0.1, fuel) {
                    None => None,
                    Some(r1) => match r1.2 {
                        Err(er) => Some(r1),
                        Ok(t1) => {
                            let c2 = next_counter(r1.1);
                            let rv = SpecMono::Var(fresh_name(c2 as int));
                            match spec_unify(
                                r1.0,
                                t0,
                                SpecMono::App(arrow_str(), seq![t1, rv]),
                                fuel,
                            ) {
                                None => None,
                                Some(u) => match u.1 {
                                    Some(er) => Some((u.0, c2, Err(er))),
                                    None => Some((u.0, c2, Ok::<SpecMono, SpecErr>(rv))),
                                },
                            }
                        },
                    },
                },
            },
        },
        Expr::Abs(x, body) => {
            let c1 = next_counter(c);
            let p = SpecMono::Var(fresh_name(c1 as int));
            let gamma2 = gamma.push((x@, SpecPoly { vars: Seq::empty(), body: p }));
            match spec_infer(*body, gamma2, s, c1, fuel) {
                None => None,
                Some(rb) => match rb.2 {
                    Err(er) => Some(rb),
                    Ok(bt) => Some((rb.0, rb.1, Ok(SpecMono::App(arrow_str(), seq![p, bt])))),
                },
            }
        },
        Expr::Let(x, e0, e1) => match spec_infer(*e0, gamma, s, c, fuel) {
            None => None,
            Some(r0) => match r0.2 {
                Err(er) => Some(r0),
                Ok(t0) => {
                    let ct = canon(r0.0, t0);
                    let sigma = SpecPoly {
                        vars: name_diff(free_list(ct), ctxt_free(gamma)),
                        body: ct,
                    };
                    spec_infer(*e1, gamma.push((x@, sigma)), r0.0, r0.1, fuel)
                },
            },
        },
    }
}

/// The shape of a driver result.
pub open spec fn infer_view(r: InferenceResult<Mono>) -> Result<SpecMono, SpecErr> {
    match r {
        Ok(t) => Ok(t@),
        Err(e) => Err(err_view(e)),
    }
}

/// The descent over `e` under `gamma`, begun with the map `s` and the
/// counter `c`, ends with the map `s2`, the counter `c2` and the
/// outcome `out`: the spec-level run reaches exactly that at some step
/// allowance, and at every larger one.
pub open spec fn infer_runs_to(
    e: Expr,
    gamma: Seq<(Seq<char>, SpecPoly)>,
    s: AliasSeq,
    c: u64,
    s2: AliasSeq,
    c2: u64,
    out: Result<SpecMono, SpecErr>,
) -> bool {
    exists|f: nat|
        (#[trigger] spec_infer(e, gamma, s, c, f) == Some((s2, c2, out))) && (forall|g: nat|
            g >= f ==> spec_infer(e, gamma, s, c, g) == Some((s2, c2, out)))
}

/// An inference descent ends one way: repeating it on equal inputs
/// gives the same map, counter and outcome.
pub proof fn lemma_spec_infer_deterministic(
    e: Expr,
    gamma: Seq<(Seq<char>, SpecPoly)>,
    s: AliasSeq,
    c: u64,
    s2a: AliasSeq,
    c2a: u64,
    outa: Result<SpecMono, SpecErr>,
    s2b: AliasSeq,
    c2b: u64,
    outb: Result<SpecMono, SpecErr>,
)
    requires
        infer_runs_to(e, gamma, s, c, s2a, c2a, outa),
        infer_runs_to(e, gamma, s, c, s2b, c2b, outb),
    ensures
        s2a == s2b,
        c2a == c2b,
        outa == outb,
{
    let fa = choose|fa: nat|
        (#[trigger] spec_infer(e, gamma, s, c, fa) == Some((s2a, c2a, outa))) && (forall|g: nat|
            g >= fa ==> spec_infer(e, gamma, s, c, g) == Some((s2a, c2a, outa)));
    let fb = choose|fb: nat|
        (#[trigger] spec_infer(e, gamma, s, c, fb) == Some((s2b, c2b, outb))) && (forall|g: nat|
            g >= fb ==> spec_infer(e, gamma, s, c, g) == Some((s2b, c2b, outb)));
    assert(spec_infer(e, gamma, s, c, fa + fb) == Some((s2a, c2a, outa)));
    assert(spec_infer(e, gamma, s, c, fa + fb) == Some((s2b, c2b, outb)));
}

/// The whole top-level run: a fresh driver, the descent, then
/// canonicalization and generalization of its monotype against the
/// caller's context.
pub open spec fn spec_infer_scheme(
    e: Expr,
    gamma: Seq<(Seq<char>, SpecPoly)>,
    fuel: nat,
) -> Option<Result<SpecPoly, SpecErr>> {
    match spec_infer(e, gamma, Seq::empty(), 0, fuel) {
        None => None,
        Some(res) => match res.2 {
            Err(er) => Some(Err(er)),
            Ok(tau) => {
                let ct = canon(res.0, tau);
                Some(
                    Ok(SpecPoly { vars: name_diff(free_list(ct), ctxt_free(gamma)), body: ct }),
                )
            },
        },
    }
}

/// The shape of a top-level result.
pub open spec fn scheme_view(r: InferenceResult<Poly>) -> Result<SpecPoly, SpecErr> {
    match r {
        Ok(p) => Ok(p@),
        Err(e) => Err(err_view(e)),
    }
}

/// Inference of `e` under `gamma` computes `out`: the spec-level run
/// reaches exactly that at some step allowance, and at every larger
/// one.
pub open spec fn infer_computes(
    e: Expr,
    gamma: Seq<(Seq<char>, SpecPoly)>,
    out: Result<SpecPoly, SpecErr>,
) -> bool {
    exists|f: nat|
        (#[trigger] spec_infer_scheme(e, gamma, f) == Some(out)) && (forall|g: nat|
            g >= f ==> spec_infer_scheme(e, gamma, g) == Some(out))
}

/// One inference run: the fresh-variable counter and the alias map,
/// created fresh for exactly one top-level call and discarded after it.
pub struct AlgorithmJ {
    counter: u64,
    aliases: Aliases,
}

impl AlgorithmJ {
    /// The entries of the alias map.
    pub closed spec fn amap(&self) -> AliasSeq {
        self.aliases@
    }

    /// The current counter value.
    pub closed spec fn counter_val(&self) -> u64 {
        self.counter
    }

    /// Well-formedness: the alias map is well-formed.
    pub open spec fn wf(&self) -> bool {
        aliases_wf(self.amap())
    }

    /// The alias map this run has built so far.
    pub fn aliases(&self) -> (r: &Aliases)
        ensures
            r@ == self.amap(),
    {
        &self.aliases
    }

    /// A fresh run: counter at its initial value, empty alias map.
    pub fn new() -> (r: AlgorithmJ)
        ensures
            r.counter_val() == 0,
            r.amap().len() == 0,
            r.wf(),
    {
        AlgorithmJ { counter: 0, aliases: Aliases::new() }
    }

    /// Draws one fresh type variable.
    fn new_var(&mut self) -> (r: Mono)
        ensures
            final(self).amap() == old(self).amap(),
            final(self).counter_val() == next_counter(old(self).counter_val()),
            r@ == SpecMono::Var(fresh_name(next_counter(old(self).counter_val()) as int)),
    {
        if self.counter < u64::MAX {
            self.counter = self.counter + 1;
        }
        let name = fresh_name_string(self.counter);
        Mono::Var(name)
    }

    /// Draws `k` fresh type variables.
    fn new_vars(&mut self, k: usize) -> (r: Vec<Mono>)
        ensures
            final(self).amap() == old(self).amap(),
            final(self).counter_val() == counter_after(old(self).counter_val(), k as int),
            monos_view(r) == fresh_monos(old(self).counter_val(), k as int),
            r@.len() == k,
    {
        let mut r: Vec<Mono> = Vec::new();
        let mut i: usize = 0;
        while i < k
            invariant
                i <= k,
                r@.len() == i,
                self.amap() == old(self).amap(),
                self.counter_val() == counter_after(old(self).counter_val(), i as int),
                forall|j: int|
                    0 <= j < i ==> mono_view(#[trigger] r@[j]) == SpecMono::Var(
                        fresh_name(counter_after(old(self).counter_val(), j + 1) as int),
                    ),
            decreases k - i,
        {
            let v = self.new_var();
            r.push(v);
            i = i + 1;
        }
        proof {
            lemma_monos_view_from(r, 0);
            assert(monos_view(r) =~= fresh_monos(old(self).counter_val(), k as int));
        }
        r
    }
    /// Resolves `tau1` and `tau2` to a common shape, recording aliases
    /// as needed.  Successful steps are kept even when a later step of
    /// the same inference call fails: there is no rollback.
    #[verifier::loop_isolation(false)]
    #[verifier::rlimit(60)]
    pub fn unify(&mut self, tau1: Mono, tau2: Mono) -> (r: InferenceResult<()>)
        requires
            old(self).wf(),
        ensures
            final(self).wf(),
            final(self).counter_val() == old(self).counter_val(),
            final(self).amap().len() >= old(self).amap().len(),
            old(self).amap() == final(self).amap().subrange(0, old(self).amap().len() as int),
            forall|j: int|
                old(self).amap().len() <= j < final(self).amap().len() ==> involved(
                    old(self).amap(),
                    tau1@,
                    tau2@,
                ).contains((#[trigger] final(self).amap()[j]).0) && free_of(
                    final(self).amap()[j].1,
                ).subset_of(involved(old(self).amap(), tau1@, tau2@)),
            r is Ok ==> canon(final(self).amap(), tau1@) == canon(final(self).amap(), tau2@),
            canon(old(self).amap(), tau1@) == canon(old(self).amap(), tau2@) ==> r is Ok
                && final(self).amap() == old(self).amap(),
            (canon(old(self).amap(), tau1@) matches SpecMono::Var(al) && !free_of(
                canon(old(self).amap(), tau2@),
            ).contains(al)) ==> r is Ok,
            (canon(old(self).amap(), tau2@) matches SpecMono::Var(be) && !free_of(
                canon(old(self).amap(), tau1@),
            ).contains(be)) ==> r is Ok,
            (canon(old(self).amap(), tau1@) matches SpecMono::Var(al) && free_of(
                canon(old(self).amap(), tau2@),
            ).contains(al) && canon(old(self).amap(), tau2@) != canon(old(self).amap(), tau1@))
                ==> r matches Err(InferenceError::RecursiveType(..)),
            (canon(old(self).amap(), tau2@) matches SpecMono::Var(be) && free_of(
                canon(old(self).amap(), tau1@),
            ).contains(be) && canon(old(self).amap(), tau1@) != canon(old(self).amap(), tau2@))
                ==> r matches Err(InferenceError::RecursiveType(..)),
            (canon(old(self).amap(), tau1@) matches SpecMono::App(c1, ts1) && canon(
                old(self).amap(),
                tau2@,
            ) matches SpecMono::App(c2, ts2) && (c1 != c2 || ts1.len() != ts2.len())) ==> r matches
                Err(InferenceError::ImpossibleUnification(..)),
            r matches Err(InferenceError::RecursiveType(t, x)) ==> free_of(t@).contains(x@),
            r matches Err(InferenceError::ImpossibleUnification(x, y)) ==> (x@ matches
                SpecMono::App(c1, ts1) && y@ matches SpecMono::App(c2, ts2) && (c1 != c2
                || ts1.len() != ts2.len())),
            r is Err ==> (r matches Err(InferenceError::RecursiveType(..)) || r matches Err(
                InferenceError::ImpossibleUnification(..),
            )),
            unify_runs_to(old(self).amap(), tau1@, tau2@, final(self).amap(), unify_err(r)),
        decreases
            unresolved(self.amap(), tau1@, tau2@).len(),
            mono_size(canon(self.amap(), tau1@)) + mono_size(canon(self.amap(), tau2@)),
    {
        let ghost m0 = self.amap();
        let a = tau1.canonicalize(&self.aliases);
        let b = tau2.canonicalize(&self.aliases);
        proof {
            assert(m0.subrange(0, m0.len() as int) =~= m0);
        }
        if a == b {
            proof {
                assert forall|g: nat| g >= 1 implies spec_unify(m0, tau1@, tau2@, g) == Some(
                    (m0, Option::<SpecErr>::None),
                ) by {}
                lemma_unify_one_step(m0, tau1@, tau2@, m0, Option::<SpecErr>::None);
            }
            return Ok(());
        }
        proof {
            lemma_canon_no_keys(m0, 0, tau1@);
            lemma_canon_no_keys(m0, 0, tau2@);
            lemma_canon_free_in(m0, 0, tau1@);
            lemma_canon_free_in(m0, 0, tau2@);
            lemma_valfree_from(m0, 0);
            lemma_keyset_from(m0, 0);
            lemma_unresolved_finite(m0, tau1@, tau2@);
        }
        match (&a, &b) {
            (Mono::App(c1, ts1), Mono::App(c2, ts2)) => {
                proof {
                    assert(a@ == SpecMono::App(c1@, monos_view(*ts1)));
                    assert(b@ == SpecMono::App(c2@, monos_view(*ts2)));
                    lemma_monos_view_from(*ts1, 0);
                    lemma_monos_view_from(*ts2, 0);
                }
                if *c1 == *c2 && ts1.len() == ts2.len() {
                    let ghost av = a@;
                    let ghost bv = b@;
                    let ghost cs = monos_view(*ts1);
                    let ghost ds = monos_view(*ts2);
                    let ghost w = involved(m0, tau1@, tau2@);
                    proof {
                        lemma_free_of_seq_from(cs, 0);
                        lemma_free_of_seq_from(ds, 0);
                        lemma_mono_size_seq_from(cs, 0);
                        lemma_mono_size_seq_from(ds, 0);
                        assert(spec_unify_args(m0, cs, ds, 0, 0) == spec_unify_args(
                            self.amap(),
                            cs,
                            ds,
                            0,
                            0,
                        ));
                        assert forall|g: nat| g >= 0 implies spec_unify_args(m0, cs, ds, g, 0)
                            == spec_unify_args(self.amap(), cs, ds, g, 0) by {}
                    }
                    let mut i: usize = 0;
                    while i < ts1.len()
                        invariant
                            i <= ts1.len(),
                            self.wf(),
                            self.counter_val() == old(self).counter_val(),
                            self.amap().len() >= m0.len(),
                            m0 == self.amap().subrange(0, m0.len() as int),
                            forall|j: int|
                                m0.len() <= j < self.amap().len() ==> w.contains(
                                    (#[trigger] self.amap()[j]).0,
                                ) && free_of(self.amap()[j].1).subset_of(w),
                            forall|j: int|
                                0 <= j < i ==> canon(self.amap(), #[trigger] cs[j]) == canon(
                                    self.amap(),
                                    ds[j],
                                ),
                            exists|f: nat|
                                (#[trigger] spec_unify_args(m0, cs, ds, f, 0) == spec_unify_args(
                                    self.amap(),
                                    cs,
                                    ds,
                                    f,
                                    i as int,
                                )) && (forall|g: nat|
                                    g >= f ==> spec_unify_args(m0, cs, ds, g, 0)
                                        == spec_unify_args(self.amap(), cs, ds, g, i as int)),
                        decreases ts1.len() - i,
                    {
                        let ghost mid = self.amap();
                        let c1i = ts1[i].clone();
                        let c2i = ts2[i].clone();
                        proof {
                            assert(c1i@ == cs[i as int]);
                            assert(c2i@ == ds[i as int]);
                            assert forall|x: Seq<char>| free_of(cs[i as int]).contains(x)
                                implies free_of(av).contains(x) by {
                                assert(0 <= i < cs.len() && free_of(cs[i as int]).contains(x));
                                assert(free_of_seq_from(cs, 0).contains(x));
                            }
                            assert forall|x: Seq<char>| free_of(ds[i as int]).contains(x)
                                implies free_of(bv).contains(x) by {
                                assert(0 <= i < ds.len() && free_of(ds[i as int]).contains(x));
                                assert(free_of_seq_from(ds, 0).contains(x));
                            }
                            assert(mono_size(cs[i as int]) <= mono_size_seq_from(cs, 0));
                            assert(mono_size(ds[i as int]) <= mono_size_seq_from(ds, 0));
                            assert(mono_size(av) == 1 + mono_size_seq_from(cs, 0));
                            assert(mono_size(bv) == 1 + mono_size_seq_from(ds, 0));
                            if mid.len() == m0.len() {
                                assert(mid =~= m0);
                            }
                            // The callee's measure is below ours.
                            lemma_wf_mid_facts(m0, mid, tau1@, tau2@, c1i@, c2i@, av, bv, w);
                        }
                        let rr = self.unify(c1i, c2i);
                        proof {
                            let now = self.amap();
                            assert(m0 =~= now.subrange(0, m0.len() as int)) by {
                                assert(mid == now.subrange(0, mid.len() as int));
                                assert forall|j: int| 0 <= j < m0.len() implies m0[j] == now[j] by {
                                    assert(m0[j] == mid[j]);
                                    assert(mid[j] == now.subrange(0, mid.len() as int)[j]);
                                }
                            }
                            assert forall|j: int|
                                m0.len() <= j < now.len() implies w.contains(
                                (#[trigger] now[j]).0,
                            ) && free_of(now[j].1).subset_of(w) by {
                                if j < mid.len() {
                                    assert(mid[j] == now.subrange(0, mid.len() as int)[j]);
                                    assert(now[j] == mid[j]);
                                } else {
                                    lemma_involved_sub(m0, mid, tau1@, tau2@, c1i@, c2i@, av, bv, w);
                                    assert(involved(mid, c1i@, c2i@).contains(now[j].0));
                                    assert(free_of(now[j].1).subset_of(involved(mid, c1i@, c2i@)));
                                }
                            }
                            let fi = choose|fi: nat|
                                (#[trigger] spec_unify(mid, c1i@, c2i@, fi) == Some(
                                    (now, unify_err(rr)),
                                )) && (forall|g: nat|
                                    g >= fi ==> spec_unify(mid, c1i@, c2i@, g) == Some(
                                        (now, unify_err(rr)),
                                    ));
                            let f0 = choose|f0: nat|
                                (#[trigger] spec_unify_args(m0, cs, ds, f0, 0) == spec_unify_args(
                                    mid,
                                    cs,
                                    ds,
                                    f0,
                                    i as int,
                                )) && (forall|g: nat|
                                    g >= f0 ==> spec_unify_args(m0, cs, ds, g, 0)
                                        == spec_unify_args(mid, cs, ds, g, i as int));
                            assert forall|g: nat| g >= f0 + fi && rr is Ok implies spec_unify_args(
                                m0,
                                cs,
                                ds,
                                g,
                                0,
                            ) == spec_unify_args(now, cs, ds, g, i + 1) by {
                                assert(spec_unify_args(m0, cs, ds, g, 0) == spec_unify_args(
                                    mid,
                                    cs,
                                    ds,
                                    g,
                                    i as int,
                                ));
                                assert(spec_unify(mid, cs[i as int], ds[i as int], g) == Some(
                                    (now, unify_err(rr)),
                                ));
                            }
                            assert forall|g: nat| g >= f0 + fi && rr is Err implies spec_unify_args(
                                m0,
                                cs,
                                ds,
                                g,
                                0,
                            ) == Some((now, unify_err(rr))) by {
                                assert(spec_unify_args(m0, cs, ds, g, 0) == spec_unify_args(
                                    mid,
                                    cs,
                                    ds,
                                    g,
                                    i as int,
                                ));
                                assert(spec_unify(mid, cs[i as int], ds[i as int], g) == Some(
                                    (now, unify_err(rr)),
                                ));
                            }
                            if rr is Err {
                                assert forall|g: nat| g >= f0 + fi + 1 implies spec_unify(
                                    m0,
                                    tau1@,
                                    tau2@,
                                    g,
                                ) == Some((now, unify_err(rr))) by {
                                    assert(spec_unify_args(m0, cs, ds, (g - 1) as nat, 0) == Some(
                                        (now, unify_err(rr)),
                                    ));
                                }
                                assert(spec_unify(m0, tau1@, tau2@, f0 + fi + 1) == Some(
                                    (now, unify_err(rr)),
                                ));
                            } else {
                                assert(spec_unify_args(m0, cs, ds, f0 + fi, 0) == spec_unify_args(
                                    now,
                                    cs,
                                    ds,
                                    f0 + fi,
                                    i + 1,
                                ));
                            }
                        }
                        match rr {
                            Err(e) => {
                                return Err(e);
                            },
                            Ok(()) => {
                                proof {
                                    let now = self.amap();
                                    assert forall|j: int|
                                        0 <= j < i + 1 implies canon(now, #[trigger] cs[j])
                                        == canon(now, ds[j]) by {
                                        if j < i {
                                            lemma_canon_equal_extend(mid, now, cs[j], ds[j]);
                                        } else {
                                            assert(canon(now, c1i@) == canon(now, c2i@));
                                        }
                                    }
                                }
                            },
                        }
                        i = i + 1;
                    }
                    proof {
                        let mend = self.amap();
                        lemma_canon_compose(m0, mend, tau1@);
                        lemma_canon_compose(m0, mend, tau2@);
                        assert(canon(mend, tau1@) == canon(mend, av));
                        assert(canon(mend, tau2@) == canon(mend, bv));
                        lemma_canon_seq_from(mend, 0, cs, 0);
                        lemma_canon_seq_from(mend, 0, ds, 0);
                        assert(canon(mend, av) == SpecMono::App(c1@, canon_seq_from(mend, 0, cs, 0)));
                        assert(canon(mend, bv) == SpecMono::App(c2@, canon_seq_from(mend, 0, ds, 0)));
                        assert forall|j: int| 0 <= j < cs.len() implies canon_seq_from(
                            mend,
                            0,
                            cs,
                            0,
                        )[j] == canon_seq_from(mend, 0, ds, 0)[j] by {
                            assert(canon_seq_from(mend, 0, cs, 0)[j] == canon_at(mend, 0, cs[0 + j]));
                            assert(canon_seq_from(mend, 0, ds, 0)[j] == canon_at(mend, 0, ds[0 + j]));
                            assert(canon(mend, cs[j]) == canon(mend, ds[j]));
                        }
                        assert(canon_seq_from(mend, 0, cs, 0) =~= canon_seq_from(mend, 0, ds, 0));
                        let f0 = choose|f0: nat|
                            (#[trigger] spec_unify_args(m0, cs, ds, f0, 0) == spec_unify_args(
                                mend,
                                cs,
                                ds,
                                f0,
                                i as int,
                            )) && (forall|g: nat|
                                g >= f0 ==> spec_unify_args(m0, cs, ds, g, 0) == spec_unify_args(
                                    mend,
                                    cs,
                                    ds,
                                    g,
                                    i as int,
                                ));
                        assert forall|g: nat| g >= f0 + 1 implies spec_unify(m0, tau1@, tau2@, g)
                            == Some((mend, Option::<SpecErr>::None)) by {
                            assert(spec_unify_args(m0, cs, ds, (g - 1) as nat, 0)
                                == spec_unify_args(mend, cs, ds, (g - 1) as nat, i as int));
                        }
                        assert(spec_unify(m0, tau1@, tau2@, f0 + 1) == Some(
                            (mend, Option::<SpecErr>::None),
                        ));
                    }
                    Ok(())
                } else {
                    proof {
                        assert forall|g: nat| g >= 1 implies spec_unify(m0, tau1@, tau2@, g)
                            == Some((m0, Some(SpecErr::Impossible(a@, b@)))) by {}
                        lemma_unify_one_step(
                            m0,
                            tau1@,
                            tau2@,
                            m0,
                            Some(SpecErr::Impossible(a@, b@)),
                        );
                    }
                    Err(InferenceError::ImpossibleUnification(a.clone(), b.clone()))
                }
            },
            (Mono::Var(alpha), _) => {
                proof {
                    assert(a@ == SpecMono::Var(alpha@));
                    assert(free_of(a@) == Set::empty().insert(alpha@));
                }
                if b.occurs(alpha) {
                    proof {
                        assert forall|g: nat| g >= 1 implies spec_unify(m0, tau1@, tau2@, g)
                            == Some((m0, Some(SpecErr::Recursive(b@, alpha@)))) by {}
                        lemma_unify_one_step(
                            m0,
                            tau1@,
                            tau2@,
                            m0,
                            Some(SpecErr::Recursive(b@, alpha@)),
                        );
                    }
                    Err(InferenceError::RecursiveType(b.clone(), alpha.clone()))
                } else {
                    proof {
                        lemma_insert_pre(m0, tau1@, tau2@, a@, b@, alpha@);
                    }
                    self.aliases.insert(alpha.clone(), b.clone());
                    proof {
                        lemma_insert_post(m0, self.amap(), tau1@, tau2@, a@, b@, alpha@);
                        assert forall|g: nat| g >= 1 implies spec_unify(m0, tau1@, tau2@, g)
                            == Some((m0.push((alpha@, b@)), Option::<SpecErr>::None)) by {}
                        lemma_unify_one_step(
                            m0,
                            tau1@,
                            tau2@,
                            m0.push((alpha@, b@)),
                            Option::<SpecErr>::None,
                        );
                    }
                    Ok(())
                }
            },
            (_, Mono::Var(beta)) => {
                proof {
                    assert(b@ == SpecMono::Var(beta@));
                    assert(free_of(b@) == Set::empty().insert(beta@));
                }
                if a.occurs(beta) {
                    proof {
                        assert(!(a@ is Var));
                        assert forall|g: nat| g >= 1 implies spec_unify(m0, tau1@, tau2@, g)
                            == Some((m0, Some(SpecErr::Recursive(a@, beta@)))) by {}
                        lemma_unify_one_step(
                            m0,
                            tau1@,
                            tau2@,
                            m0,
                            Some(SpecErr::Recursive(a@, beta@)),
                        );
                    }
                    Err(InferenceError::RecursiveType(a.clone(), beta.clone()))
                } else {
                    proof {
                        lemma_insert_pre(m0, tau2@, tau1@, b@, a@, beta@);
                    }
                    self.aliases.insert(beta.clone(), a.clone());
                    proof {
                        lemma_insert_post(m0, self.amap(), tau2@, tau1@, b@, a@, beta@);
                        assert(involved(m0, tau1@, tau2@) =~= involved(m0, tau2@, tau1@));
                        assert(!(a@ is Var));
                        assert forall|g: nat| g >= 1 implies spec_unify(m0, tau1@, tau2@, g)
                            == Some((m0.push((beta@, a@)), Option::<SpecErr>::None)) by {}
                        lemma_unify_one_step(
                            m0,
                            tau1@,
                            tau2@,
                            m0.push((beta@, a@)),
                            Option::<SpecErr>::None,
                        );
                    }
                    Ok(())
                }
            },
        }
    }
}

/// The names that a context binds.
pub open spec fn names_of(bs: Seq<(Seq<char>, SpecPoly)>) -> Set<Seq<char>> {
    Set::new(|x: Seq<char>| lookup(bs, x) is Some)
}

/// Being a prefix is transitive.
proof fn lemma_prefix_trans(s0: AliasSeq, s1: AliasSeq, s2: AliasSeq)
    requires
        s0.len() <= s1.len() <= s2.len(),
        s0 == s1.subrange(0, s0.len() as int),
        s1 == s2.subrange(0, s1.len() as int),
    ensures
        s0 == s2.subrange(0, s0.len() as int),
{
    assert forall|j: int| 0 <= j < s0.len() implies s0[j] == s2[j] by {
        assert(s0[j] == s1.subrange(0, s0.len() as int)[j]);
        assert(s1[j] == s2.subrange(0, s1.len() as int)[j]);
    }
    assert(s0 =~= s2.subrange(0, s0.len() as int));
}

impl AlgorithmJ {
    /// Infers a monotype for `e` under `gamma`, drawing fresh variables
    /// and extending the alias map as unification demands.
    #[verifier::loop_isolation(false)]
    #[verifier::rlimit(100)]
    pub fn infer(&mut self, e: &Expr, gamma: &Ctxt) -> (r: InferenceResult<Mono>)
        requires
            old(self).wf(),
        ensures
            final(self).wf(),
            final(self).amap().len() >= old(self).amap().len(),
            old(self).amap() == final(self).amap().subrange(0, old(self).amap().len() as int),
            infer_runs_to(
                *e,
                gamma@,
                old(self).amap(),
                old(self).counter_val(),
                final(self).amap(),
                final(self).counter_val(),
                infer_view(r),
            ),
            e matches Expr::Var(x) ==> match lookup(gamma@, x@) {
                Some(sigma) => {
                    &&& r matches Ok(tau) && tau@ == inst_body(
                        sigma.body,
                        sigma.vars,
                        fresh_monos(old(self).counter_val(), sigma.vars.len() as int),
                    )
                    &&& final(self).amap() == old(self).amap()
                    &&& final(self).counter_val() == counter_after(
                        old(self).counter_val(),
                        sigma.vars.len() as int,
                    )
                },
                None => {
                    &&& r matches Err(InferenceError::UnknownVar(y)) && y@ == x@
                    &&& final(self).amap() == old(self).amap()
                    &&& final(self).counter_val() == old(self).counter_val()
                },
            },
            e matches Expr::Abs(x, body) ==> r matches Ok(t) ==> (t@ matches SpecMono::App(
                ar,
                args,
            ) && ar == crate::types::arrow_str() && args.len() == 2 && args[0] == SpecMono::Var(
                fresh_name(next_counter(old(self).counter_val()) as int),
            )),
            e matches Expr::App(e0, e1) ==> r matches Ok(t) ==> t@ matches SpecMono::Var(..),
            r matches Err(InferenceError::UnknownVar(y)) ==> has_unbound(*e, names_of(gamma@)),
        decreases e,
    {
        let ghost s0 = self.amap();
        let ghost c0 = self.counter_val();
        match e {
            Expr::Var(x) => {
                match gamma.get(x) {
                    Some(sigma) => {
                        let k = sigma.0.len();
                        let news = self.new_vars(k);
                        let tau = sigma.inst(&news);
                        proof {
                            assert(lookup(gamma@, x@) == Some(sigma@));
                            assert(sigma@.vars.len() == k);
                            assert forall|g: nat| g >= 0 implies spec_infer(
                                *e,
                                gamma@,
                                s0,
                                c0,
                                g,
                            ) == Some((s0, counter_after(c0, k as int), Ok::<SpecMono, SpecErr>(tau@))) by {}
                            assert(spec_infer(*e, gamma@, s0, c0, 0) == Some(
                                (s0, counter_after(c0, k as int), Ok::<SpecMono, SpecErr>(tau@)),
                            ));
                        }
                        Ok(tau)
                    },
                    None => {
                        proof {
                            assert(!names_of(gamma@).contains(x@));
                            assert forall|g: nat| g >= 0 implies spec_infer(
                                *e,
                                gamma@,
                                s0,
                                c0,
                                g,
                            ) == Some((s0, c0, Err::<SpecMono, SpecErr>(SpecErr::Unknown(x@)))) by {}
                            assert(spec_infer(*e, gamma@, s0, c0, 0) == Some(
                                (s0, c0, Err::<SpecMono, SpecErr>(SpecErr::Unknown(x@))),
                            ));
                        }
                        Err(InferenceError::UnknownVar(x.clone()))
                    },
                }
            },
            Expr::App(e0, e1) => {
                let ghost m0 = self.amap();
                let tau0 = match self.infer(e0, gamma) {
                    Ok(t) => t,
                    Err(er) => {
                        proof {
                            let sa = self.amap();
                            let ca = self.counter_val();
                            let fa = choose|fa: nat|
                                (#[trigger] spec_infer(**e0, gamma@, s0, c0, fa) == Some(
                                    (sa, ca, Err::<SpecMono, SpecErr>(err_view(er))),
                                )) && (forall|g: nat|
                                    g >= fa ==> spec_infer(**e0, gamma@, s0, c0, g) == Some(
                                        (sa, ca, Err::<SpecMono, SpecErr>(err_view(er))),
                                    ));
                            assert forall|g: nat| g >= fa implies spec_infer(
                                *e,
                                gamma@,
                                s0,
                                c0,
                                g,
                            ) == Some((sa, ca, Err::<SpecMono, SpecErr>(err_view(er)))) by {
                                assert(spec_infer(**e0, gamma@, s0, c0, g) == Some(
                                    (sa, ca, Err::<SpecMono, SpecErr>(err_view(er))),
                                ));
                            }
                            assert(spec_infer(*e, gamma@, s0, c0, fa) == Some(
                                (sa, ca, Err::<SpecMono, SpecErr>(err_view(er))),
                            ));
                        }
                        return Err(er);
                    },
                };
                let ghost sa = self.amap();
                let ghost ca = self.counter_val();
                let ghost t0v = tau0@;
                let ghost fa: nat = choose|fa: nat|
                    (#[trigger] spec_infer(**e0, gamma@, s0, c0, fa) == Some((sa, ca, Ok::<SpecMono, SpecErr>(t0v))))
                        && (forall|g: nat|
                        g >= fa ==> spec_infer(**e0, gamma@, s0, c0, g) == Some(
                            (sa, ca, Ok::<SpecMono, SpecErr>(t0v)),
                        ));
                let ghost m1 = self.amap();
                let tau1 = match self.infer(e1, gamma) {
                    Ok(t) => t,
                    Err(er) => {
                        proof {
                            lemma_prefix_trans(m0, m1, self.amap());
                            let sb = self.amap();
                            let cb = self.counter_val();
                            let fb = choose|fb: nat|
                                (#[trigger] spec_infer(**e1, gamma@, sa, ca, fb) == Some(
                                    (sb, cb, Err::<SpecMono, SpecErr>(err_view(er))),
                                )) && (forall|g: nat|
                                    g >= fb ==> spec_infer(**e1, gamma@, sa, ca, g) == Some(
                                        (sb, cb, Err::<SpecMono, SpecErr>(err_view(er))),
                                    ));
                            assert forall|g: nat| g >= fa + fb implies spec_infer(
                                *e,
                                gamma@,
                                s0,
                                c0,
                                g,
                            ) == Some((sb, cb, Err::<SpecMono, SpecErr>(err_view(er)))) by {
                                assert(spec_infer(**e0, gamma@, s0, c0, g) == Some(
                                    (sa, ca, Ok::<SpecMono, SpecErr>(t0v)),
                                ));
                                assert(spec_infer(**e1, gamma@, sa, ca, g) == Some(
                                    (sb, cb, Err::<SpecMono, SpecErr>(err_view(er))),
                                ));
                            }
                            assert(spec_infer(*e, gamma@, s0, c0, fa + fb) == Some(
                                (sb, cb, Err::<SpecMono, SpecErr>(err_view(er))),
                            ));
                        }
                        return Err(er);
                    },
                };
                let ghost sb = self.amap();
                let ghost cb = self.counter_val();
                let ghost t1v = tau1@;
                let ghost fb: nat = choose|fb: nat|
                    (#[trigger] spec_infer(**e1, gamma@, sa, ca, fb) == Some((sb, cb, Ok::<SpecMono, SpecErr>(t1v))))
                        && (forall|g: nat|
                        g >= fb ==> spec_infer(**e1, gamma@, sa, ca, g) == Some(
                            (sb, cb, Ok::<SpecMono, SpecErr>(t1v)),
                        ));
                let ghost m2 = self.amap();
                let tau_prime = self.new_var();
                let ghost cc = self.counter_val();
                let ghost rv = tau_prime@;
                let ghost arrv = SpecMono::App(arrow_str(), seq![t1v, rv]);
                let arr = Mono::arrow(tau1, tau_prime.clone());
                proof {
                    assert(arr@ == arrv);
                }
                let r2 = self.unify(tau0, arr);
                let ghost mend = self.amap();
                let ghost fu: nat = choose|fu: nat|
                    (#[trigger] spec_unify(sb, t0v, arrv, fu) == Some((mend, unify_err(r2))))
                        && (forall|g: nat|
                        g >= fu ==> spec_unify(sb, t0v, arrv, g) == Some((mend, unify_err(r2))));
                proof {
                    lemma_prefix_trans(m0, m1, m2);
                    lemma_prefix_trans(m0, m2, self.amap());
                }
                match r2 {
                    Ok(()) => {
                        proof {
                            assert forall|g: nat| g >= fa + fb + fu implies spec_infer(
                                *e,
                                gamma@,
                                s0,
                                c0,
                                g,
                            ) == Some((mend, cc, Ok::<SpecMono, SpecErr>(rv))) by {
                                assert(spec_infer(**e0, gamma@, s0, c0, g) == Some(
                                    (sa, ca, Ok::<SpecMono, SpecErr>(t0v)),
                                ));
                                assert(spec_infer(**e1, gamma@, sa, ca, g) == Some(
                                    (sb, cb, Ok::<SpecMono, SpecErr>(t1v)),
                                ));
                                assert(spec_unify(sb, t0v, arrv, g) == Some(
                                    (mend, unify_err(r2)),
                                ));
                            }
                            assert(spec_infer(*e, gamma@, s0, c0, fa + fb + fu) == Some(
                                (mend, cc, Ok::<SpecMono, SpecErr>(rv)),
                            ));
                        }
                        Ok(tau_prime)
                    },
                    Err(er) => {
                        proof {
                            assert(unify_err(r2) == Some(err_view(er)));
                            assert forall|g: nat| g >= fa + fb + fu implies spec_infer(
                                *e,
                                gamma@,
                                s0,
                                c0,
                                g,
                            ) == Some((mend, cc, Err::<SpecMono, SpecErr>(err_view(er)))) by {
                                assert(spec_infer(**e0, gamma@, s0, c0, g) == Some(
                                    (sa, ca, Ok::<SpecMono, SpecErr>(t0v)),
                                ));
                                assert(spec_infer(**e1, gamma@, sa, ca, g) == Some(
                                    (sb, cb, Ok::<SpecMono, SpecErr>(t1v)),
                                ));
                                assert(spec_unify(sb, t0v, arrv, g) == Some(
                                    (mend, unify_err(r2)),
                                ));
                            }
                            assert(spec_infer(*e, gamma@, s0, c0, fa + fb + fu) == Some(
                                (mend, cc, Err::<SpecMono, SpecErr>(err_view(er))),
                            ));
                        }
                        Err(er)
                    },
                }
            },
            Expr::Abs(x, body) => {
                let tau = self.new_var();
                let ghost c1 = self.counter_val();
                let ghost pv = tau@;
                let gamma_prime = gamma.bind(x.as_str(), Poly::mono(tau.clone()));
                let ghost gp = gamma_prime@;
                proof {
                    let sv = gamma_prime@.last().1;
                    assert(gamma_prime@ =~= gamma@.push((x@, sv)));
                    assert(sv.vars =~= Seq::<Seq<char>>::empty());
                    assert(sv == SpecPoly { vars: Seq::<Seq<char>>::empty(), body: pv });
                    assert forall|y: Seq<char>|
                        names_of(gamma_prime@).contains(y) implies names_of(gamma@).insert(
                        x@,
                    ).contains(y) by {
                        lemma_lookup_push(gamma@, x@, sv, y);
                    }
                    assert forall|y: Seq<char>|
                        names_of(gamma@).insert(x@).contains(y) implies names_of(
                        gamma_prime@,
                    ).contains(y) by {
                        lemma_lookup_push(gamma@, x@, sv, y);
                    }
                    assert(names_of(gamma_prime@) =~= names_of(gamma@).insert(x@));
                }
                match self.infer(body, &gamma_prime) {
                    Ok(tau_prime) => {
                        let ghost sb = self.amap();
                        let ghost cb = self.counter_val();
                        let ghost btv = tau_prime@;
                        let ghost fb: nat = choose|fb: nat|
                            (#[trigger] spec_infer(**body, gp, s0, c1, fb) == Some(
                                (sb, cb, Ok::<SpecMono, SpecErr>(btv)),
                            )) && (forall|g: nat|
                                g >= fb ==> spec_infer(**body, gp, s0, c1, g) == Some(
                                    (sb, cb, Ok::<SpecMono, SpecErr>(btv)),
                                ));
                        let out = Mono::arrow(tau, tau_prime);
                        proof {
                            assert(out@ == SpecMono::App(arrow_str(), seq![pv, btv]));
                            assert forall|g: nat| g >= fb implies spec_infer(
                                *e,
                                gamma@,
                                s0,
                                c0,
                                g,
                            ) == Some((sb, cb, Ok::<SpecMono, SpecErr>(out@))) by {
                                assert(spec_infer(**body, gp, s0, c1, g) == Some(
                                    (sb, cb, Ok::<SpecMono, SpecErr>(btv)),
                                ));
                            }
                            assert(spec_infer(*e, gamma@, s0, c0, fb) == Some(
                                (sb, cb, Ok::<SpecMono, SpecErr>(out@)),
                            ));
                        }
                        Ok(out)
                    },
                    Err(er) => {
                        proof {
                            let sb = self.amap();
                            let cb = self.counter_val();
                            let fb = choose|fb: nat|
                                (#[trigger] spec_infer(**body, gp, s0, c1, fb) == Some(
                                    (sb, cb, Err::<SpecMono, SpecErr>(err_view(er))),
                                )) && (forall|g: nat|
                                    g >= fb ==> spec_infer(**body, gp, s0, c1, g) == Some(
                                        (sb, cb, Err::<SpecMono, SpecErr>(err_view(er))),
                                    ));
                            assert forall|g: nat| g >= fb implies spec_infer(
                                *e,
                                gamma@,
                                s0,
                                c0,
                                g,
                            ) == Some((sb, cb, Err::<SpecMono, SpecErr>(err_view(er)))) by {
                                assert(spec_infer(**body, gp, s0, c1, g) == Some(
                                    (sb, cb, Err::<SpecMono, SpecErr>(err_view(er))),
                                ));
                            }
                            assert(spec_infer(*e, gamma@, s0, c0, fb) == Some(
                                (sb, cb, Err::<SpecMono, SpecErr>(err_view(er))),
                            ));
                        }
                        Err(er)
                    },
                }
            },
            Expr::Let(x, e0, e1) => {
                let ghost m0 = self.amap();
                let tau0 = match self.infer(e0, gamma) {
                    Ok(t) => t,
                    Err(er) => {
                        proof {
                            let sa = self.amap();
                            let ca = self.counter_val();
                            let fa = choose|fa: nat|
                                (#[trigger] spec_infer(**e0, gamma@, s0, c0, fa) == Some(
                                    (sa, ca, Err::<SpecMono, SpecErr>(err_view(er))),
                                )) && (forall|g: nat|
                                    g >= fa ==> spec_infer(**e0, gamma@, s0, c0, g) == Some(
                                        (sa, ca, Err::<SpecMono, SpecErr>(err_view(er))),
                                    ));
                            assert forall|g: nat| g >= fa implies spec_infer(
                                *e,
                                gamma@,
                                s0,
                                c0,
                                g,
                            ) == Some((sa, ca, Err::<SpecMono, SpecErr>(err_view(er)))) by {
                                assert(spec_infer(**e0, gamma@, s0, c0, g) == Some(
                                    (sa, ca, Err::<SpecMono, SpecErr>(err_view(er))),
                                ));
                            }
                            assert(spec_infer(*e, gamma@, s0, c0, fa) == Some(
                                (sa, ca, Err::<SpecMono, SpecErr>(err_view(er))),
                            ));
                        }
                        return Err(er);
                    },
                };
                let ghost sa = self.amap();
                let ghost ca = self.counter_val();
                let ghost t0v = tau0@;
                let ghost fa: nat = choose|fa: nat|
                    (#[trigger] spec_infer(**e0, gamma@, s0, c0, fa) == Some((sa, ca, Ok::<SpecMono, SpecErr>(t0v))))
                        && (forall|g: nat|
                        g >= fa ==> spec_infer(**e0, gamma@, s0, c0, g) == Some(
                            (sa, ca, Ok::<SpecMono, SpecErr>(t0v)),
                        ));
                let canon_tau = tau0.canonicalize(&self.aliases);
                let ghost ctv = canon_tau@;
                let sigma = canon_tau.generalize(gamma);
                proof {
                    assert(sigma@ == SpecPoly {
                        vars: name_diff(free_list(ctv), ctxt_free(gamma@)),
                        body: ctv,
                    });
                }
                let gamma_prime = gamma.bind(x.as_str(), sigma);
                let ghost gp = gamma_prime@;
                proof {
                    let ghost sv = gamma_prime@.last().1;
                    assert forall|y: Seq<char>|
                        names_of(gamma_prime@).contains(y) implies names_of(gamma@).insert(
                        x@,
                    ).contains(y) by {
                        lemma_lookup_push(gamma@, x@, sv, y);
                        assert(gamma_prime@ =~= gamma@.push((x@, sv)));
                    }
                    assert forall|y: Seq<char>|
                        names_of(gamma@).insert(x@).contains(y) implies names_of(
                        gamma_prime@,
                    ).contains(y) by {
                        lemma_lookup_push(gamma@, x@, sv, y);
                        assert(gamma_prime@ =~= gamma@.push((x@, sv)));
                    }
                    assert(names_of(gamma_prime@) =~= names_of(gamma@).insert(x@));
                }
                let ghost m1 = self.amap();
                match self.infer(e1, &gamma_prime) {
                    Ok(tau_prime) => {
                        proof {
                            lemma_prefix_trans(m0, m1, self.amap());
                            let sb = self.amap();
                            let cb = self.counter_val();
                            let fb = choose|fb: nat|
                                (#[trigger] spec_infer(**e1, gp, sa, ca, fb) == Some(
                                    (sb, cb, Ok::<SpecMono, SpecErr>(tau_prime@)),
                                )) && (forall|g: nat|
                                    g >= fb ==> spec_infer(**e1, gp, sa, ca, g) == Some(
                                        (sb, cb, Ok::<SpecMono, SpecErr>(tau_prime@)),
                                    ));
                            assert forall|g: nat| g >= fa + fb implies spec_infer(
                                *e,
                                gamma@,
                                s0,
                                c0,
                                g,
                            ) == Some((sb, cb, Ok::<SpecMono, SpecErr>(tau_prime@))) by {
                                assert(spec_infer(**e0, gamma@, s0, c0, g) == Some(
                                    (sa, ca, Ok::<SpecMono, SpecErr>(t0v)),
                                ));
                                assert(spec_infer(**e1, gp, sa, ca, g) == Some(
                                    (sb, cb, Ok::<SpecMono, SpecErr>(tau_prime@)),
                                ));
                            }
                            assert(spec_infer(*e, gamma@, s0, c0, fa + fb) == Some(
                                (sb, cb, Ok::<SpecMono, SpecErr>(tau_prime@)),
                            ));
                        }
                        Ok(tau_prime)
                    },
                    Err(er) => {
                        proof {
                            lemma_prefix_trans(m0, m1, self.amap());
                            let sb = self.amap();
                            let cb = self.counter_val();
                            let fb = choose|fb: nat|
                                (#[trigger] spec_infer(**e1, gp, sa, ca, fb) == Some(
                                    (sb, cb, Err::<SpecMono, SpecErr>(err_view(er))),
                                )) && (forall|g: nat|
                                    g >= fb ==> spec_infer(**e1, gp, sa, ca, g) == Some(
                                        (sb, cb, Err::<SpecMono, SpecErr>(err_view(er))),
                                    ));
                            assert forall|g: nat| g >= fa + fb implies spec_infer(
                                *e,
                                gamma@,
                                s0,
                                c0,
                                g,
                            ) == Some((sb, cb, Err::<SpecMono, SpecErr>(err_view(er)))) by {
                                assert(spec_infer(**e0, gamma@, s0, c0, g) == Some(
                                    (sa, ca, Ok::<SpecMono, SpecErr>(t0v)),
                                ));
                                assert(spec_infer(**e1, gp, sa, ca, g) == Some(
                                    (sb, cb, Err::<SpecMono, SpecErr>(err_view(er))),
                                ));
                            }
                            assert(spec_infer(*e, gamma@, s0, c0, fa + fb) == Some(
                                (sb, cb, Err::<SpecMono, SpecErr>(err_view(er))),
                            ));
                        }
                        Err(er)
                    },
                }
            },
        }
    }
}

/// Infers the most general type scheme of `e` under `gamma`, with a
/// driver created fresh for this one call.
pub fn infer(e: &Expr, gamma: &Ctxt) -> (r: InferenceResult<Poly>)
    ensures
        infer_computes(*e, gamma@, scheme_view(r)),
        e matches Expr::Var(x) ==> match lookup(gamma@, x@) {
            Some(sigma) => r matches Ok(p) && p@.body == inst_body(
                sigma.body,
                sigma.vars,
                fresh_monos(0, sigma.vars.len() as int),
            ),
            None => r matches Err(InferenceError::UnknownVar(y)) && y@ == x@,
        },
        r matches Err(InferenceError::UnknownVar(y)) ==> has_unbound(*e, names_of(gamma@)),
        r matches Ok(p) ==> p@.vars.no_duplicates() && p@.vars.to_set() == free_of(
            p@.body,
        ).difference(ctxt_free(gamma@)),
{
    let mut algorithm = AlgorithmJ::new();
    let ghost ms = algorithm.amap();
    proof {
        assert(ms =~= Seq::<(Seq<char>, SpecMono)>::empty());
    }
    let tau = match algorithm.infer(e, gamma) {
        Ok(t) => t,
        Err(er) => {
            proof {
                let sd = algorithm.amap();
                let cd = algorithm.counter_val();
                let fd = choose|fd: nat|
                    (#[trigger] spec_infer(*e, gamma@, ms, 0, fd) == Some(
                        (sd, cd, Err::<SpecMono, SpecErr>(err_view(er))),
                    )) && (forall|g: nat|
                        g >= fd ==> spec_infer(*e, gamma@, ms, 0, g) == Some(
                            (sd, cd, Err::<SpecMono, SpecErr>(err_view(er))),
                        ));
                assert forall|g: nat| g >= fd implies spec_infer_scheme(*e, gamma@, g) == Some(
                    Err::<SpecPoly, SpecErr>(err_view(er)),
                ) by {
                    assert(spec_infer(*e, gamma@, Seq::empty(), 0, g) == Some(
                        (sd, cd, Err::<SpecMono, SpecErr>(err_view(er))),
                    ));
                }
                assert(spec_infer_scheme(*e, gamma@, fd) == Some(
                    Err::<SpecPoly, SpecErr>(err_view(er)),
                ));
            }
            return Err(er);
        },
    };
    let ghost sd = algorithm.amap();
    let ghost cd = algorithm.counter_val();
    let ghost tv = tau@;
    let ghost fd: nat = choose|fd: nat|
        (#[trigger] spec_infer(*e, gamma@, ms, 0, fd) == Some(
            (sd, cd, Ok::<SpecMono, SpecErr>(tv)),
        )) && (forall|g: nat|
            g >= fd ==> spec_infer(*e, gamma@, ms, 0, g) == Some(
                (sd, cd, Ok::<SpecMono, SpecErr>(tv)),
            ));
    proof {
        if algorithm.amap().len() == 0 {
            lemma_canon_untouched(algorithm.amap(), 0, tau@);
        }
    }
    let canon_tau = tau.canonicalize(&algorithm.aliases);
    let ghost ctv = canon_tau@;
    let sigma = canon_tau.generalize(gamma);
    proof {
        assert(sigma@ == SpecPoly { vars: name_diff(free_list(ctv), ctxt_free(gamma@)), body: ctv });
        assert forall|g: nat| g >= fd implies spec_infer_scheme(*e, gamma@, g) == Some(
            Ok::<SpecPoly, SpecErr>(sigma@),
        ) by {
            assert(spec_infer(*e, gamma@, Seq::empty(), 0, g) == Some(
                (sd, cd, Ok::<SpecMono, SpecErr>(tv)),
            ));
        }
        assert(spec_infer_scheme(*e, gamma@, fd) == Some(Ok::<SpecPoly, SpecErr>(sigma@)));
    }
    Ok(sigma)
}

/// The alias recorded for a canonical variable meets the map's
/// well-formedness obligations.
proof fn lemma_insert_pre(
    m0: AliasSeq,
    t1: SpecMono,
    t2: SpecMono,
    a: SpecMono,
    b: SpecMono,
    alpha: Seq<char>,
)
    requires
        aliases_wf(m0),
        a == canon(m0, t1),
        b == canon(m0, t2),
        a == SpecMono::Var(alpha),
        !free_of(b).contains(alpha),
    ensures
        !is_key_from(m0, 0, alpha),
        forall|j: int| 0 <= j < m0.len() ==> !free_of(b).contains(#[trigger] m0[j].0),
{
    lemma_canon_no_keys(m0, 0, t1);
    lemma_canon_no_keys(m0, 0, t2);
    assert(free_of(a) == Set::empty().insert(alpha));
    assert(free_of(a).contains(alpha));
    assert forall|j: int| 0 <= j < m0.len() implies !free_of(b).contains(#[trigger] m0[j].0) by {
        if free_of(b).contains(m0[j].0) {
            assert(is_key_from(m0, 0, m0[j].0));
        }
    }
}

/// What recording one alias does to canonical forms and to the set of
/// involved variables.
proof fn lemma_insert_post(
    m0: AliasSeq,
    m1: AliasSeq,
    t1: SpecMono,
    t2: SpecMono,
    a: SpecMono,
    b: SpecMono,
    alpha: Seq<char>,
)
    requires
        aliases_wf(m0),
        aliases_wf(m1),
        a == canon(m0, t1),
        b == canon(m0, t2),
        a == SpecMono::Var(alpha),
        !free_of(b).contains(alpha),
        m1 == m0.push((alpha, b)),
    ensures
        canon(m1, t1) == canon(m1, t2),
        m0 == m1.subrange(0, m0.len() as int),
        m1.len() == m0.len() + 1,
        forall|j: int|
            m0.len() <= j < m1.len() ==> involved(m0, t1, t2).contains((#[trigger] m1[j]).0)
                && free_of(m1[j].1).subset_of(involved(m0, t1, t2)),
{
    assert(m0 =~= m1.subrange(0, m0.len() as int));
    lemma_canon_no_keys(m0, 0, t1);
    lemma_canon_no_keys(m0, 0, t2);
    lemma_canon_free_in(m0, 0, t1);
    lemma_canon_free_in(m0, 0, t2);
    lemma_valfree_from(m0, 0);
    // canonical forms are untouched by the old map
    assert forall|j: int| 0 <= j < m0.len() implies !free_of(a).contains(#[trigger] m0[j].0) by {
        if free_of(a).contains(m0[j].0) {
            assert(is_key_from(m0, 0, m0[j].0));
        }
    }
    assert forall|j: int| 0 <= j < m0.len() implies !free_of(b).contains(#[trigger] m0[j].0) by {
        if free_of(b).contains(m0[j].0) {
            assert(is_key_from(m0, 0, m0[j].0));
        }
    }
    lemma_canon_untouched(m0, 0, a);
    lemma_canon_untouched(m0, 0, b);
    lemma_canon_compose(m0, m1, t1);
    lemma_canon_compose(m0, m1, t2);
    lemma_canon_push(m0, (alpha, b), 0, a);
    lemma_canon_push(m0, (alpha, b), 0, b);
    assert(canon(m1, a) == subst(canon(m0, a), alpha, b));
    assert(canon(m0, a) == a);
    assert(subst(a, alpha, b) == b);
    lemma_subst_id(b, alpha, b);
    assert(canon(m1, b) == subst(b, alpha, b));
    assert(canon(m1, t1) == canon(m1, canon(m0, t1)));
    assert(canon(m1, t2) == canon(m1, canon(m0, t2)));
    // the new entry stays within the involved variables
    assert(free_of(a).contains(alpha));
    assert(involved(m0, t1, t2).contains(alpha));
    assert forall|x: Seq<char>| free_of(b).contains(x) implies involved(m0, t1, t2).contains(
        x,
    ) by {}
    assert forall|j: int|
        m0.len() <= j < m1.len() implies involved(m0, t1, t2).contains((#[trigger] m1[j]).0)
        && free_of(m1[j].1).subset_of(involved(m0, t1, t2)) by {
        assert(m1[j] == (alpha, b));
    }
}

/// The recursive call on a pair of children is made on a strictly
/// smaller problem.
proof fn lemma_wf_mid_facts(
    m0: AliasSeq,
    mid: AliasSeq,
    t1: SpecMono,
    t2: SpecMono,
    c1: SpecMono,
    c2: SpecMono,
    av: SpecMono,
    bv: SpecMono,
    w: Set<Seq<char>>,
)
    requires
        aliases_wf(m0),
        aliases_wf(mid),
        av == canon(m0, t1),
        bv == canon(m0, t2),
        av is App,
        bv is App,
        free_of(c1).subset_of(free_of(av)),
        free_of(c2).subset_of(free_of(bv)),
        mono_size(c1) < mono_size(av),
        mono_size(c2) < mono_size(bv),
        w == involved(m0, t1, t2),
        mid.len() >= m0.len(),
        m0 == mid.subrange(0, m0.len() as int),
        forall|j: int|
            m0.len() <= j < mid.len() ==> w.contains((#[trigger] mid[j]).0) && free_of(
                mid[j].1,
            ).subset_of(w),
    ensures
        unresolved(mid, c1, c2).len() <= unresolved(m0, t1, t2).len(),
        mid.len() > m0.len() ==> unresolved(mid, c1, c2).len() < unresolved(m0, t1, t2).len(),
        mid == m0 ==> mono_size(canon(mid, c1)) + mono_size(canon(mid, c2)) < mono_size(
            canon(m0, t1),
        ) + mono_size(canon(m0, t2)),
{
    lemma_canon_no_keys(m0, 0, t1);
    lemma_canon_no_keys(m0, 0, t2);
    lemma_canon_free_in(m0, 0, t1);
    lemma_canon_free_in(m0, 0, t2);
    lemma_valfree_from(m0, 0);
    lemma_valfree_from(mid, 0);
    lemma_keyset_from(m0, 0);
    lemma_keyset_from(mid, 0);
    lemma_unresolved_finite(m0, t1, t2);
    lemma_unresolved_finite(mid, c1, c2);
    // the child problem involves no variable outside `w` minus old keys
    assert forall|x: Seq<char>| unresolved(mid, c1, c2).contains(x) implies unresolved(
        m0,
        t1,
        t2,
    ).contains(x) by {
        assert(involved(mid, c1, c2).contains(x));
        if free_of(c1).contains(x) || free_of(c2).contains(x) {
            assert(w.contains(x));
        } else {
            assert(valfree_from(mid, 0).contains(x));
            let j = choose|j: int|
                0 <= j < mid.len() && (#[trigger] free_of(mid[j].1)).contains(x);
            if j < m0.len() {
                assert(mid[j] == m0[j]);
                assert(free_of(m0[j].1).contains(x));
                assert(valfree_from(m0, 0).contains(x));
            } else {
                assert(free_of(mid[j].1).subset_of(w));
            }
        }
        assert(!keyset_from(mid, 0).contains(x));
        assert(!keyset_from(m0, 0).contains(x)) by {
            if is_key_from(m0, 0, x) {
                let j = choose|j: int| 0 <= j < m0.len() && (#[trigger] m0[j].0) == x;
                assert(mid[j] == m0[j]);
                assert(is_key_from(mid, 0, x));
            }
        }
    }
    vstd::set_lib::lemma_len_subset(unresolved(mid, c1, c2), unresolved(m0, t1, t2));
    if mid.len() > m0.len() {
        let kappa = mid[m0.len() as int].0;
        assert(w.contains(kappa));
        assert(is_key_from(mid, 0, kappa)) by {
            assert((mid[m0.len() as int]).0 == kappa);
        }
        assert(!unresolved(mid, c1, c2).contains(kappa));
        assert(!is_key_from(m0, 0, kappa)) by {
            if is_key_from(m0, 0, kappa) {
                let j = choose|j: int| 0 <= j < m0.len() && (#[trigger] m0[j].0) == kappa;
                assert(mid[j] == m0[j]);
                assert(mid[j].0 == mid[m0.len() as int].0);
            }
        }
        assert(unresolved(m0, t1, t2).contains(kappa));
        unresolved(mid, c1, c2).lemma_subset_not_in_lt(unresolved(m0, t1, t2), kappa);
    }
    if mid == m0 {
        assert forall|j: int| 0 <= j < m0.len() implies !free_of(c1).contains(
            #[trigger] m0[j].0,
        ) by {
            if free_of(c1).contains(m0[j].0) {
                assert(free_of(av).contains(m0[j].0));
                assert(is_key_from(m0, 0, m0[j].0));
            }
        }
        assert forall|j: int| 0 <= j < m0.len() implies !free_of(c2).contains(
            #[trigger] m0[j].0,
        ) by {
            if free_of(c2).contains(m0[j].0) {
                assert(free_of(bv).contains(m0[j].0));
                assert(is_key_from(m0, 0, m0[j].0));
            }
        }
        lemma_canon_untouched(m0, 0, c1);
        lemma_canon_untouched(m0, 0, c2);
    }
}

/// The variables involved in a child problem are involved in the parent
/// problem.
proof fn lemma_involved_sub(
    m0: AliasSeq,
    mid: AliasSeq,
    t1: SpecMono,
    t2: SpecMono,
    c1: SpecMono,
    c2: SpecMono,
    av: SpecMono,
    bv: SpecMono,
    w: Set<Seq<char>>,
)
    requires
        aliases_wf(m0),
        av == canon(m0, t1),
        bv == canon(m0, t2),
        free_of(c1).subset_of(free_of(av)),
        free_of(c2).subset_of(free_of(bv)),
        w == involved(m0, t1, t2),
        mid.len() >= m0.len(),
        m0 == mid.subrange(0, m0.len() as int),
        forall|j: int|
            m0.len() <= j < mid.len() ==> w.contains((#[trigger] mid[j]).0) && free_of(
                mid[j].1,
            ).subset_of(w),
    ensures
        involved(mid, c1, c2).subset_of(w),
{
    lemma_canon_free_in(m0, 0, t1);
    lemma_canon_free_in(m0, 0, t2);
    lemma_valfree_from(m0, 0);
    lemma_valfree_from(mid, 0);
    assert forall|x: Seq<char>| involved(mid, c1, c2).contains(x) implies w.contains(x) by {
        if free_of(c1).contains(x) || free_of(c2).contains(x) {
        } else {
            assert(valfree_from(mid, 0).contains(x));
            let j = choose|j: int|
                0 <= j < mid.len() && (#[trigger] free_of(mid[j].1)).contains(x);
            if j < m0.len() {
                assert(mid[j] == m0[j]);
                assert(free_of(m0[j].1).contains(x));
                assert(valfree_from(m0, 0).contains(x));
            } else {
                assert(free_of(mid[j].1).subset_of(w));
            }
        }
    }
}

} // verus!

