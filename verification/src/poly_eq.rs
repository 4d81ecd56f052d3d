//! Structural (alpha) equality of type schemes: two schemes are equal
//! when a bijection between their quantified variables makes the bodies
//! identical, while free variables must match by name.

use crate::types::{contains_name, mono_view, monos_view, Mono, Poly, SpecMono, SpecPoly};
use crate::types::{
    first_index_from, free_of, free_of_seq_from, inst_body, inst_seq_from, lemma_first_index_from,
    lemma_free_of_seq_from, lemma_inst_seq_from, lemma_monos_view_from,
};
use vstd::prelude::*;

verus! {

broadcast use
    vstd::std_specs::vec::axiom_vec_index_decreases,
    vstd::seq::axiom_seq_index_decreases,
    vstd::set::group_set_axioms,
    vstd::seq::group_seq_axioms,
    vstd::map::group_map_axioms;

/// The partial bijection built so far, in both directions.
pub type NameMap = Map<Seq<char>, Seq<char>>;

/// Walks both bodies in lock step.  At a pair of variables quantified on
/// both sides, the first encounter fixes the pairing and later
/// encounters must agree with it in both directions; variables
/// quantified on neither side must match by name; a variable quantified
/// on exactly one side fails; applications must agree in constructor and
/// arity and recurse pairwise.  `None` is failure; there is no
/// backtracking.
pub open spec fn alpha_walk(
    q1: Set<Seq<char>>,
    q2: Set<Seq<char>>,
    t1: SpecMono,
    t2: SpecMono,
    l2r: NameMap,
    r2l: NameMap,
) -> Option<(NameMap, NameMap)>
    decreases t1, 0int,
{
    match (t1, t2) {
        (SpecMono::Var(a1), SpecMono::Var(a2)) => {
            if q1.contains(a1) && q2.contains(a2) {
                if !l2r.contains_key(a1) && !r2l.contains_key(a2) {
                    Some((l2r.insert(a1, a2), r2l.insert(a2, a1)))
                } else if l2r.contains_key(a1) && r2l.contains_key(a2) && l2r[a1] == a2 && r2l[a2]
                    == a1 {
                    Some((l2r, r2l))
                } else {
                    None
                }
            } else if !q1.contains(a1) && !q2.contains(a2) {
                if a1 == a2 {
                    Some((l2r, r2l))
                } else {
                    None
                }
            } else {
                None
            }
        },
        (SpecMono::App(c1, ts1), SpecMono::App(c2, ts2)) => {
            if c1 == c2 && ts1.len() == ts2.len() {
                alpha_walk_seq(q1, q2, ts1, ts2, l2r, r2l, 0)
            } else {
                None
            }
        },
        _ => None,
    }
}

/// Walks the argument pairs from position `i` on, threading the maps.
pub open spec fn alpha_walk_seq(
    q1: Set<Seq<char>>,
    q2: Set<Seq<char>>,
    ts1: Seq<SpecMono>,
    ts2: Seq<SpecMono>,
    l2r: NameMap,
    r2l: NameMap,
    i: int,
) -> Option<(NameMap, NameMap)>
    decreases ts1, ts1.len() - i,
{
    if i < 0 || i >= ts1.len() || ts1.len() != ts2.len() {
        Some((l2r, r2l))
    } else {
        match alpha_walk(q1, q2, ts1[i], ts2[i], l2r, r2l) {
            Some(ms) => alpha_walk_seq(q1, q2, ts1, ts2, ms.0, ms.1, i + 1),
            None => None,
        }
    }
}

/// Alpha-equivalence of two schemes.
pub open spec fn alpha_eq(p1: SpecPoly, p2: SpecPoly) -> bool {
    alpha_walk(
        p1.vars.to_set(),
        p2.vars.to_set(),
        p1.body,
        p2.body,
        Map::empty(),
        Map::empty(),
    ) is Some
}

/// The pairs of `s` as a mapping; a later pair for the same key wins.
pub open spec fn pairs_map(s: Seq<(Seq<char>, Seq<char>)>) -> NameMap
    decreases s.len(),
{
    if s.len() == 0 {
        Map::empty()
    } else {
        pairs_map(s.drop_last()).insert(s.last().0, s.last().1)
    }
}

/// What the mapping of a pair list holds.
pub proof fn lemma_pairs_map(s: Seq<(Seq<char>, Seq<char>)>)
    ensures
        forall|x: Seq<char>|
            pairs_map(s).contains_key(x) <==> (exists|j: int|
                0 <= j < s.len() && (#[trigger] s[j]).0 == x),
    decreases s.len(),
{
    if s.len() > 0 {
        lemma_pairs_map(s.drop_last());
        assert forall|x: Seq<char>| pairs_map(s).contains_key(x) implies (exists|j: int|
            0 <= j < s.len() && (#[trigger] s[j]).0 == x) by {
            if x == s.last().0 {
                assert((s[s.len() - 1]).0 == x);
            } else {
                assert(pairs_map(s.drop_last()).contains_key(x));
                let j = choose|j: int|
                    0 <= j < s.drop_last().len() && (#[trigger] s.drop_last()[j]).0 == x;
                assert((s[j]).0 == x);
            }
        }
        assert forall|x: Seq<char>|
            (exists|j: int| 0 <= j < s.len() && (#[trigger] s[j]).0 == x) implies pairs_map(
            s,
        ).contains_key(x) by {
            let j = choose|j: int| 0 <= j < s.len() && (#[trigger] s[j]).0 == x;
            if j < s.len() - 1 {
                assert((s.drop_last()[j]).0 == x);
                assert(pairs_map(s.drop_last()).contains_key(x));
            }
        }
    }
}

/// With distinct keys, any matching pair gives the mapped value.
pub proof fn lemma_pairs_map_at(s: Seq<(Seq<char>, Seq<char>)>, j: int)
    requires
        0 <= j < s.len(),
        forall|i1: int, i2: int|
            0 <= i1 < i2 < s.len() ==> (#[trigger] s[i1]).0 != (#[trigger] s[i2]).0,
    ensures
        pairs_map(s).contains_key(s[j].0),
        pairs_map(s)[s[j].0] == s[j].1,
    decreases s.len(),
{
    if j == s.len() - 1 {
    } else {
        assert(s.drop_last()[j] == s[j]);
        lemma_pairs_map_at(s.drop_last(), j);
        assert(s[s.len() - 1].0 != s[j].0);
    }
}

/// Distinctness of the keys of a pair list.
pub open spec fn distinct_keys(s: Seq<(Seq<char>, Seq<char>)>) -> bool {
    forall|i1: int, i2: int|
        0 <= i1 < i2 < s.len() ==> (#[trigger] s[i1]).0 != (#[trigger] s[i2]).0
}

/// Looks a name up in a pair list.
#[verifier::loop_isolation(false)]
fn pair_get(v: &Vec<(String, String)>, k: &String) -> (r: Option<String>)
    requires
        distinct_keys(v.deep_view()),
    ensures
        match r {
            Some(val) => pairs_map(v.deep_view()).contains_key(k@) && pairs_map(v.deep_view())[k@]
                == val@,
            None => !pairs_map(v.deep_view()).contains_key(k@),
        },
{
    proof {
        lemma_pairs_map(v.deep_view());
    }
    let mut i: usize = 0;
    while i < v.len()
        invariant
            i <= v.len(),
            forall|j: int| 0 <= j < i ==> (#[trigger] v.deep_view()[j]).0 != k@,
        decreases v.len() - i,
    {
        if v[i].0 == *k {
            proof {
                assert((v.deep_view()[i as int]).0 == k@);
                lemma_pairs_map_at(v.deep_view(), i as int);
            }
            return Some(v[i].1.clone());
        }
        i = i + 1;
    }
    proof {
        if pairs_map(v.deep_view()).contains_key(k@) {
            let j = choose|j: int|
                0 <= j < v.deep_view().len() && (#[trigger] v.deep_view()[j]).0 == k@;
        }
    }
    None
}

/// Records one pairing.
fn pair_put(v: &mut Vec<(String, String)>, k: &String, val: &String)
    requires
        distinct_keys(old(v).deep_view()),
        !pairs_map(old(v).deep_view()).contains_key(k@),
    ensures
        distinct_keys(final(v).deep_view()),
        pairs_map(final(v).deep_view()) == pairs_map(old(v).deep_view()).insert(k@, val@),
{
    proof {
        lemma_pairs_map(old(v).deep_view());
    }
    let ghost old_s = v.deep_view();
    v.push((k.clone(), val.clone()));
    proof {
        assert(v.deep_view() =~= old_s.push((k@, val@)));
        assert(v.deep_view().drop_last() =~= old_s);
        assert forall|i1: int, i2: int|
            0 <= i1 < i2 < v.deep_view().len() implies (#[trigger] v.deep_view()[i1]).0
            != (#[trigger] v.deep_view()[i2]).0 by {
            if i2 == v.deep_view().len() - 1 {
                if (old_s[i1]).0 == k@ {
                    assert(0 <= i1 < old_s.len() && (old_s[i1]).0 == k@);
                }
            }
        }
    }
}

/// The executable lock-step walk.
#[verifier::loop_isolation(false)]
fn walk(
    q1: &Vec<String>,
    q2: &Vec<String>,
    t1: &Mono,
    t2: &Mono,
    l2r: &mut Vec<(String, String)>,
    r2l: &mut Vec<(String, String)>,
) -> (r: bool)
    requires
        distinct_keys(old(l2r).deep_view()),
        distinct_keys(old(r2l).deep_view()),
    ensures
        distinct_keys(final(l2r).deep_view()),
        distinct_keys(final(r2l).deep_view()),
        match alpha_walk(
            q1.deep_view().to_set(),
            q2.deep_view().to_set(),
            t1@,
            t2@,
            pairs_map(old(l2r).deep_view()),
            pairs_map(old(r2l).deep_view()),
        ) {
            Some(ms) => r && pairs_map(final(l2r).deep_view()) == ms.0 && pairs_map(
                final(r2l).deep_view(),
            ) == ms.1,
            None => !r,
        },
    decreases t1,
{
    let ghost qs1 = q1.deep_view().to_set();
    let ghost qs2 = q2.deep_view().to_set();
    match (t1, t2) {
        (Mono::Var(a1), Mono::Var(a2)) => {
            proof {
                assert(t1@ == SpecMono::Var(a1@));
                assert(t2@ == SpecMono::Var(a2@));
            }
            let in1 = contains_name(q1, a1);
            let in2 = contains_name(q2, a2);
            proof {
                assert(in1 == qs1.contains(a1@)) by {
                    if q1.deep_view().contains(a1@) {
                        let j = choose|j: int|
                            0 <= j < q1.deep_view().len() && q1.deep_view()[j] == a1@;
                    }
                    if qs1.contains(a1@) {
                        let j = choose|j: int|
                            0 <= j < q1.deep_view().len() && q1.deep_view()[j] == a1@;
                    }
                };
                assert(in2 == qs2.contains(a2@)) by {
                    if q2.deep_view().contains(a2@) {
                        let j = choose|j: int|
                            0 <= j < q2.deep_view().len() && q2.deep_view()[j] == a2@;
                    }
                    if qs2.contains(a2@) {
                        let j = choose|j: int|
                            0 <= j < q2.deep_view().len() && q2.deep_view()[j] == a2@;
                    }
                };
            }
            if in1 && in2 {
                let o1 = pair_get(l2r, a1);
                let o2 = pair_get(r2l, a2);
                match (o1, o2) {
                    (Option::None, Option::None) => {
                        pair_put(l2r, a1, a2);
                        pair_put(r2l, a2, a1);
                        true
                    },
                    (Option::Some(b2), Option::Some(b1)) => {
                        let ok = b1 == *a1 && b2 == *a2;
                        ok
                    },
                    _ => false,
                }
            } else if !in1 && !in2 {
                *a1 == *a2
            } else {
                false
            }
        },
        (Mono::App(c1, ts1), Mono::App(c2, ts2)) => {
            proof {
                assert(t1@ == SpecMono::App(c1@, monos_view(*ts1)));
                assert(t2@ == SpecMono::App(c2@, monos_view(*ts2)));
                lemma_monos_view_from(*ts1, 0);
                lemma_monos_view_from(*ts2, 0);
            }
            if !(*c1 == *c2) || ts1.len() != ts2.len() {
                return false;
            }
            let ghost cs = monos_view(*ts1);
            let ghost ds = monos_view(*ts2);
            let ghost em1 = pairs_map(l2r.deep_view());
            let ghost em2 = pairs_map(r2l.deep_view());
            let mut i: usize = 0;
            while i < ts1.len()
                invariant
                    i <= ts1.len(),
                    distinct_keys(l2r.deep_view()),
                    distinct_keys(r2l.deep_view()),
                    alpha_walk_seq(qs1, qs2, cs, ds, em1, em2, 0) == alpha_walk_seq(
                        qs1,
                        qs2,
                        cs,
                        ds,
                        pairs_map(l2r.deep_view()),
                        pairs_map(r2l.deep_view()),
                        i as int,
                    ),
                decreases ts1.len() - i,
            {
                proof {
                    assert(*ts1 == t1->App_1);
                    assert(decreases_to!(t1 => t1->App_1));
                    assert(decreases_to!(*ts1 => ts1[i as int]));
                }
                let ghost cur1 = pairs_map(l2r.deep_view());
                let ghost cur2 = pairs_map(r2l.deep_view());
                let sub = walk(q1, q2, &ts1[i], &ts2[i], l2r, r2l);
                proof {
                    assert(cs[i as int] == mono_view(ts1@[i as int]));
                    assert(ds[i as int] == mono_view(ts2@[i as int]));
                }
                if !sub {
                    proof {
                        assert(alpha_walk(qs1, qs2, cs[i as int], ds[i as int], cur1, cur2)
                            is None);
                        assert(alpha_walk_seq(qs1, qs2, cs, ds, cur1, cur2, i as int) is None);
                    }
                    return false;
                }
                i = i + 1;
            }
            proof {
                assert(alpha_walk_seq(
                    qs1,
                    qs2,
                    cs,
                    ds,
                    pairs_map(l2r.deep_view()),
                    pairs_map(r2l.deep_view()),
                    ts1@.len() as int,
                ) == Some(
                    (pairs_map(l2r.deep_view()), pairs_map(r2l.deep_view())),
                ));
            }
            true
        },
        (Mono::Var(a1), Mono::App(d, us)) => {
            proof {
                assert(t1@ == SpecMono::Var(a1@));
                assert(t2@ == SpecMono::App(d@, monos_view(*us)));
            }
            false
        },
        (Mono::App(c, ts), Mono::Var(a2)) => {
            proof {
                assert(t1@ == SpecMono::App(c@, monos_view(*ts)));
                assert(t2@ == SpecMono::Var(a2@));
            }
            false
        },
    }
}


/// The monotypes of a list of variable names.
pub open spec fn var_monos(ns: Seq<Seq<char>>) -> Seq<SpecMono> {
    Seq::new(ns.len(), |i: int| SpecMono::Var(ns[i]))
}

/// The partial bijection agrees with the positional pairing of `ns`
/// with `vs`, in both directions.
spec fn rename_inv(
    vs: Seq<Seq<char>>,
    ns: Seq<Seq<char>>,
    l2r: NameMap,
    r2l: NameMap,
) -> bool {
    &&& forall|k: Seq<char>|
        #[trigger] l2r.contains_key(k) ==> exists|i: int|
            0 <= i < vs.len() && k == ns[i] && l2r[k] == vs[i] && r2l.contains_key(vs[i])
                && r2l.index(vs[i]) == ns[i]
    &&& forall|v: Seq<char>|
        #[trigger] r2l.contains_key(v) ==> exists|i: int|
            0 <= i < vs.len() && v == vs[i] && r2l[v] == ns[i] && l2r.contains_key(ns[i])
                && l2r.index(ns[i]) == vs[i]
}

/// Instantiating keeps, for each variable of the body, the variable it
/// was renamed to among the free variables of the result.
proof fn lemma_inst_free(t: SpecMono, vs: Seq<Seq<char>>, ns: Seq<Seq<char>>)
    requires
        vs.len() == ns.len(),
        forall|v: Seq<char>| free_of(t).contains(v) ==> vs.to_set().contains(v),
    ensures
        forall|v: Seq<char>|
            #[trigger] free_of(t).contains(v) ==> free_of(
                inst_body(t, vs, var_monos(ns)),
            ).contains(ns[first_index_from(vs, v, 0)]),
    decreases t, 0int,
{
    match t {
        SpecMono::Var(v0) => {
            assert(free_of(t) == Set::empty().insert(v0));
            assert forall|v: Seq<char>| #[trigger] free_of(t).contains(v) implies free_of(
                inst_body(t, vs, var_monos(ns)),
            ).contains(ns[first_index_from(vs, v, 0)]) by {
                assert(v == v0);
                lemma_first_index_from(vs, v0, 0);
                let fi = first_index_from(vs, v0, 0);
                assert(vs.to_set().contains(v0));
                if fi >= vs.len() {
                    let j = choose|j: int| 0 <= j < vs.len() && vs[j] == v0;
                    assert(vs[j] != v0);
                }
                assert(var_monos(ns)[fi] == SpecMono::Var(ns[fi]));
                assert(inst_body(t, vs, var_monos(ns)) == SpecMono::Var(ns[fi]));
                assert(free_of(SpecMono::Var(ns[fi])) == Set::empty().insert(ns[fi]));
            }
        },
        SpecMono::App(c, ts) => {
            lemma_free_of_seq_from(ts, 0);
            lemma_inst_free_seq(t, ts, vs, ns, 0);
            lemma_inst_seq_from(ts, vs, var_monos(ns), 0);
            let us = inst_seq_from(ts, vs, var_monos(ns), 0);
            lemma_free_of_seq_from(us, 0);
            assert forall|v: Seq<char>| #[trigger] free_of(t).contains(v) implies free_of(
                inst_body(t, vs, var_monos(ns)),
            ).contains(ns[first_index_from(vs, v, 0)]) by {
                assert(free_of_seq_from(ts, 0).contains(v));
                let j = choose|j: int| 0 <= j < ts.len() && (#[trigger] free_of(ts[j])).contains(v);
                assert(free_of(inst_body(ts[j], vs, var_monos(ns))).contains(
                    ns[first_index_from(vs, v, 0)],
                ));
                assert(us[j] == inst_body(ts[0 + j], vs, var_monos(ns)));
                assert(free_of(us[j]).contains(ns[first_index_from(vs, v, 0)]));
                assert(free_of_seq_from(us, 0).contains(ns[first_index_from(vs, v, 0)]));
                assert(inst_body(t, vs, var_monos(ns)) == SpecMono::App(c, us));
            }
        },
    }
}

/// The entrywise form of `lemma_inst_free`.
proof fn lemma_inst_free_seq(
    t: SpecMono,
    ts: Seq<SpecMono>,
    vs: Seq<Seq<char>>,
    ns: Seq<Seq<char>>,
    i: int,
)
    requires
        vs.len() == ns.len(),
        0 <= i <= ts.len(),
        forall|v: Seq<char>| free_of_seq_from(ts, 0).contains(v) ==> vs.to_set().contains(v),
    ensures
        forall|j: int, v: Seq<char>|
            #![trigger free_of(ts[j]).contains(v)]
            i <= j < ts.len() && free_of(ts[j]).contains(v) ==> free_of(
                inst_body(ts[j], vs, var_monos(ns)),
            ).contains(ns[first_index_from(vs, v, 0)]),
    decreases ts, ts.len() - i,
{
    if i < ts.len() {
        assert(decreases_to!(ts => ts[i]));
        assert forall|v: Seq<char>| free_of(ts[i]).contains(v) implies vs.to_set().contains(v) by {
            lemma_free_of_seq_from(ts, 0);
            assert(0 <= i < ts.len() && free_of(ts[i]).contains(v));
            assert(free_of_seq_from(ts, 0).contains(v));
        }
        lemma_inst_free(ts[i], vs, ns);
        lemma_inst_free_seq(t, ts, vs, ns, i + 1);
    }
}

/// The lock-step walk of an instantiated body against the body it was
/// instantiated from succeeds and keeps the bijection positional.
proof fn lemma_walk_rename(
    t: SpecMono,
    vs: Seq<Seq<char>>,
    ns: Seq<Seq<char>>,
    q1: Set<Seq<char>>,
    l2r: NameMap,
    r2l: NameMap,
)
    requires
        vs.no_duplicates(),
        ns.no_duplicates(),
        vs.len() == ns.len(),
        forall|v: Seq<char>| free_of(t).contains(v) ==> vs.to_set().contains(v),
        forall|v: Seq<char>|
            #[trigger] free_of(t).contains(v) ==> q1.contains(ns[first_index_from(vs, v, 0)]),
        rename_inv(vs, ns, l2r, r2l),
    ensures
        alpha_walk(q1, vs.to_set(), inst_body(t, vs, var_monos(ns)), t, l2r, r2l) matches Some(ms)
            && rename_inv(vs, ns, ms.0, ms.1),
    decreases t, 0int,
{
    match t {
        SpecMono::Var(v0) => {
            assert(free_of(t) == Set::empty().insert(v0));
            assert(free_of(t).contains(v0));
            lemma_first_index_from(vs, v0, 0);
            let fi = first_index_from(vs, v0, 0);
            assert(vs.to_set().contains(v0));
            if fi >= vs.len() {
                let j = choose|j: int| 0 <= j < vs.len() && vs[j] == v0;
                assert(vs[j] != v0);
            }
            assert(vs[fi] == v0);
            assert(var_monos(ns)[fi] == SpecMono::Var(ns[fi]));
            assert(inst_body(t, vs, var_monos(ns)) == SpecMono::Var(ns[fi]));
            assert(q1.contains(ns[fi]));
            if l2r.contains_key(ns[fi]) {
                let i = choose|i: int|
                    0 <= i < vs.len() && ns[fi] == ns[i] && l2r[ns[fi]] == vs[i] && r2l.contains_key(
                        vs[i],
                    ) && r2l[vs[i]] == ns[i];
                assert(i == fi);
                assert(l2r[ns[fi]] == v0 && r2l.contains_key(v0) && r2l[v0] == ns[fi]);
            } else {
                assert(!r2l.contains_key(v0)) by {
                    if r2l.contains_key(v0) {
                        let i = choose|i: int|
                            0 <= i < vs.len() && v0 == vs[i] && r2l[v0] == ns[i]
                                && l2r.contains_key(ns[i]) && l2r[ns[i]] == vs[i];
                        assert(i == fi);
                    }
                }
                let m1 = l2r.insert(ns[fi], v0);
                let m2 = r2l.insert(v0, ns[fi]);
                assert forall|k: Seq<char>| #[trigger] m1.contains_key(k) implies exists|i: int|
                    0 <= i < vs.len() && k == ns[i] && m1[k] == vs[i] && m2.contains_key(vs[i])
                        && m2[vs[i]] == ns[i] by {
                    if k == ns[fi] {
                        assert(0 <= fi < vs.len() && k == ns[fi] && m1[k] == vs[fi]
                            && m2.contains_key(vs[fi]) && m2[vs[fi]] == ns[fi]);
                    } else {
                        let i = choose|i: int|
                            0 <= i < vs.len() && k == ns[i] && l2r[k] == vs[i] && r2l.contains_key(
                                vs[i],
                            ) && r2l[vs[i]] == ns[i];
                        assert(vs[i] != v0);
                        assert(0 <= i < vs.len() && k == ns[i] && m1[k] == vs[i]
                            && m2.contains_key(vs[i]) && m2[vs[i]] == ns[i]);
                    }
                }
                assert forall|v: Seq<char>| #[trigger] m2.contains_key(v) implies exists|i: int|
                    0 <= i < vs.len() && v == vs[i] && m2[v] == ns[i] && m1.contains_key(ns[i])
                        && m1[ns[i]] == vs[i] by {
                    if v == v0 {
                        assert(0 <= fi < vs.len() && v == vs[fi] && m2[v] == ns[fi]
                            && m1.contains_key(ns[fi]) && m1[ns[fi]] == vs[fi]);
                    } else {
                        let i = choose|i: int|
                            0 <= i < vs.len() && v == vs[i] && r2l[v] == ns[i] && l2r.contains_key(
                                ns[i],
                            ) && l2r[ns[i]] == vs[i];
                        assert(ns[i] != ns[fi]);
                        assert(0 <= i < vs.len() && v == vs[i] && m2[v] == ns[i]
                            && m1.contains_key(ns[i]) && m1[ns[i]] == vs[i]);
                    }
                }
            }
        },
        SpecMono::App(c, ts) => {
            lemma_inst_seq_from(ts, vs, var_monos(ns), 0);
            let us = inst_seq_from(ts, vs, var_monos(ns), 0);
            assert(inst_body(t, vs, var_monos(ns)) == SpecMono::App(c, us));
            lemma_free_of_seq_from(ts, 0);
            assert forall|v: Seq<char>| #[trigger] free_of_seq_from(ts, 0).contains(v)
                implies vs.to_set().contains(v) by {
                assert(free_of(t).contains(v));
            }
            assert forall|v: Seq<char>| #[trigger] free_of_seq_from(ts, 0).contains(v)
                implies q1.contains(ns[first_index_from(vs, v, 0)]) by {
                assert(free_of(t).contains(v));
            }
            lemma_walk_rename_seq(t, ts, us, vs, ns, q1, l2r, r2l, 0);
        },
    }
}

/// The entrywise form of `lemma_walk_rename`.
proof fn lemma_walk_rename_seq(
    t: SpecMono,
    ts: Seq<SpecMono>,
    us: Seq<SpecMono>,
    vs: Seq<Seq<char>>,
    ns: Seq<Seq<char>>,
    q1: Set<Seq<char>>,
    l2r: NameMap,
    r2l: NameMap,
    i: int,
)
    requires
        vs.no_duplicates(),
        ns.no_duplicates(),
        vs.len() == ns.len(),
        0 <= i <= ts.len(),
        us == inst_seq_from(ts, vs, var_monos(ns), 0),
        forall|v: Seq<char>| free_of_seq_from(ts, 0).contains(v) ==> vs.to_set().contains(v),
        forall|v: Seq<char>|
            #[trigger] free_of_seq_from(ts, 0).contains(v) ==> q1.contains(
                ns[first_index_from(vs, v, 0)],
            ),
        rename_inv(vs, ns, l2r, r2l),
    ensures
        alpha_walk_seq(q1, vs.to_set(), us, ts, l2r, r2l, i) matches Some(ms) && rename_inv(
            vs,
            ns,
            ms.0,
            ms.1,
        ),
    decreases ts, ts.len() - i,
{
    lemma_inst_seq_from(ts, vs, var_monos(ns), 0);
    if i < ts.len() {
        assert(decreases_to!(ts => ts[i]));
        assert(us[i] == inst_body(ts[0 + i], vs, var_monos(ns)));
        assert forall|v: Seq<char>| #[trigger] free_of(ts[i]).contains(v) implies vs.to_set().contains(
            v,
        ) by {
            lemma_free_of_seq_from(ts, 0);
            assert(0 <= i < ts.len() && free_of(ts[i]).contains(v));
            assert(free_of_seq_from(ts, 0).contains(v));
        }
        assert forall|v: Seq<char>| #[trigger] free_of(ts[i]).contains(v) implies q1.contains(
            ns[first_index_from(vs, v, 0)],
        ) by {
            lemma_free_of_seq_from(ts, 0);
            assert(0 <= i < ts.len() && free_of(ts[i]).contains(v));
            assert(free_of_seq_from(ts, 0).contains(v));
        }
        lemma_walk_rename(ts[i], vs, ns, q1, l2r, r2l);
        let ms = alpha_walk(q1, vs.to_set(), us[i], ts[i], l2r, r2l)->Some_0;
        lemma_walk_rename_seq(t, ts, us, vs, ns, q1, ms.0, ms.1, i + 1);
    }
}

/// Generalizing a monotype against the empty context, instantiating the
/// scheme with distinct fresh variables, and generalizing the result
/// against the same empty context yields a scheme alpha-equivalent to
/// the one obtained by generalizing directly.
pub proof fn lemma_generalize_inst_regeneralize(
    t: SpecMono,
    vs: Seq<Seq<char>>,
    ns: Seq<Seq<char>>,
    ws: Seq<Seq<char>>,
)
    requires
        vs.no_duplicates(),
        vs.to_set() == free_of(t),
        ns.no_duplicates(),
        ns.len() == vs.len(),
        ns.to_set().disjoint(vs.to_set()),
        ws.to_set() == free_of(inst_body(t, vs, var_monos(ns))),
    ensures
        alpha_eq(
            SpecPoly { vars: ws, body: inst_body(t, vs, var_monos(ns)) },
            SpecPoly { vars: vs, body: t },
        ),
{
    lemma_inst_free(t, vs, ns);
    lemma_walk_rename(
        t,
        vs,
        ns,
        ws.to_set(),
        Map::<Seq<char>, Seq<char>>::empty(),
        Map::<Seq<char>, Seq<char>>::empty(),
    );
}

impl PartialEq for Poly {
    /// Alpha-equivalence: bound variables may be renamed bijectively,
    /// free variables must match by name.
    fn eq(&self, other: &Poly) -> bool {
        let mut l2r: Vec<(String, String)> = Vec::new();
        let mut r2l: Vec<(String, String)> = Vec::new();
        proof {
            assert(pairs_map(l2r.deep_view()) =~= Map::<Seq<char>, Seq<char>>::empty());
            assert(pairs_map(r2l.deep_view()) =~= Map::<Seq<char>, Seq<char>>::empty());
        }
        walk(&self.0, &other.0, &self.1, &other.1, &mut l2r, &mut r2l)
    }
}

impl vstd::std_specs::cmp::PartialEqSpecImpl for Poly {
    open spec fn obeys_eq_spec() -> bool {
        true
    }

    open spec fn eq_spec(&self, other: &Poly) -> bool {
        alpha_eq(self@, other@)
    }
}

} // verus!
