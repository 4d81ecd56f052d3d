//! The alias map built by the unification engine, and canonicalization
//! against it.

use crate::types::{free_of, free_of_seq_from, mono_view, monos_view, Mono, SpecMono};
use crate::types::lemma_monos_view_from;
use vstd::prelude::*;

verus! {

broadcast use
    vstd::std_specs::vec::axiom_vec_index_decreases,
    vstd::seq::axiom_seq_index_decreases,
    vstd::set::group_set_axioms,
    vstd::seq::group_seq_axioms;

/// The entries of an alias map, oldest first.
pub type AliasSeq = Seq<(Seq<char>, SpecMono)>;

/// Well-formedness of an alias map: keys are distinct, and the monotype
/// aliased at position `i` mentions no key recorded at or before `i`.
/// Unification maintains this because it only ever aliases a variable
/// that is itself unaliased to a monotype that is fully canonical.
pub open spec fn aliases_wf(s: AliasSeq) -> bool {
    &&& forall|i: int, j: int| 0 <= i < j < s.len() ==> (#[trigger] s[i].0) != (#[trigger] s[j].0)
    &&& forall|i: int, j: int|
        #![trigger free_of(s[i].1).contains(s[j].0)]
        0 <= j <= i < s.len() ==> !free_of(s[i].1).contains(s[j].0)
}

/// Whether `x` is recorded as a key at or after position `lo`.
pub open spec fn is_key_from(s: AliasSeq, lo: int, x: Seq<char>) -> bool {
    exists|j: int| lo <= j < s.len() && (#[trigger] s[j].0) == x
}

/// Resolves `t` against the entries of `s` from position `lo` on: a
/// variable that matches a key is replaced by the monotype aliased
/// there, and resolution continues with the entries recorded after it;
/// an application is resolved child by child.
pub open spec fn canon_at(s: AliasSeq, lo: int, t: SpecMono) -> SpecMono
    decreases s.len() - lo, t, 0int,
{
    match t {
        SpecMono::Var(a) => {
            if lo < 0 || lo >= s.len() {
                t
            } else if s[lo].0 == a {
                canon_at(s, lo + 1, s[lo].1)
            } else {
                canon_at(s, lo + 1, t)
            }
        },
        SpecMono::App(c, ts) => SpecMono::App(c, canon_seq_from(s, lo, ts, 0)),
    }
}

/// The entries of `ts` from position `i` on, each resolved against `s`
/// from position `lo` on.
pub open spec fn canon_seq_from(s: AliasSeq, lo: int, ts: Seq<SpecMono>, i: int) -> Seq<SpecMono>
    decreases s.len() - lo, ts, ts.len() - i,
{
    if i < 0 || i >= ts.len() {
        Seq::empty()
    } else {
        seq![canon_at(s, lo, ts[i])] + canon_seq_from(s, lo, ts, i + 1)
    }
}

/// The fully resolved form of `t`.
pub open spec fn canon(s: AliasSeq, t: SpecMono) -> SpecMono {
    canon_at(s, 0, t)
}

/// Resolution rewrites an argument list entry by entry.
pub proof fn lemma_canon_seq_from(s: AliasSeq, lo: int, ts: Seq<SpecMono>, i: int)
    requires
        0 <= i <= ts.len(),
    ensures
        canon_seq_from(s, lo, ts, i).len() == ts.len() - i,
        forall|j: int|
            0 <= j < ts.len() - i ==> canon_seq_from(s, lo, ts, i)[j] == canon_at(
                s,
                lo,
                #[trigger] ts[i + j],
            ),
    decreases ts.len() - i,
{
    if i < ts.len() {
        lemma_canon_seq_from(s, lo, ts, i + 1);
        assert forall|j: int|
            0 <= j < ts.len() - i implies canon_seq_from(s, lo, ts, i)[j] == canon_at(
            s,
            lo,
            #[trigger] ts[i + j],
        ) by {
            if j > 0 {
                assert(canon_seq_from(s, lo, ts, i)[j] == canon_seq_from(s, lo, ts, i + 1)[j - 1]);
                assert(canon_seq_from(s, lo, ts, i + 1)[j - 1] == canon_at(
                    s,
                    lo,
                    ts[i + 1 + (j - 1)],
                ));
            }
        }
    }
}

/// The keys recorded from position `i` on.
pub open spec fn keyset_from(s: AliasSeq, i: int) -> Set<Seq<char>>
    decreases s.len() - i,
{
    if i < 0 || i >= s.len() {
        Set::empty()
    } else {
        keyset_from(s, i + 1).insert(s[i].0)
    }
}

/// Membership in the key set is being recorded as a key.
pub proof fn lemma_keyset_from(s: AliasSeq, i: int)
    requires
        0 <= i <= s.len(),
    ensures
        forall|x: Seq<char>| keyset_from(s, i).contains(x) <==> is_key_from(s, i, x),
        keyset_from(s, i).finite(),
    decreases s.len() - i,
{
    if i < s.len() {
        lemma_keyset_from(s, i + 1);
        assert forall|x: Seq<char>| keyset_from(s, i).contains(x) implies is_key_from(s, i, x) by {
            if x == s[i].0 {
                assert(i <= i < s.len() && s[i].0 == x);
            } else {
                assert(keyset_from(s, i + 1).contains(x));
                assert(is_key_from(s, i + 1, x));
                let j = choose|j: int| i + 1 <= j < s.len() && (#[trigger] s[j].0) == x;
            }
        }
        assert forall|x: Seq<char>| is_key_from(s, i, x) implies keyset_from(s, i).contains(x) by {
            let j = choose|j: int| i <= j < s.len() && (#[trigger] s[j].0) == x;
            if j > i {
                assert(is_key_from(s, i + 1, x));
            }
        }
    }
}

/// The variables free in any aliased monotype from position `i` on.
pub open spec fn valfree_from(s: AliasSeq, i: int) -> Set<Seq<char>>
    decreases s.len() - i,
{
    if i < 0 || i >= s.len() {
        Set::empty()
    } else {
        free_of(s[i].1).union(valfree_from(s, i + 1))
    }
}

/// A variable is free in some aliased monotype exactly when it is free
/// in one recorded at a position.
pub proof fn lemma_valfree_from(s: AliasSeq, i: int)
    requires
        0 <= i <= s.len(),
    ensures
        forall|x: Seq<char>|
            valfree_from(s, i).contains(x) <==> (exists|j: int|
                i <= j < s.len() && (#[trigger] free_of(s[j].1)).contains(x)),
        valfree_from(s, i).finite(),
    decreases s.len() - i,
{
    if i < s.len() {
        lemma_valfree_from(s, i + 1);
        crate::types::lemma_free_of_finite(s[i].1);
        assert forall|x: Seq<char>| valfree_from(s, i).contains(x) implies (exists|j: int|
            i <= j < s.len() && (#[trigger] free_of(s[j].1)).contains(x)) by {
            if free_of(s[i].1).contains(x) {
                assert(i <= i < s.len() && free_of(s[i].1).contains(x));
            } else {
                assert(valfree_from(s, i + 1).contains(x));
            }
        }
        assert forall|x: Seq<char>|
            (exists|j: int| i <= j < s.len() && (#[trigger] free_of(s[j].1)).contains(x))
            implies valfree_from(s, i).contains(x) by {
            let j = choose|j: int| i <= j < s.len() && (#[trigger] free_of(s[j].1)).contains(x);
            if j > i {
                assert(valfree_from(s, i + 1).contains(x));
            }
        }
    }
}

/// The variables that unifying `a` with `b` under `s` can still touch.
pub open spec fn involved(s: AliasSeq, a: SpecMono, b: SpecMono) -> Set<Seq<char>> {
    free_of(a).union(free_of(b)).union(valfree_from(s, 0))
}

/// The part of `involved` not yet resolved by an alias entry; its size
/// shrinks whenever unification records a new alias.
pub open spec fn unresolved(s: AliasSeq, a: SpecMono, b: SpecMono) -> Set<Seq<char>> {
    involved(s, a, b).difference(keyset_from(s, 0))
}

/// `involved` and `unresolved` are finite.
pub proof fn lemma_unresolved_finite(s: AliasSeq, a: SpecMono, b: SpecMono)
    ensures
        involved(s, a, b).finite(),
        unresolved(s, a, b).finite(),
{
    crate::types::lemma_free_of_finite(a);
    crate::types::lemma_free_of_finite(b);
    lemma_valfree_from(s, 0);
    lemma_keyset_from(s, 0);
    vstd::set_lib::lemma_len_subset(unresolved(s, a, b), involved(s, a, b));
}

/// Resolving a monotype that mentions no key recorded from `lo` on
/// changes nothing.
pub proof fn lemma_canon_untouched(s: AliasSeq, lo: int, t: SpecMono)
    requires
        0 <= lo <= s.len(),
        forall|j: int| lo <= j < s.len() ==> !free_of(t).contains(#[trigger] s[j].0),
    ensures
        canon_at(s, lo, t) == t,
    decreases s.len() - lo, t, 0int,
{
    match t {
        SpecMono::Var(a) => {
            assert(free_of(t) == Set::empty().insert(a));
            if lo < s.len() {
                assert(!free_of(t).contains(s[lo].0));
                lemma_canon_untouched(s, lo + 1, t);
            }
        },
        SpecMono::App(c, ts) => {
            lemma_canon_untouched_seq(s, lo, ts, 0);
            lemma_canon_seq_from(s, lo, ts, 0);
            assert forall|j: int| 0 <= j < ts.len() implies canon_seq_from(s, lo, ts, 0)[j]
                == ts[j] by {
                assert(canon_seq_from(s, lo, ts, 0)[j] == canon_at(s, lo, ts[0 + j]));
            }
            assert(canon_seq_from(s, lo, ts, 0) =~= ts);
        },
    }
}

/// The entrywise form of `lemma_canon_untouched`.
pub proof fn lemma_canon_untouched_seq(s: AliasSeq, lo: int, ts: Seq<SpecMono>, i: int)
    requires
        0 <= lo <= s.len(),
        0 <= i <= ts.len(),
        forall|j: int| lo <= j < s.len() ==> !free_of_seq_from(ts, 0).contains(#[trigger] s[j].0),
    ensures
        forall|j: int| i <= j < ts.len() ==> canon_at(s, lo, #[trigger] ts[j]) == ts[j],
    decreases s.len() - lo, ts, ts.len() - i,
{
    if i < ts.len() {
        assert(decreases_to!(ts => ts[i]));
        assert forall|j: int| lo <= j < s.len() implies !free_of(ts[i]).contains(
            #[trigger] s[j].0,
        ) by {
            crate::types::lemma_free_of_seq_from(ts, 0);
            if free_of(ts[i]).contains(s[j].0) {
                assert(0 <= i < ts.len() && free_of(ts[i]).contains(s[j].0));
                assert(free_of_seq_from(ts, 0).contains(s[j].0));
            }
        }
        lemma_canon_untouched(s, lo, ts[i]);
        lemma_canon_untouched_seq(s, lo, ts, i + 1);
    }
}

/// No key of a well-formed map survives resolution, provided the keys
/// recorded before `lo` are already absent.
pub proof fn lemma_canon_no_keys(s: AliasSeq, lo: int, t: SpecMono)
    requires
        aliases_wf(s),
        0 <= lo <= s.len(),
        forall|j: int| 0 <= j < lo ==> !free_of(t).contains(#[trigger] s[j].0),
    ensures
        forall|x: Seq<char>|
            #[trigger] free_of(canon_at(s, lo, t)).contains(x) ==> !is_key_from(s, 0, x),
    decreases s.len() - lo, t, 0int,
{
    match t {
        SpecMono::Var(a) => {
            assert(free_of(t) == Set::empty().insert(a));
            if lo >= s.len() {
                assert forall|x: Seq<char>|
                    #[trigger] free_of(canon_at(s, lo, t)).contains(x) implies !is_key_from(
                    s,
                    0,
                    x,
                ) by {
                    assert(x == a);
                    if is_key_from(s, 0, x) {
                        let j = choose|j: int| 0 <= j < s.len() && (#[trigger] s[j].0) == x;
                        assert(!free_of(t).contains(s[j].0));
                    }
                }
            } else if s[lo].0 == a {
                assert forall|j: int| 0 <= j < lo + 1 implies !free_of(s[lo].1).contains(
                    #[trigger] s[j].0,
                ) by {
                    assert(!free_of(s[lo].1).contains(s[j].0));
                }
                lemma_canon_no_keys(s, lo + 1, s[lo].1);
            } else {
                lemma_canon_no_keys(s, lo + 1, t);
            }
        },
        SpecMono::App(c, ts) => {
            lemma_canon_no_keys_seq(s, lo, ts, 0);
            lemma_canon_seq_from(s, lo, ts, 0);
            let us = canon_seq_from(s, lo, ts, 0);
            assert forall|x: Seq<char>|
                #[trigger] free_of(canon_at(s, lo, t)).contains(x) implies !is_key_from(
                s,
                0,
                x,
            ) by {
                assert(canon_at(s, lo, t) == SpecMono::App(c, us));
                crate::types::lemma_free_of_seq_from(us, 0);
                assert(free_of_seq_from(us, 0).contains(x));
                let k = choose|k: int| 0 <= k < us.len() && (#[trigger] free_of(us[k])).contains(x);
                assert(us[k] == canon_at(s, lo, ts[0 + k]));
                assert(free_of(canon_at(s, lo, ts[k])).contains(x));
            }
        },
    }
}

/// The entrywise form of `lemma_canon_no_keys`.
pub proof fn lemma_canon_no_keys_seq(s: AliasSeq, lo: int, ts: Seq<SpecMono>, i: int)
    requires
        aliases_wf(s),
        0 <= lo <= s.len(),
        0 <= i <= ts.len(),
        forall|j: int| 0 <= j < lo ==> !free_of_seq_from(ts, 0).contains(#[trigger] s[j].0),
    ensures
        forall|j: int, x: Seq<char>|
            #![trigger free_of(canon_at(s, lo, ts[j])).contains(x)]
            i <= j < ts.len() && free_of(canon_at(s, lo, ts[j])).contains(x) ==> !is_key_from(
                s,
                0,
                x,
            ),
    decreases s.len() - lo, ts, ts.len() - i,
{
    if i < ts.len() {
        assert(decreases_to!(ts => ts[i]));
        assert forall|j: int| 0 <= j < lo implies !free_of(ts[i]).contains(#[trigger] s[j].0) by {
            crate::types::lemma_free_of_seq_from(ts, 0);
            if free_of(ts[i]).contains(s[j].0) {
                assert(0 <= i < ts.len() && free_of(ts[i]).contains(s[j].0));
                assert(free_of_seq_from(ts, 0).contains(s[j].0));
            }
        }
        lemma_canon_no_keys(s, lo, ts[i]);
        lemma_canon_no_keys_seq(s, lo, ts, i + 1);
    }
}

/// A variable free after resolution was free before, or is free in one
/// of the aliased monotypes.
pub proof fn lemma_canon_free_in(s: AliasSeq, lo: int, t: SpecMono)
    requires
        0 <= lo <= s.len(),
    ensures
        forall|x: Seq<char>|
            #[trigger] free_of(canon_at(s, lo, t)).contains(x) ==> free_of(t).contains(x)
                || valfree_from(s, 0).contains(x),
    decreases s.len() - lo, t, 0int,
{
    lemma_valfree_from(s, 0);
    match t {
        SpecMono::Var(a) => {
            assert(free_of(t) == Set::empty().insert(a));
            if lo < s.len() {
                if s[lo].0 == a {
                    lemma_canon_free_in(s, lo + 1, s[lo].1);
                    assert forall|x: Seq<char>|
                        #[trigger] free_of(canon_at(s, lo, t)).contains(x) implies free_of(
                        t,
                    ).contains(x) || valfree_from(s, 0).contains(x) by {
                        if free_of(s[lo].1).contains(x) {
                            assert(0 <= lo < s.len() && free_of(s[lo].1).contains(x));
                        }
                    }
                } else {
                    lemma_canon_free_in(s, lo + 1, t);
                }
            }
        },
        SpecMono::App(c, ts) => {
            lemma_canon_free_in_seq(s, lo, ts, 0);
            lemma_canon_seq_from(s, lo, ts, 0);
            let us = canon_seq_from(s, lo, ts, 0);
            assert forall|x: Seq<char>|
                #[trigger] free_of(canon_at(s, lo, t)).contains(x) implies free_of(t).contains(x)
                || valfree_from(s, 0).contains(x) by {
                assert(canon_at(s, lo, t) == SpecMono::App(c, us));
                crate::types::lemma_free_of_seq_from(us, 0);
                crate::types::lemma_free_of_seq_from(ts, 0);
                assert(free_of_seq_from(us, 0).contains(x));
                let k = choose|k: int| 0 <= k < us.len() && (#[trigger] free_of(us[k])).contains(x);
                assert(us[k] == canon_at(s, lo, ts[0 + k]));
                assert(free_of(canon_at(s, lo, ts[k])).contains(x));
                if free_of(ts[k]).contains(x) {
                    assert(free_of_seq_from(ts, 0).contains(x));
                }
            }
        },
    }
}

/// The entrywise form of `lemma_canon_free_in`.
pub proof fn lemma_canon_free_in_seq(s: AliasSeq, lo: int, ts: Seq<SpecMono>, i: int)
    requires
        0 <= lo <= s.len(),
        0 <= i <= ts.len(),
    ensures
        forall|j: int, x: Seq<char>|
            #![trigger free_of(canon_at(s, lo, ts[j])).contains(x)]
            i <= j < ts.len() && free_of(canon_at(s, lo, ts[j])).contains(x) ==> free_of(
                ts[j],
            ).contains(x) || valfree_from(s, 0).contains(x),
    decreases s.len() - lo, ts, ts.len() - i,
{
    if i < ts.len() {
        assert(decreases_to!(ts => ts[i]));
        lemma_canon_free_in(s, lo, ts[i]);
        lemma_canon_free_in_seq(s, lo, ts, i + 1);
    }
}

/// Resolving against a map extended by one entry substitutes that entry
/// into the resolved form.
pub proof fn lemma_canon_push(s: AliasSeq, e: (Seq<char>, SpecMono), lo: int, t: SpecMono)
    requires
        aliases_wf(s.push(e)),
        0 <= lo <= s.len(),
    ensures
        canon_at(s.push(e), lo, t) == crate::types::subst(canon_at(s, lo, t), e.0, e.1),
    decreases s.len() - lo, t, 0int,
{
    let s2 = s.push(e);
    let n = s.len() as int;
    assert(s2[n] == e);
    match t {
        SpecMono::Var(a) => {
            if lo == n {
                assert(canon_at(s, lo, t) == t);
                if e.0 == a {
                    assert(canon_at(s2, lo, t) == canon_at(s2, n + 1, e.1));
                    assert forall|j: int| n + 1 <= j < s2.len() implies !free_of(e.1).contains(
                        #[trigger] s2[j].0,
                    ) by {}
                    lemma_canon_untouched(s2, n + 1, e.1);
                } else {
                    assert(canon_at(s2, lo, t) == canon_at(s2, n + 1, t));
                    lemma_canon_untouched(s2, n + 1, t);
                }
            } else {
                assert(s2[lo] == s[lo]);
                if s[lo].0 == a {
                    lemma_canon_push(s, e, lo + 1, s[lo].1);
                } else {
                    lemma_canon_push(s, e, lo + 1, t);
                }
            }
        },
        SpecMono::App(c, ts) => {
            lemma_canon_push_seq(s, e, lo, ts, 0);
            lemma_canon_seq_from(s2, lo, ts, 0);
            lemma_canon_seq_from(s, lo, ts, 0);
            let w = canon_at(s, lo, t);
            let ws = canon_seq_from(s, lo, ts, 0);
            assert(w == SpecMono::App(c, ws));
            crate::types::lemma_subst_seq_from(ws, e.0, e.1, 0);
            assert forall|j: int| 0 <= j < ts.len() implies canon_seq_from(s2, lo, ts, 0)[j]
                == crate::types::subst_seq_from(ws, e.0, e.1, 0)[j] by {
                assert(canon_seq_from(s2, lo, ts, 0)[j] == canon_at(s2, lo, ts[0 + j]));
                assert(canon_seq_from(s, lo, ts, 0)[j] == canon_at(s, lo, ts[0 + j]));
                assert(crate::types::subst_seq_from(ws, e.0, e.1, 0)[j] == crate::types::subst(
                    ws[0 + j],
                    e.0,
                    e.1,
                ));
                assert(canon_at(s2, lo, ts[j]) == crate::types::subst(
                    canon_at(s, lo, ts[j]),
                    e.0,
                    e.1,
                ));
            }
            assert(canon_seq_from(s2, lo, ts, 0) =~= crate::types::subst_seq_from(
                ws,
                e.0,
                e.1,
                0,
            ));
        },
    }
}

/// The entrywise form of `lemma_canon_push`.
pub proof fn lemma_canon_push_seq(
    s: AliasSeq,
    e: (Seq<char>, SpecMono),
    lo: int,
    ts: Seq<SpecMono>,
    i: int,
)
    requires
        aliases_wf(s.push(e)),
        0 <= lo <= s.len(),
        0 <= i <= ts.len(),
    ensures
        forall|j: int|
            i <= j < ts.len() ==> canon_at(s.push(e), lo, #[trigger] ts[j]) == crate::types::subst(
                canon_at(s, lo, ts[j]),
                e.0,
                e.1,
            ),
    decreases s.len() - lo, ts, ts.len() - i,
{
    if i < ts.len() {
        assert(decreases_to!(ts => ts[i]));
        lemma_canon_push(s, e, lo, ts[i]);
        lemma_canon_push_seq(s, e, lo, ts, i + 1);
    }
}

/// A prefix of a well-formed map is well-formed.
pub proof fn lemma_wf_prefix(s2: AliasSeq, n: int)
    requires
        aliases_wf(s2),
        0 <= n <= s2.len(),
    ensures
        aliases_wf(s2.subrange(0, n)),
{
    let s = s2.subrange(0, n);
    assert forall|i: int, j: int| 0 <= i < j < s.len() implies (#[trigger] s[i].0)
        != (#[trigger] s[j].0) by {
        assert(s[i] == s2[i] && s[j] == s2[j]);
    }
    assert forall|i: int, j: int|
        #![trigger free_of(s[i].1).contains(s[j].0)]
        0 <= j <= i < s.len() implies !free_of(s[i].1).contains(s[j].0) by {
        assert(s[i] == s2[i] && s[j] == s2[j]);
        assert(!free_of(s2[i].1).contains(s2[j].0));
    }
}

/// Resolving under an extended map factors through resolving under a
/// prefix of it.
pub proof fn lemma_canon_compose(s: AliasSeq, s2: AliasSeq, t: SpecMono)
    requires
        aliases_wf(s2),
        s2.len() >= s.len(),
        s == s2.subrange(0, s.len() as int),
    ensures
        canon(s2, t) == canon(s2, canon(s, t)),
    decreases s2.len() - s.len(),
{
    lemma_wf_prefix(s2, s.len() as int);
    if s.len() == s2.len() {
        assert(s =~= s2);
        let w = canon(s2, t);
        lemma_canon_no_keys(s2, 0, t);
        assert forall|j: int| 0 <= j < s2.len() implies !free_of(w).contains(
            #[trigger] s2[j].0,
        ) by {
            if free_of(w).contains(s2[j].0) {
                assert(is_key_from(s2, 0, s2[j].0));
            }
        }
        lemma_canon_untouched(s2, 0, w);
    } else {
        let e = s2[s.len() as int];
        let s1 = s.push(e);
        assert(s1 =~= s2.subrange(0, s.len() as int + 1));
        lemma_wf_prefix(s2, s.len() as int + 1);
        assert(aliases_wf(s1));
        let w = canon(s, t);
        lemma_canon_push(s, e, 0, t);
        assert(canon(s1, t) == crate::types::subst(w, e.0, e.1));
        lemma_canon_no_keys(s, 0, t);
        assert forall|j: int| 0 <= j < s.len() implies !free_of(w).contains(
            #[trigger] s[j].0,
        ) by {
            if free_of(w).contains(s[j].0) {
                assert(is_key_from(s, 0, s[j].0));
            }
        }
        lemma_canon_untouched(s, 0, w);
        lemma_canon_push(s, e, 0, w);
        assert(canon(s1, w) == crate::types::subst(w, e.0, e.1));
        lemma_canon_compose(s1, s2, t);
        lemma_canon_compose(s1, s2, w);
        assert(canon(s2, canon(s1, w)) == canon(s2, canon(s1, t)));
    }
}

/// Monotypes that resolve equally keep resolving equally as the map is
/// extended; unification is not transactional, so this is what keeps
/// already-unified pairs unified.
pub proof fn lemma_canon_equal_extend(s: AliasSeq, s2: AliasSeq, a: SpecMono, b: SpecMono)
    requires
        aliases_wf(s2),
        s2.len() >= s.len(),
        s == s2.subrange(0, s.len() as int),
        canon(s, a) == canon(s, b),
    ensures
        canon(s2, a) == canon(s2, b),
{
    lemma_canon_compose(s, s2, a);
    lemma_canon_compose(s, s2, b);
}

/// A mapping from type variables to monotypes, built only by the
/// unification engine.  Entries are kept in insertion order; chains
/// (a variable aliased to another aliased variable) are resolved
/// transitively by canonicalization, never eagerly compressed.
pub struct Aliases(Vec<(String, Mono)>);

impl View for Aliases {
    type V = AliasSeq;

    closed spec fn view(&self) -> AliasSeq {
        self.0.deep_view()
    }
}

impl Aliases {
    /// Well-formedness of this map.
    pub open spec fn wf(&self) -> bool {
        aliases_wf(self@)
    }

    /// The empty alias map.
    pub fn new() -> (r: Aliases)
        ensures
            r@.len() == 0,
            r.wf(),
    {
        let entries: Vec<(String, Mono)> = Vec::new();
        Aliases(entries)
    }

    /// Records that `alpha` is an alias of `tau`.
    pub(crate) fn insert(&mut self, alpha: String, tau: Mono)
        requires
            old(self).wf(),
            !is_key_from(old(self)@, 0, alpha@),
            forall|j: int|
                0 <= j < old(self)@.len() ==> !free_of(tau@).contains(#[trigger] old(self)@[j].0),
            !free_of(tau@).contains(alpha@),
        ensures
            final(self)@ == old(self)@.push((alpha@, tau@)),
            final(self).wf(),
    {
        let ghost old_s = self@;
        let ghost a = alpha@;
        let ghost tv = tau@;
        self.0.push((alpha, tau));
        proof {
            assert(self@ =~= old_s.push((a, tv)));
            let s = self@;
            assert forall|i: int, j: int| 0 <= i < j < s.len() implies (#[trigger] s[i].0)
                != (#[trigger] s[j].0) by {
                if j == s.len() - 1 {
                    assert(!(old_s[i].0 == a)) by {
                        if old_s[i].0 == a {
                            assert(is_key_from(old_s, 0, a));
                        }
                    }
                }
            }
            assert forall|i: int, j: int|
                #![trigger free_of(s[i].1).contains(s[j].0)]
                0 <= j <= i < s.len() implies !free_of(s[i].1).contains(s[j].0) by {
                if i == s.len() - 1 {
                    if j < i {
                        assert(!free_of(tv).contains(old_s[j].0));
                    }
                }
            }
        }
    }

    /// Resolves `t` against the entries from position `lo` on.
    #[verifier::loop_isolation(false)]
    fn canon_from(&self, lo: usize, t: &Mono) -> (r: Mono)
        requires
            lo <= self@.len(),
        ensures
            r@ == canon_at(self@, lo as int, t@),
        decreases self@.len() - lo, t,
    {
        match t {
            Mono::Var(a) => {
                proof {
                    assert(t@ == SpecMono::Var(a@));
                }
                if lo == self.0.len() {
                    proof {
                        assert(self@.len() == self.0@.len());
                    }
                    t.clone()
                } else {
                    proof {
                        assert(self@[lo as int] == self.0@[lo as int].deep_view());
                    }
                    if self.0[lo].0 == *a {
                        self.canon_from(lo + 1, &self.0[lo].1)
                    } else {
                        self.canon_from(lo + 1, t)
                    }
                }
            },
            Mono::App(c, ts) => {
                let mut args: Vec<Mono> = Vec::new();
                let mut i: usize = 0;
                while i < ts.len()
                    invariant
                        i <= ts.len(),
                        args@.len() == i,
                        forall|j: int|
                            0 <= j < i ==> mono_view(args@[j]) == canon_at(
                                self@,
                                lo as int,
                                mono_view(#[trigger] ts@[j]),
                            ),
                    decreases ts.len() - i,
                {
                    proof {
                        assert(*ts == t->App_1);
                        assert(decreases_to!(t => t->App_1));
                        assert(decreases_to!(*ts => ts[i as int]));
                    }
                    let arg = self.canon_from(lo, &ts[i]);
                    args.push(arg);
                    i = i + 1;
                }
                proof {
                    assert(t@ == SpecMono::App(c@, monos_view(*ts)));
                    lemma_monos_view_from(args, 0);
                    lemma_monos_view_from(*ts, 0);
                    lemma_canon_seq_from(self@, lo as int, monos_view(*ts), 0);
                    assert forall|j: int| 0 <= j < ts@.len() implies monos_view(args)[j]
                        == canon_seq_from(self@, lo as int, monos_view(*ts), 0)[j] by {
                        assert(monos_view(args)[j] == mono_view(args@[j]));
                        assert(canon_seq_from(self@, lo as int, monos_view(*ts), 0)[j] == canon_at(
                            self@,
                            lo as int,
                            monos_view(*ts)[0 + j],
                        ));
                        assert(monos_view(*ts)[j] == mono_view(ts@[j]));
                    }
                    assert(monos_view(args) =~= canon_seq_from(
                        self@,
                        lo as int,
                        monos_view(*ts),
                        0,
                    ));
                }
                Mono::App(c.clone(), args)
            },
        }
    }
}

impl Mono {
    /// The most current form of `self`: alias chains are followed until
    /// an unaliased variable or an application is reached, and
    /// application arguments are resolved recursively.
    pub fn canonicalize(&self, aliases: &Aliases) -> (r: Mono)
        ensures
            r@ == canon(aliases@, self@),
    {
        aliases.canon_from(0, self)
    }
}

} // verus!
