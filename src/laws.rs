//! Properties that relate several calls: the order in which passes are
//! folded in does not matter, and simplifying twice is simplifying once.
use vstd::prelude::*;
use crate::names::{lemma_pair_lt_order, names_sorted, pair_lt, pairs_sorted};
use crate::optionality::OptionalityModel;
use crate::order::{lemma_name_lt_irreflexive, lemma_name_lt_transitive, name_lt};
use crate::simplify::{gated, homogeneous, item, item_count, package_simplified, promoted, simplified_item};
use crate::tracker::{marked, Mark};

verus! {

/// Two sequences, strictly sorted by the same strict order, that hold the
/// same elements are equal.
pub proof fn lemma_sorted_unique<A>(s1: Seq<A>, s2: Seq<A>, lt: spec_fn(A, A) -> bool)
    requires
        forall|a: A| !(#[trigger] lt(a, a)),
        forall|a: A, b: A, c: A| #[trigger] lt(a, b) && #[trigger] lt(b, c) ==> lt(a, c),
        forall|i: int, j: int| 0 <= i < j < s1.len() ==> lt(#[trigger] s1[i], #[trigger] s1[j]),
        forall|i: int, j: int| 0 <= i < j < s2.len() ==> lt(#[trigger] s2[i], #[trigger] s2[j]),
        forall|x: A| #[trigger] s1.contains(x) ==> s2.contains(x),
        forall|x: A| #[trigger] s2.contains(x) ==> s1.contains(x),
    ensures
        s1 == s2,
    decreases s1.len(),
{
    if s1.len() == 0 {
        if s2.len() > 0 {
            assert(s2.contains(s2[0]));
            assert(s1.contains(s2[0]));
        }
        assert(s1 =~= s2);
    } else {
        assert(s1.contains(s1[0]));
        assert(s2.len() > 0);
        assert(s2.contains(s2[0]));
        let k = choose|k: int| 0 <= k < s2.len() && s2[k] == s1[0];
        let m = choose|m: int| 0 <= m < s1.len() && s1[m] == s2[0];
        if k > 0 {
            assert(lt(s2[0], s2[k]));
            if m > 0 {
                assert(lt(s1[0], s1[m]));
                assert(lt(s1[0], s1[0]));
            }
            assert(false);
        }
        assert(s2[0] == s1[0]);
        let t1 = s1.drop_first();
        let t2 = s2.drop_first();
        assert forall|x: A| #[trigger] t1.contains(x) implies t2.contains(x) by {
            if t1.contains(x) {
                let i = choose|i: int| 0 <= i < t1.len() && t1[i] == x;
                assert(s1[i + 1] == x);
                assert(lt(s1[0], s1[i + 1]));
                assert(s1.contains(x));
                assert(s2.contains(x));
                let j = choose|j: int| 0 <= j < s2.len() && s2[j] == x;
                if j == 0 {
                    assert(false);
                }
                assert(t2[j - 1] == x);
            }
        }
        assert forall|x: A| #[trigger] t2.contains(x) implies t1.contains(x) by {
            if t2.contains(x) {
                let i = choose|i: int| 0 <= i < t2.len() && t2[i] == x;
                assert(s2[i + 1] == x);
                assert(lt(s2[0], s2[i + 1]));
                assert(s2.contains(x));
                assert(s1.contains(x));
                let j = choose|j: int| 0 <= j < s1.len() && s1[j] == x;
                if j == 0 {
                    assert(false);
                }
                assert(t1[j - 1] == x);
            }
        }
        lemma_sorted_unique(t1, t2, lt);
        assert forall|i: int| 0 <= i < s1.len() implies s1[i] == s2[i] by {
            if i > 0 {
                assert(s1[i] == t1[i - 1]);
                assert(s2[i] == t2[i - 1]);
            }
        }
        assert(s1 =~= s2);
    }
}

/// Two well-formed records that hold the same root packages and the same
/// root features are identical, sequences and order included.
pub proof fn lemma_same_contents_same_record(a: OptionalityModel, b: OptionalityModel)
    requires
        a.wf(),
        b.wf(),
        a is Optional,
        b is Optional,
        forall|n: Seq<char>| a->required.contains(n) <==> b->required.contains(n),
        forall|x: (Seq<char>, Seq<char>)| a->activated.contains(x) <==> b->activated.contains(x),
    ensures
        a == b,
{
    let nl = |x: Seq<char>, y: Seq<char>| name_lt(x, y);
    let pl = |x: (Seq<char>, Seq<char>), y: (Seq<char>, Seq<char>)| pair_lt(x, y);
    assert forall|x: Seq<char>| !(#[trigger] nl(x, x)) by {
        lemma_name_lt_irreflexive(x);
    }
    assert forall|x: Seq<char>, y: Seq<char>, z: Seq<char>| #[trigger] nl(x, y) && #[trigger] nl(y, z) implies nl(x, z) by {
        lemma_name_lt_transitive(x, y, z);
    }
    assert forall|x: (Seq<char>, Seq<char>)| !(#[trigger] pl(x, x)) by {
        lemma_pair_lt_order(x, x, x);
    }
    assert forall|x: (Seq<char>, Seq<char>), y: (Seq<char>, Seq<char>), z: (Seq<char>, Seq<char>)|
        #[trigger] pl(x, y) && #[trigger] pl(y, z) implies pl(x, z) by {
        lemma_pair_lt_order(x, y, z);
    }
    lemma_sorted_unique(a->required, b->required, nl);
    lemma_sorted_unique(a->activated, b->activated, pl);
}

/// `os[i + 1]` is `os[i]` with `ms[i]` recorded.
pub open spec fn is_chain(os: Seq<OptionalityModel>, ms: Seq<Mark>) -> bool {
    &&& os.len() == ms.len() + 1
    &&& forall|i: int| 0 <= i < ms.len() ==> marked(#[trigger] os[i], os[i + 1], ms[i])
}

/// Whether some baseline pass of `ms` is that of root package `p`.
pub open spec fn baseline_of(ms: Seq<Mark>, p: Seq<char>) -> bool {
    exists|i: int| 0 <= i < ms.len() && (#[trigger] ms[i]) is Required && ms[i]->Required_0@ == p
}

/// Whether some feature pass of `ms` is that of root feature `x`.
pub open spec fn feature_pass(ms: Seq<Mark>, x: (Seq<char>, Seq<char>)) -> bool {
    exists|i: int| 0 <= i < ms.len() && (#[trigger] ms[i]) is Activated && ms[i]->Activated_0.key() == x
}

/// Every baseline pass of a root package comes before its feature passes.
pub open spec fn baseline_first(ms: Seq<Mark>) -> bool {
    forall|i: int, j: int|
        0 <= i < ms.len() && 0 <= j < ms.len() && (#[trigger] ms[i]) is Required && (#[trigger] ms[j]) is Activated
            && ms[i]->Required_0@ == ms[j]->Activated_0.package@ ==> i < j
}

/// What a run of passes leaves, in terms of the passes alone.
pub proof fn lemma_chain_contents(os: Seq<OptionalityModel>, ms: Seq<Mark>)
    requires
        is_chain(os, ms),
        baseline_first(ms),
    ensures
        os[0] is Required ==> os.last() is Required,
        os[0] is Optional ==> {
            &&& os.last() is Optional
            &&& forall|n: Seq<char>| #[trigger] os.last()->required.contains(n)
                <==> (os[0]->required.contains(n) || baseline_of(ms, n))
            &&& forall|x: (Seq<char>, Seq<char>)| #[trigger] os.last()->activated.contains(x)
                <==> (os[0]->activated.contains(x) || (feature_pass(ms, x) && !os[0]->required.contains(x.0)
                && !baseline_of(ms, x.0)))
        },
    decreases ms.len(),
{
    if ms.len() == 0 {
        assert forall|n: Seq<char>| !baseline_of(ms, n) by {}
        assert forall|x: (Seq<char>, Seq<char>)| !feature_pass(ms, x) by {}
    } else {
        let k = ms.len() - 1;
        let pos = os.take(k + 1);
        let pms = ms.take(k);
        assert(is_chain(pos, pms)) by {
            assert forall|i: int| 0 <= i < pms.len() implies marked(#[trigger] pos[i], pos[i + 1], pms[i]) by {
                assert(marked(os[i], os[i + 1], ms[i]));
            }
        }
        assert(baseline_first(pms)) by {
            assert forall|i: int, j: int|
                0 <= i < pms.len() && 0 <= j < pms.len() && (#[trigger] pms[i]) is Required && (#[trigger] pms[j]) is Activated
                    && pms[i]->Required_0@ == pms[j]->Activated_0.package@ implies i < j by {
                assert(ms[i] == pms[i] && ms[j] == pms[j]);
            }
        }
        lemma_chain_contents(pos, pms);
        let prev = pos.last();
        assert(prev == os[k]);
        assert(marked(os[k], os[k + 1], ms[k]));
        let m = ms[k];
        assert forall|n: Seq<char>| #[trigger] baseline_of(ms, n) <==> (baseline_of(pms, n) || (m is Required && m->Required_0@ == n)) by {
            if baseline_of(ms, n) {
                let i = choose|i: int| 0 <= i < ms.len() && (#[trigger] ms[i]) is Required && ms[i]->Required_0@ == n;
                if i < k {
                    assert(pms[i] == ms[i]);
                }
            }
            if baseline_of(pms, n) {
                let i = choose|i: int| 0 <= i < pms.len() && (#[trigger] pms[i]) is Required && pms[i]->Required_0@ == n;
                assert(ms[i] == pms[i]);
            }
        }
        assert forall|x: (Seq<char>, Seq<char>)| #[trigger] feature_pass(ms, x) <==> (feature_pass(pms, x) || (m is Activated && m->Activated_0.key() == x)) by {
            if feature_pass(ms, x) {
                let i = choose|i: int| 0 <= i < ms.len() && (#[trigger] ms[i]) is Activated && ms[i]->Activated_0.key() == x;
                if i < k {
                    assert(pms[i] == ms[i]);
                }
            }
            if feature_pass(pms, x) {
                let i = choose|i: int| 0 <= i < pms.len() && (#[trigger] pms[i]) is Activated && pms[i]->Activated_0.key() == x;
                assert(ms[i] == pms[i]);
            }
        }
        if m is Activated {
            // No baseline pass of this package comes later.
            assert forall|x: (Seq<char>, Seq<char>)| x.0 == m->Activated_0.package@ implies (#[trigger] baseline_of(ms, x.0)) == baseline_of(pms, x.0) by {
                if baseline_of(ms, x.0) {
                    let i = choose|i: int| 0 <= i < ms.len() && (#[trigger] ms[i]) is Required && ms[i]->Required_0@ == x.0;
                    assert(i < k);
                    assert(pms[i] == ms[i]);
                }
            }
        }
        if m is Required && os[0] is Optional {
            // A feature pass of this package, if any, came earlier: it was
            // recorded only if the package was not yet required, and so
            // stays recorded.
            assert forall|x: (Seq<char>, Seq<char>)| x.0 == m->Required_0@ && #[trigger] feature_pass(pms, x) implies
                !(!os[0]->required.contains(x.0) && !baseline_of(ms, x.0)) by {
                assert(baseline_of(ms, x.0)) by {
                    assert(ms[k] is Required && ms[k]->Required_0@ == x.0);
                }
            }
        }
    }
}

/// Folding in the same passes, in any order that keeps each baseline pass
/// before the feature passes of its root package, gives the same record.
pub proof fn lemma_accumulation_order_independent(
    os1: Seq<OptionalityModel>,
    ms1: Seq<Mark>,
    os2: Seq<OptionalityModel>,
    ms2: Seq<Mark>,
)
    requires
        is_chain(os1, ms1),
        is_chain(os2, ms2),
        baseline_first(ms1),
        baseline_first(ms2),
        os1[0] == os2[0],
        os1.last().wf(),
        os2.last().wf(),
        forall|n: Seq<char>| #[trigger] baseline_of(ms1, n) == baseline_of(ms2, n),
        forall|x: (Seq<char>, Seq<char>)| #[trigger] feature_pass(ms1, x) == feature_pass(ms2, x),
    ensures
        os1.last() == os2.last(),
{
    lemma_chain_contents(os1, ms1);
    lemma_chain_contents(os2, ms2);
    if os1[0] is Optional {
        assert forall|n: Seq<char>| os1.last()->required.contains(n) <==> os2.last()->required.contains(n) by {
            assert(os1.last()->required.contains(n) == (os1[0]->required.contains(n) || baseline_of(ms1, n)));
            assert(os2.last()->required.contains(n) == (os2[0]->required.contains(n) || baseline_of(ms2, n)));
        }
        assert forall|x: (Seq<char>, Seq<char>)| os1.last()->activated.contains(x) <==> os2.last()->activated.contains(x) by {
            assert(baseline_of(ms1, x.0) == baseline_of(ms2, x.0));
            assert(feature_pass(ms1, x) == feature_pass(ms2, x));
            assert(os1.last()->activated.contains(x) == os2.last()->activated.contains(x));
        }
        lemma_same_contents_same_record(os1.last(), os2.last());
    }
}

/// Simplifying a simplified package changes nothing.
pub proof fn lemma_simplify_idempotent(a: crate::graph::ResolvedPackage, b: crate::graph::ResolvedPackage, c: crate::graph::ResolvedPackage, n: nat)
    requires
        package_simplified(a, b, n),
        package_simplified(b, c, n),
    ensures
        forall|i: int| 0 <= i < item_count(b) ==> #[trigger] item(c, i) == item(b, i),
{
    assert forall|i: int| #[trigger] gated(b, i) == gated(a, i) by {
        if 0 <= i < a.deps@.len() {
            assert(b.deps@[i].kind == a.deps@[i].kind);
        }
    }
    assert forall|i: int| #[trigger] gated(b, i) implies promoted(item(b, i), n) == item(b, i) by {
        assert(item(b, i) == simplified_item(a, i, n));
    }
    if homogeneous(a, n) {
        assert forall|i: int, j: int| #[trigger] gated(b, i) && #[trigger] gated(b, j) implies
            promoted(item(b, i), n) == promoted(item(b, j), n) by {
            assert(item(b, i) == simplified_item(a, i, n));
            assert(item(b, j) == simplified_item(a, j, n));
        }
        assert(homogeneous(b, n));
    } else {
        let (i, j) = choose|i: int, j: int| #[trigger] gated(a, i) && #[trigger] gated(a, j)
            && promoted(item(a, i), n) != promoted(item(a, j), n);
        assert(item(b, i) == simplified_item(a, i, n));
        assert(item(b, j) == simplified_item(a, j, n));
        assert(gated(b, i) && gated(b, j));
        assert(!homogeneous(b, n));
    }
    assert forall|i: int| 0 <= i < item_count(b) implies #[trigger] item(c, i) == item(b, i) by {
        assert(item(c, i) == simplified_item(b, i, n));
        assert(item(b, i) == simplified_item(a, i, n));
    }
}

} // verus!
