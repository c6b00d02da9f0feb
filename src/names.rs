//! Sorted sets of names and of root features, kept in the order of
//! `name_lt` so that iteration never depends on insertion or hashing.
use vstd::prelude::*;
use crate::order::{compare_names, lemma_name_lt_irreflexive, lemma_name_lt_total, lemma_name_lt_transitive, name_lt};

verus! {

/// A feature of a root package, usable as an independent activation unit.
#[derive(Debug)]
pub struct RootFeature {
    pub package: String,
    pub feature: String,
}

impl RootFeature {
    pub open spec fn key(&self) -> (Seq<char>, Seq<char>) {
        (self.package@, self.feature@)
    }

    pub fn copy_of(&self) -> (r: RootFeature)
        ensures
            r == *self,
    {
        RootFeature { package: self.package.clone(), feature: self.feature.clone() }
    }
}

/// Strict order on root features: by package name, then by feature name.
pub open spec fn pair_lt(x: (Seq<char>, Seq<char>), y: (Seq<char>, Seq<char>)) -> bool {
    name_lt(x.0, y.0) || (x.0 == y.0 && name_lt(x.1, y.1))
}

pub proof fn lemma_pair_lt_order(x: (Seq<char>, Seq<char>), y: (Seq<char>, Seq<char>), z: (Seq<char>, Seq<char>))
    ensures
        !pair_lt(x, x),
        pair_lt(x, y) && pair_lt(y, z) ==> pair_lt(x, z),
        x == y || pair_lt(x, y) || pair_lt(y, x),
{
    lemma_name_lt_irreflexive(x.0);
    lemma_name_lt_irreflexive(x.1);
    lemma_name_lt_total(x.0, y.0);
    lemma_name_lt_total(x.1, y.1);
    if name_lt(x.0, y.0) && name_lt(y.0, z.0) {
        lemma_name_lt_transitive(x.0, y.0, z.0);
    }
    if name_lt(x.1, y.1) && name_lt(y.1, z.1) {
        lemma_name_lt_transitive(x.1, y.1, z.1);
    }
    if name_lt(x.0, y.0) && name_lt(y.0, x.0) {
        lemma_name_lt_transitive(x.0, y.0, x.0);
    }
    if name_lt(x.1, y.1) && name_lt(y.1, x.1) {
        lemma_name_lt_transitive(x.1, y.1, x.1);
    }
}

pub open spec fn names_view(v: Seq<String>) -> Seq<Seq<char>> {
    v.map_values(|s: String| s@)
}

pub open spec fn pairs_view(v: Seq<RootFeature>) -> Seq<(Seq<char>, Seq<char>)> {
    v.map_values(|r: RootFeature| r.key())
}

pub open spec fn names_sorted(s: Seq<Seq<char>>) -> bool {
    forall|i: int, j: int| 0 <= i < j < s.len() ==> name_lt(#[trigger] s[i], #[trigger] s[j])
}

pub open spec fn pairs_sorted(s: Seq<(Seq<char>, Seq<char>)>) -> bool {
    forall|i: int, j: int| 0 <= i < j < s.len() ==> pair_lt(#[trigger] s[i], #[trigger] s[j])
}

/// Compares two root features in the order of `pair_lt`.
pub fn compare_root_features(a: &RootFeature, b: &RootFeature) -> (r: i8)
    ensures
        (r < 0) == pair_lt(a.key(), b.key()),
        (r == 0) == (a.key() == b.key()),
        (r > 0) == pair_lt(b.key(), a.key()),
{
    proof {
        lemma_pair_lt_order(a.key(), b.key(), a.key());
        lemma_pair_lt_order(b.key(), a.key(), b.key());
    }
    let c = compare_names(a.package.as_str(), b.package.as_str());
    if c != 0 {
        c
    } else {
        compare_names(a.feature.as_str(), b.feature.as_str())
    }
}

/// Inserts `x` into the sorted set `v`, keeping it sorted and free of
/// duplicates.
pub fn insert_name(v: &mut Vec<String>, x: &String)
    requires
        names_sorted(names_view(old(v)@)),
    ensures
        names_sorted(names_view(final(v)@)),
        forall|n: Seq<char>| #[trigger] names_view(final(v)@).contains(n)
            <==> (names_view(old(v)@).contains(n) || n == x@),
{
    let ghost old_s = names_view(v@);
    let mut i: usize = 0;
    while i < v.len()
        invariant
            i <= v.len(),
            v@ == old(v)@,
            names_view(v@) == old_s,
            names_sorted(old_s),
            forall|j: int| 0 <= j < i ==> name_lt(#[trigger] old_s[j], x@),
        ensures
            i <= v.len(),
            v@ == old(v)@,
            names_view(v@) == old_s,
            forall|j: int| 0 <= j < i ==> name_lt(#[trigger] old_s[j], x@),
            i < v.len() ==> name_lt(x@, old_s[i as int]),
        decreases v.len() - i,
    {
        let c = compare_names(v[i].as_str(), x.as_str());
        if c == 0 {
            proof {
                assert(old_s[i as int] == x@);
            }
            return;
        }
        if c > 0 {
            break;
        }
        i = i + 1;
    }
    proof {
        assert forall|k: int| i <= k < old_s.len() implies name_lt(x@, #[trigger] old_s[k]) by {
            if k > i {
                lemma_name_lt_transitive(x@, old_s[i as int], old_s[k]);
            }
        }
    }
    v.insert(i, x.clone());
    proof {
        let s = names_view(v@);
        assert(s =~= old_s.insert(i as int, x@));
        assert forall|a: int, b: int| 0 <= a < b < s.len() implies name_lt(#[trigger] s[a], #[trigger] s[b]) by {
            if a < i && b > i {
                lemma_name_lt_transitive(s[a], x@, s[b]);
            }
        }
        assert forall|n: Seq<char>| #[trigger] s.contains(n) <==> (old_s.contains(n) || n == x@) by {
            if s.contains(n) {
                let k = choose|k: int| 0 <= k < s.len() && s[k] == n;
                if k < i {
                    assert(old_s[k] == n);
                } else if k > i {
                    assert(old_s[k - 1] == n);
                }
            }
            if old_s.contains(n) {
                let k = choose|k: int| 0 <= k < old_s.len() && old_s[k] == n;
                if k < i {
                    assert(s[k] == n);
                } else {
                    assert(s[k + 1] == n);
                }
            }
            if n == x@ {
                assert(s[i as int] == n);
            }
        }
    }
}

/// Inserts `x` into the sorted set of root features `v`, keeping it sorted and free of
/// duplicates.
pub fn insert_root_feature(v: &mut Vec<RootFeature>, x: &RootFeature)
    requires
        pairs_sorted(pairs_view(old(v)@)),
    ensures
        pairs_sorted(pairs_view(final(v)@)),
        forall|n: (Seq<char>, Seq<char>)| #[trigger] pairs_view(final(v)@).contains(n)
            <==> (pairs_view(old(v)@).contains(n) || n == x.key()),
{
    let ghost old_s = pairs_view(v@);
    let mut i: usize = 0;
    while i < v.len()
        invariant
            i <= v.len(),
            v@ == old(v)@,
            pairs_view(v@) == old_s,
            pairs_sorted(old_s),
            forall|j: int| 0 <= j < i ==> pair_lt(#[trigger] old_s[j], x.key()),
        ensures
            i <= v.len(),
            v@ == old(v)@,
            pairs_view(v@) == old_s,
            forall|j: int| 0 <= j < i ==> pair_lt(#[trigger] old_s[j], x.key()),
            i < v.len() ==> pair_lt(x.key(), old_s[i as int]),
        decreases v.len() - i,
    {
        let c = compare_root_features(&v[i], x);
        if c == 0 {
            proof {
                assert(old_s[i as int] == x.key());
            }
            return;
        }
        if c > 0 {
            break;
        }
        i = i + 1;
    }
    proof {
        assert forall|k: int| i <= k < old_s.len() implies pair_lt(x.key(), #[trigger] old_s[k]) by {
            if k > i {
                lemma_pair_lt_order(x.key(), old_s[i as int], old_s[k]);
            }
        }
    }
    v.insert(i, x.copy_of());
    proof {
        let s = pairs_view(v@);
        assert(s =~= old_s.insert(i as int, x.key()));
        assert forall|a: int, b: int| 0 <= a < b < s.len() implies pair_lt(#[trigger] s[a], #[trigger] s[b]) by {
            if a < i && b > i {
                lemma_pair_lt_order(s[a], x.key(), s[b]);
            }
        }
        assert forall|n: (Seq<char>, Seq<char>)| #[trigger] s.contains(n) <==> (old_s.contains(n) || n == x.key()) by {
            if s.contains(n) {
                let k = choose|k: int| 0 <= k < s.len() && s[k] == n;
                if k < i {
                    assert(old_s[k] == n);
                } else if k > i {
                    assert(old_s[k - 1] == n);
                }
            }
            if old_s.contains(n) {
                let k = choose|k: int| 0 <= k < old_s.len() && old_s[k] == n;
                if k < i {
                    assert(s[k] == n);
                } else {
                    assert(s[k + 1] == n);
                }
            }
            if n == x.key() {
                assert(s[i as int] == n);
            }
        }
    }
}

} // verus!
