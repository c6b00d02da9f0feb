//! The record of which root packages and root features make a feature or a
//! dependency edge necessary.
use vstd::prelude::*;
use vstd::string::StringExecFns;
use crate::expr::BoolExpr;
use crate::names::{
    insert_name, insert_root_feature, names_sorted, names_view, pairs_sorted, pairs_view,
    RootFeature,
};

verus! {

/// What an `Optionality` stands for: `Required`, or the sorted names of the
/// root packages that need the item unconditionally and the sorted root
/// features that activate it.
pub enum OptionalityModel {
    Required,
    Optional { required: Seq<Seq<char>>, activated: Seq<(Seq<char>, Seq<char>)> },
}

#[derive(Debug)]
pub enum Optionality {
    Required,
    Optional { required_by_pkgs: Vec<String>, activated_by_features: Vec<RootFeature> },
}

impl View for Optionality {
    type V = OptionalityModel;

    open spec fn view(&self) -> OptionalityModel {
        match self {
            Optionality::Required => OptionalityModel::Required,
            Optionality::Optional { required_by_pkgs, activated_by_features } => {
                OptionalityModel::Optional {
                    required: names_view(required_by_pkgs@),
                    activated: pairs_view(activated_by_features@),
                }
            },
        }
    }
}

impl OptionalityModel {
    /// Both sets are kept sorted, hence free of duplicates.
    pub open spec fn wf(self) -> bool {
        match self {
            OptionalityModel::Required => true,
            OptionalityModel::Optional { required, activated } => names_sorted(required)
                && pairs_sorted(activated),
        }
    }
}

/// `new` holds what `old` holds and `x`, and nothing else.
pub open spec fn names_grown(old: Seq<Seq<char>>, new: Seq<Seq<char>>, x: Seq<char>) -> bool {
    forall|n: Seq<char>| #[trigger] new.contains(n) <==> (old.contains(n) || n == x)
}

pub open spec fn pairs_grown(
    old: Seq<(Seq<char>, Seq<char>)>,
    new: Seq<(Seq<char>, Seq<char>)>,
    x: (Seq<char>, Seq<char>),
) -> bool {
    forall|n: (Seq<char>, Seq<char>)| #[trigger] new.contains(n) <==> (old.contains(n) || n == x)
}

impl Default for Optionality {
    /// Never needed: no root package and no root feature yet.
    fn default() -> (r: Optionality)
        ensures
            r@ == (OptionalityModel::Optional { required: Seq::empty(), activated: Seq::empty() }),
    {
        let r = Optionality::Optional {
            required_by_pkgs: Vec::new(),
            activated_by_features: Vec::new(),
        };
        proof {
            assert(names_view(Seq::<String>::empty()) =~= Seq::empty());
            assert(pairs_view(Seq::<RootFeature>::empty()) =~= Seq::empty());
        }
        r
    }
}

impl Optionality {
    /// Records that root package `pkg_name` needs the item unconditionally.
    pub fn required_by(&mut self, pkg_name: &String)
        requires
            old(self)@.wf(),
        ensures
            final(self)@.wf(),
            match old(self)@ {
                OptionalityModel::Required => final(self)@ == old(self)@,
                OptionalityModel::Optional { required, activated } => match final(self)@ {
                    OptionalityModel::Required => false,
                    OptionalityModel::Optional { required: r2, activated: a2 } => names_grown(
                        required,
                        r2,
                        pkg_name@,
                    ) && a2 == activated,
                },
            },
    {
        match self {
            Optionality::Required => {},
            Optionality::Optional { required_by_pkgs, .. } => {
                insert_name(required_by_pkgs, pkg_name);
            },
        }
    }

    /// Records that root feature `root_feature` activates the item, unless
    /// its package already needs the item unconditionally.
    pub fn activated_by(&mut self, root_feature: &RootFeature)
        requires
            old(self)@.wf(),
        ensures
            final(self)@.wf(),
            match old(self)@ {
                OptionalityModel::Required => final(self)@ == old(self)@,
                OptionalityModel::Optional { required, activated } => match final(self)@ {
                    OptionalityModel::Required => false,
                    OptionalityModel::Optional { required: r2, activated: a2 } => r2 == required
                        && if required.contains(root_feature.package@) {
                        a2 == activated
                    } else {
                        pairs_grown(activated, a2, root_feature.key())
                    },
                },
            },
    {
        match self {
            Optionality::Required => {},
            Optionality::Optional { required_by_pkgs, activated_by_features } => {
                let mut present = false;
                let mut i: usize = 0;
                while i < required_by_pkgs.len()
                    invariant
                        i <= required_by_pkgs.len(),
                        present == exists|j: int|
                            0 <= j < i && #[trigger] required_by_pkgs@[j]@
                                == root_feature.package@,
                    decreases required_by_pkgs.len() - i,
                {
                    if required_by_pkgs[i] == root_feature.package {
                        present = true;
                    }
                    i = i + 1;
                }
                proof {
                    let s = names_view(required_by_pkgs@);
                    if s.contains(root_feature.package@) {
                        let j = choose|j: int| 0 <= j < s.len() && s[j] == root_feature.package@;
                        assert(required_by_pkgs@[j]@ == root_feature.package@);
                    }
                    if present {
                        let j = choose|j: int|
                            0 <= j < i && #[trigger] required_by_pkgs@[j]@
                                == root_feature.package@;
                        assert(s[j] == root_feature.package@);
                    }
                }
                if !present {
                    insert_root_feature(activated_by_features, root_feature);
                }
            },
        }
    }
}

/// What the `Debug` formatting of a string gives: the text quoted and escaped.
pub uninterp spec fn debug_quoted(s: Seq<char>) -> Seq<char>;

/// Relies on std's `Debug` impl for `str`, through `format!("{:?}")`: the
/// text depends on the characters of `s` alone.
#[verifier::external_body]
fn debug_quote(s: &str) -> (r: String)
    ensures
        r@ == debug_quoted(s@),
{
    format!("{:?}", s)
}

/// The selection key of a root feature: `"<package>/<feature>"`.
pub open spec fn root_feature_key(k: (Seq<char>, Seq<char>)) -> Seq<char> {
    k.0 + seq!['/'] + k.1
}

/// The atom asking whether the selection held in variable `var` contains `key`.
pub open spec fn query_atom(var: Seq<char>, key: Seq<char>) -> Seq<char> {
    var + seq![' ', '?', ' '] + debug_quoted(key)
}

/// Formats a root feature as its selection key.
pub fn display_root_feature(root_feature: &RootFeature) -> (r: String)
    ensures
        r@ == root_feature_key(root_feature.key()),
{
    let mut r = root_feature.package.clone();
    proof {
        reveal_strlit("/");
    }
    r.append("/");
    r.append(root_feature.feature.as_str());
    r
}

fn query(var: &str, key: &str) -> (r: BoolExpr)
    ensures
        r is Single && r->Single_0@ == query_atom(var@, key@),
{
    let mut s = String::from_str(var);
    proof {
        reveal_strlit(" ? ");
    }
    s.append(" ? ");
    let q = debug_quote(key);
    s.append(q.as_str());
    proof {
        assert(s@ =~= query_atom(var@, key@));
    }
    BoolExpr::Single(s)
}

impl Optionality {
    /// The gating expression: `True` when required; otherwise the
    /// disjunction of one atom per activating root feature, then one atom per
    /// root package that needs the item. An empty disjunction means never.
    pub fn to_expr(&self, root_features_var: &str) -> (r: BoolExpr)
        ensures
            match self@ {
                OptionalityModel::Required => r is True,
                OptionalityModel::Optional { required, activated } => r is Or && {
                    let v = r->Or_0@;
                    &&& v.len() == activated.len() + required.len()
                    &&& forall|i: int|
                        0 <= i < activated.len() ==> #[trigger] v[i] is Single && v[i]->Single_0@
                            == query_atom(root_features_var@, root_feature_key(activated[i]))
                    &&& forall|i: int|
                        activated.len() <= i < v.len() ==> #[trigger] v[i] is Single
                            && v[i]->Single_0@ == query_atom(
                            root_features_var@,
                            required[i - activated.len()],
                        )
                },
            },
    {
        match self {
            Optionality::Required => BoolExpr::True,
            Optionality::Optional { required_by_pkgs, activated_by_features } => {
                let mut v: Vec<BoolExpr> = Vec::new();
                let mut i: usize = 0;
                while i < activated_by_features.len()
                    invariant
                        i <= activated_by_features.len(),
                        v@.len() == i,
                        forall|j: int|
                            0 <= j < i ==> #[trigger] v@[j] is Single && v@[j]->Single_0@
                                == query_atom(
                                root_features_var@,
                                root_feature_key(activated_by_features@[j].key()),
                            ),
                    decreases activated_by_features.len() - i,
                {
                    let key = display_root_feature(&activated_by_features[i]);
                    v.push(query(root_features_var, key.as_str()));
                    i = i + 1;
                }
                let mut k: usize = 0;
                while k < required_by_pkgs.len()
                    invariant
                        k <= required_by_pkgs.len(),
                        v@.len() == activated_by_features.len() + k,
                        forall|j: int|
                            0 <= j < activated_by_features.len() ==> #[trigger] v@[j] is Single
                                && v@[j]->Single_0@ == query_atom(
                                root_features_var@,
                                root_feature_key(activated_by_features@[j].key()),
                            ),
                        forall|j: int|
                            activated_by_features.len() <= j < v@.len() ==> #[trigger] v@[j] is Single
                                && v@[j]->Single_0@ == query_atom(
                                root_features_var@,
                                required_by_pkgs@[j - activated_by_features.len()]@,
                            ),
                    decreases required_by_pkgs.len() - k,
                {
                    v.push(query(root_features_var, required_by_pkgs[k].as_str()));
                    k = k + 1;
                }
                BoolExpr::Or(v)
            },
        }
    }
}

fn names_equal(a: &Vec<String>, b: &Vec<String>) -> (r: bool)
    ensures
        r == (names_view(a@) == names_view(b@)),
{
    if a.len() != b.len() {
        proof {
            assert(names_view(a@).len() != names_view(b@).len());
        }
        return false;
    }
    let mut i: usize = 0;
    while i < a.len()
        invariant
            i <= a.len(),
            a.len() == b.len(),
            forall|j: int| 0 <= j < i ==> #[trigger] a@[j]@ == b@[j]@,
        decreases a.len() - i,
    {
        if a[i] != b[i] {
            proof {
                assert(names_view(a@)[i as int] != names_view(b@)[i as int]);
            }
            return false;
        }
        i = i + 1;
    }
    proof {
        assert(names_view(a@) =~= names_view(b@));
    }
    true
}

fn pairs_equal(a: &Vec<RootFeature>, b: &Vec<RootFeature>) -> (r: bool)
    ensures
        r == (pairs_view(a@) == pairs_view(b@)),
{
    if a.len() != b.len() {
        proof {
            assert(pairs_view(a@).len() != pairs_view(b@).len());
        }
        return false;
    }
    let mut i: usize = 0;
    while i < a.len()
        invariant
            i <= a.len(),
            a.len() == b.len(),
            forall|j: int| 0 <= j < i ==> #[trigger] a@[j].key() == b@[j].key(),
        decreases a.len() - i,
    {
        if a[i].package != b[i].package || a[i].feature != b[i].feature {
            proof {
                assert(pairs_view(a@)[i as int] != pairs_view(b@)[i as int]);
            }
            return false;
        }
        i = i + 1;
    }
    proof {
        assert(pairs_view(a@) =~= pairs_view(b@));
    }
    true
}

impl Optionality {
    /// Whether two values stand for the same record.
    pub fn equals(&self, other: &Optionality) -> (r: bool)
        ensures
            r == (self@ == other@),
    {
        match (self, other) {
            (Optionality::Required, Optionality::Required) => true,
            (
                Optionality::Optional { required_by_pkgs: r1, activated_by_features: a1 },
                Optionality::Optional { required_by_pkgs: r2, activated_by_features: a2 },
            ) => names_equal(r1, r2) && pairs_equal(a1, a2),
            _ => false,
        }
    }
}

/// Whether all the given values stand for the same record (true when there
/// are none).
pub fn all_eq(items: &Vec<&Optionality>) -> (r: bool)
    ensures
        r == forall|i: int, j: int|
            0 <= i < items@.len() && 0 <= j < items@.len() ==> #[trigger] items@[i]@
                == #[trigger] items@[j]@,
{
    if items.len() == 0 {
        return true;
    }
    let first = items[0];
    let mut i: usize = 1;
    while i < items.len()
        invariant
            1 <= i <= items.len(),
            first == items@[0],
            forall|j: int| 0 <= j < i ==> #[trigger] items@[j]@ == first@,
        decreases items.len() - i,
    {
        if !items[i].equals(first) {
            return false;
        }
        i = i + 1;
    }
    true
}

} // verus!
