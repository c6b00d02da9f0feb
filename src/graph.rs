//! The per-package view of the resolved dependency graph: merged dependency
//! edges and declared features, each with its `Optionality`.
use vstd::prelude::*;
use crate::names::{insert_name, names_sorted, names_view};
use crate::optionality::{Optionality, OptionalityModel};

verus! {

/// The kind of a dependency declaration, in the order used for edge keys.
#[derive(Clone, Copy, PartialEq, Eq, Structural, Debug)]
pub enum DependencyKind {
    Normal,
    Development,
    Build,
}

pub open spec fn kind_rank(k: DependencyKind) -> int {
    match k {
        DependencyKind::Normal => 0,
        DependencyKind::Development => 1,
        DependencyKind::Build => 2,
    }
}

fn rank_of(k: DependencyKind) -> (r: u8)
    ensures
        r as int == kind_rank(k),
{
    match k {
        DependencyKind::Normal => 0,
        DependencyKind::Development => 1,
        DependencyKind::Build => 2,
    }
}

/// Strict order on edge keys (target package, kind).
pub open spec fn edge_key_lt(t1: usize, k1: DependencyKind, t2: usize, k2: DependencyKind) -> bool {
    t1 < t2 || (t1 == t2 && kind_rank(k1) < kind_rank(k2))
}

/// One merged dependency edge.
pub struct ResolvedDependency {
    /// The name under which the dependent links the target.
    pub extern_name: String,
    /// The position of the target package in the graph.
    pub target: usize,
    pub kind: DependencyKind,
    pub optionality: Optionality,
    /// `None` when unrestricted; otherwise the platform expressions, any of
    /// which enables the edge.
    pub platforms: Option<Vec<String>>,
}

pub struct EdgeModel {
    pub extern_name: Seq<char>,
    pub optionality: OptionalityModel,
    pub platforms: Option<Seq<Seq<char>>>,
}

pub open spec fn platforms_view(p: Option<Vec<String>>) -> Option<Seq<Seq<char>>> {
    match p {
        Some(v) => Some(names_view(v@)),
        None => None,
    }
}

impl View for ResolvedDependency {
    type V = EdgeModel;

    open spec fn view(&self) -> EdgeModel {
        EdgeModel {
            extern_name: self.extern_name@,
            optionality: self.optionality@,
            platforms: platforms_view(self.platforms),
        }
    }
}

/// A declared feature of a package and when it is needed.
pub struct FeatureState {
    pub name: String,
    pub optionality: Optionality,
}

/// A package instance with its merged dependency edges and its features.
pub struct ResolvedPackage {
    /// Sorted by (target, kind), one edge per key.
    pub deps: Vec<ResolvedDependency>,
    /// Sorted by name, one entry per name.
    pub features: Vec<FeatureState>,
    pub checksum: Option<String>,
}

pub open spec fn edges_sorted(deps: Seq<ResolvedDependency>) -> bool {
    forall|i: int, j: int|
        0 <= i < j < deps.len() ==> edge_key_lt(
            #[trigger] deps[i].target,
            deps[i].kind,
            #[trigger] deps[j].target,
            deps[j].kind,
        )
}

pub open spec fn has_edge(deps: Seq<ResolvedDependency>, t: usize, k: DependencyKind) -> bool {
    exists|i: int| 0 <= i < deps.len() && #[trigger] deps[i].target == t && deps[i].kind == k
}

/// The edge of key (`t`, `k`), if there is one.
pub open spec fn edge_at(deps: Seq<ResolvedDependency>, t: usize, k: DependencyKind) -> Option<
    EdgeModel,
> {
    if has_edge(deps, t, k) {
        let i = choose|i: int| 0 <= i < deps.len() && #[trigger] deps[i].target == t && deps[i].kind == k;
        Some(deps[i]@)
    } else {
        None
    }
}

pub proof fn lemma_edge_at_index(deps: Seq<ResolvedDependency>, i: int)
    requires
        edges_sorted(deps),
        0 <= i < deps.len(),
    ensures
        edge_at(deps, deps[i].target, deps[i].kind) == Some(deps[i]@),
{
    let t = deps[i].target;
    let k = deps[i].kind;
    assert(has_edge(deps, t, k));
    let j = choose|j: int| 0 <= j < deps.len() && #[trigger] deps[j].target == t && deps[j].kind == k;
    if j < i {
        assert(edge_key_lt(deps[j].target, deps[j].kind, deps[i].target, deps[i].kind));
    } else if j > i {
        assert(edge_key_lt(deps[i].target, deps[i].kind, deps[j].target, deps[j].kind));
    }
}

/// One declaration of a dependency on a package.
pub struct DeclaredDependency {
    pub kind: DependencyKind,
    /// The platform restriction, `None` when unrestricted.
    pub platform: Option<String>,
}

/// A resolved target package with the declarations that lead to it.
pub struct DependencyTarget {
    pub target: usize,
    /// The linkage name; `None` when the target has no library.
    pub extern_name: Option<String>,
    pub declarations: Vec<DeclaredDependency>,
}

/// A declaration of a linkable target, as the merging sees it.
pub struct DeclModel {
    pub target: usize,
    pub extern_name: Seq<char>,
    pub kind: DependencyKind,
    pub platform: Option<Seq<char>>,
}

pub open spec fn decl_model(t: DependencyTarget, name: Seq<char>, d: DeclaredDependency) -> DeclModel {
    DeclModel {
        target: t.target,
        extern_name: name,
        kind: d.kind,
        platform: match d.platform {
            Some(p) => Some(p@),
            None => None,
        },
    }
}

/// The declarations of the first `j` entries of `t`, or none when `t` has no
/// library.
pub open spec fn target_decls(t: DependencyTarget, j: int) -> Seq<DeclModel> {
    match t.extern_name {
        Some(name) => t.declarations@.take(j).map_values(|d: DeclaredDependency| decl_model(t, name@, d)),
        None => Seq::empty(),
    }
}

/// All declarations of linkable targets, in order.
pub open spec fn linkable_decls(targets: Seq<DependencyTarget>) -> Seq<DeclModel>
    decreases targets.len(),
{
    if targets.len() == 0 {
        Seq::empty()
    } else {
        let last = targets.last();
        linkable_decls(targets.drop_last()) + target_decls(last, last.declarations@.len() as int)
    }
}

pub open spec fn fresh_edge(d: DeclModel) -> EdgeModel {
    EdgeModel {
        extern_name: d.extern_name,
        optionality: OptionalityModel::Optional { required: Seq::empty(), activated: Seq::empty() },
        platforms: Some(Seq::empty()),
    }
}

/// Adds one declaration to an edge: its platform joins the list, and a
/// declaration without a platform makes the edge unrestricted.
pub open spec fn merge_platform(e: EdgeModel, d: DeclModel) -> EdgeModel {
    EdgeModel {
        platforms: match (d.platform, e.platforms) {
            (Some(p), Some(ps)) => Some(ps.push(p)),
            _ => None,
        },
        ..e
    }
}

/// The edge of key (`t`, `k`) after merging the declarations `ds` in order.
pub open spec fn merged_edge(ds: Seq<DeclModel>, t: usize, k: DependencyKind) -> Option<EdgeModel>
    decreases ds.len(),
{
    if ds.len() == 0 {
        None
    } else {
        let d = ds.last();
        let before = merged_edge(ds.drop_last(), t, k);
        if d.target == t && d.kind == k {
            match before {
                Some(e) => Some(merge_platform(e, d)),
                None => Some(merge_platform(fresh_edge(d), d)),
            }
        } else {
            before
        }
    }
}

pub open spec fn edges_wf(deps: Seq<ResolvedDependency>) -> bool {
    &&& edges_sorted(deps)
    &&& forall|i: int| 0 <= i < deps.len() ==> (#[trigger] deps[i]).optionality@.wf()
}

fn key_before(a_target: usize, a_kind: DependencyKind, b_target: usize, b_kind: DependencyKind) -> (r: bool)
    ensures
        r == edge_key_lt(a_target, a_kind, b_target, b_kind),
{
    a_target < b_target || (a_target == b_target && rank_of(a_kind) < rank_of(b_kind))
}

fn merge_into(e: &mut ResolvedDependency, platform: &Option<String>)
    ensures
        final(e).target == old(e).target,
        final(e).kind == old(e).kind,
        final(e).optionality == old(e).optionality,
        final(e)@ == merge_platform(
            old(e)@,
            DeclModel {
                target: old(e).target,
                extern_name: old(e).extern_name@,
                kind: old(e).kind,
                platform: match platform {
                    Some(p) => Some(p@),
                    None => None,
                },
            },
        ),
{
    let taken = e.platforms.take();
    match (platform, taken) {
        (Some(p), Some(mut ps)) => {
            let ghost before = ps@;
            ps.push(p.clone());
            proof {
                assert(names_view(ps@) =~= names_view(before).push(p@));
            }
            e.platforms = Some(ps);
        },
        _ => {},
    }
}

proof fn lemma_replace_edge(old_s: Seq<ResolvedDependency>, i: int, e: ResolvedDependency)
    requires
        edges_wf(old_s),
        0 <= i < old_s.len(),
        e.target == old_s[i].target,
        e.kind == old_s[i].kind,
        e.optionality@.wf(),
    ensures
        edges_wf(old_s.update(i, e)),
        edge_at(old_s, e.target, e.kind) == Some(old_s[i]@),
        edge_at(old_s.update(i, e), e.target, e.kind) == Some(e@),
        forall|t: usize, k: DependencyKind| !(t == e.target && k == e.kind) ==>
            #[trigger] edge_at(old_s.update(i, e), t, k) == edge_at(old_s, t, k),
{
    let s = old_s.update(i, e);
    assert(edges_wf(s));
    lemma_edge_at_index(old_s, i);
    lemma_edge_at_index(s, i);
    assert forall|t: usize, k: DependencyKind| !(t == e.target && k == e.kind) implies
        #[trigger] edge_at(s, t, k) == edge_at(old_s, t, k) by {
        if has_edge(s, t, k) {
            let j = choose|j: int| 0 <= j < s.len() && #[trigger] s[j].target == t && s[j].kind == k;
            lemma_edge_at_index(s, j);
            lemma_edge_at_index(old_s, j);
        } else if has_edge(old_s, t, k) {
            let j = choose|j: int| 0 <= j < old_s.len() && #[trigger] old_s[j].target == t && old_s[j].kind == k;
            assert(s[j].target == t && s[j].kind == k);
        }
    }
}

proof fn lemma_insert_edge(old_s: Seq<ResolvedDependency>, i: int, e: ResolvedDependency)
    requires
        edges_wf(old_s),
        0 <= i <= old_s.len(),
        forall|j: int| 0 <= j < i ==> edge_key_lt(#[trigger] old_s[j].target, old_s[j].kind, e.target, e.kind),
        i < old_s.len() ==> edge_key_lt(e.target, e.kind, old_s[i].target, old_s[i].kind),
        e.optionality@.wf(),
    ensures
        edges_wf(old_s.insert(i, e)),
        edge_at(old_s, e.target, e.kind) is None,
        edge_at(old_s.insert(i, e), e.target, e.kind) == Some(e@),
        forall|t: usize, k: DependencyKind| !(t == e.target && k == e.kind) ==>
            #[trigger] edge_at(old_s.insert(i, e), t, k) == edge_at(old_s, t, k),
{
    let s = old_s.insert(i, e);
    assert forall|a: int, b: int| 0 <= a < b < s.len() implies edge_key_lt(
        #[trigger] s[a].target,
        s[a].kind,
        #[trigger] s[b].target,
        s[b].kind,
    ) by {
        if a < i && b > i {
            assert(edge_key_lt(s[a].target, s[a].kind, e.target, e.kind));
        }
        if a == i && b > i + 1 {
            assert(edge_key_lt(old_s[i].target, old_s[i].kind, s[b].target, s[b].kind));
        }
    }
    assert(edges_wf(s));
    lemma_edge_at_index(s, i);
    assert(!has_edge(old_s, e.target, e.kind)) by {
        if has_edge(old_s, e.target, e.kind) {
            let j = choose|j: int| 0 <= j < old_s.len() && #[trigger] old_s[j].target == e.target && old_s[j].kind == e.kind;
            if j > i {
                assert(edge_key_lt(old_s[i].target, old_s[i].kind, old_s[j].target, old_s[j].kind));
            }
        }
    }
    assert forall|t: usize, k: DependencyKind| !(t == e.target && k == e.kind) implies
        #[trigger] edge_at(s, t, k) == edge_at(old_s, t, k) by {
        if has_edge(s, t, k) {
            let j = choose|j: int| 0 <= j < s.len() && #[trigger] s[j].target == t && s[j].kind == k;
            lemma_edge_at_index(s, j);
            if j < i {
                lemma_edge_at_index(old_s, j);
            } else {
                lemma_edge_at_index(old_s, j - 1);
            }
        } else if has_edge(old_s, t, k) {
            let j = choose|j: int| 0 <= j < old_s.len() && #[trigger] old_s[j].target == t && old_s[j].kind == k;
            if j < i {
                assert(s[j].target == t && s[j].kind == k);
            } else {
                assert(s[j + 1].target == t && s[j + 1].kind == k);
            }
        }
    }
}

pub open spec fn declared(d: DeclaredDependency, target: usize, extern_name: Seq<char>) -> DeclModel {
    DeclModel {
        target,
        extern_name,
        kind: d.kind,
        platform: match d.platform {
            Some(p) => Some(p@),
            None => None,
        },
    }
}

/// `new` is `old` with declaration `dm` merged into the edge of its key.
pub open spec fn merged_one(old: Seq<ResolvedDependency>, new: Seq<ResolvedDependency>, dm: DeclModel) -> bool {
    forall|t: usize, k: DependencyKind|
        #[trigger] edge_at(new, t, k) == if t == dm.target && k == dm.kind {
            match edge_at(old, t, k) {
                Some(e) => Some(merge_platform(e, dm)),
                None => Some(merge_platform(fresh_edge(dm), dm)),
            }
        } else {
            edge_at(old, t, k)
        }
}

/// Merges one declaration of a linkable target into the sorted edges.
fn add_declaration(deps: &mut Vec<ResolvedDependency>, d: &DeclaredDependency, target: usize, extern_name: &String)
    requires
        edges_wf(old(deps)@),
    ensures
        edges_wf(final(deps)@),
        merged_one(old(deps)@, final(deps)@, declared(*d, target, extern_name@)),
{
    let ghost old_s = deps@;
    let kind = d.kind;
    let mut i: usize = 0;
    while i < deps.len()
        invariant
            i <= deps.len(),
            deps@ == old_s,
            forall|j: int| 0 <= j < i ==> edge_key_lt(#[trigger] old_s[j].target, old_s[j].kind, target, kind),
        ensures
            i <= deps.len(),
            deps@ == old_s,
            forall|j: int| 0 <= j < i ==> edge_key_lt(#[trigger] old_s[j].target, old_s[j].kind, target, kind),
            i < deps.len() ==> !edge_key_lt(old_s[i as int].target, old_s[i as int].kind, target, kind),
        decreases deps.len() - i,
    {
        if !key_before(deps[i].target, deps[i].kind, target, kind) {
            break;
        }
        i = i + 1;
    }
    if i < deps.len() && deps[i].target == target && deps[i].kind == kind {
        let mut e = deps.remove(i);
        merge_into(&mut e, &d.platform);
        deps.insert(i, e);
        proof {
            assert(deps@ =~= old_s.update(i as int, e));
            lemma_replace_edge(old_s, i as int, e);
        }
    } else {
        let mut e = ResolvedDependency {
            extern_name: extern_name.clone(),
            target,
            kind,
            optionality: Optionality::default(),
            platforms: Some(Vec::new()),
        };
        proof {
            assert(names_view(Seq::<String>::empty()) =~= Seq::empty());
            assert(e@ == fresh_edge(declared(*d, target, extern_name@)));
        }
        merge_into(&mut e, &d.platform);
        deps.insert(i, e);
        proof {
            assert(deps@ =~= old_s.insert(i as int, e));
            lemma_insert_edge(old_s, i as int, e);
        }
    }
}

pub open spec fn feature_names(fs: Seq<FeatureState>) -> Seq<Seq<char>> {
    fs.map_values(|f: FeatureState| f.name@)
}

impl ResolvedPackage {
    pub open spec fn wf(&self) -> bool {
        &&& edges_wf(self.deps@)
        &&& names_sorted(feature_names(self.features@))
        &&& forall|i: int| 0 <= i < self.features@.len() ==> (#[trigger] self.features@[i]).optionality@.wf()
    }

    /// Builds a package from the targets its dependencies resolve to, the
    /// features that the full resolution activates on it, and its checksum.
    /// Declarations of targets without a library are dropped; the others are
    /// merged per (target, kind). Every edge and feature starts never needed.
    pub fn new(targets: &Vec<DependencyTarget>, features: &Vec<String>, checksum: Option<String>) -> (r: ResolvedPackage)
        ensures
            r.wf(),
            forall|t: usize, k: DependencyKind|
                #[trigger] edge_at(r.deps@, t, k) == merged_edge(linkable_decls(targets@), t, k),
            forall|i: int| 0 <= i < r.deps@.len() ==> (#[trigger] r.deps@[i]).optionality@
                == (OptionalityModel::Optional { required: Seq::empty(), activated: Seq::empty() }),
            forall|n: Seq<char>| #[trigger] feature_names(r.features@).contains(n) <==> names_view(features@).contains(n),
            forall|i: int| 0 <= i < r.features@.len() ==> (#[trigger] r.features@[i]).optionality@
                == (OptionalityModel::Optional { required: Seq::empty(), activated: Seq::empty() }),
            r.checksum == checksum,
    {
        let mut deps: Vec<ResolvedDependency> = Vec::new();
        let mut i: usize = 0;
        while i < targets.len()
            invariant
                i <= targets.len(),
                edges_wf(deps@),
                forall|t: usize, k: DependencyKind|
                    #[trigger] edge_at(deps@, t, k) == merged_edge(linkable_decls(targets@.take(i as int)), t, k),
            decreases targets.len() - i,
        {
            let tg = &targets[i];
            proof {
                assert(targets@.take(i + 1).drop_last() =~= targets@.take(i as int));
            }
            match &tg.extern_name {
                None => {
                    proof {
                        assert(linkable_decls(targets@.take(i + 1)) =~= linkable_decls(targets@.take(i as int)));
                    }
                },
                Some(name) => {
                    let ghost base = linkable_decls(targets@.take(i as int));
                    let mut j: usize = 0;
                    while j < tg.declarations.len()
                        invariant
                            j <= tg.declarations.len(),
                            tg.extern_name == Some(*name),
                            edges_wf(deps@),
                            forall|t: usize, k: DependencyKind|
                                #[trigger] edge_at(deps@, t, k) == merged_edge(base + target_decls(*tg, j as int), t, k),
                        decreases tg.declarations.len() - j,
                    {
                        let ghost before = deps@;
                        let ghost dm = declared(tg.declarations@[j as int], tg.target, name@);
                        add_declaration(&mut deps, &tg.declarations[j], tg.target, name);
                        proof {
                            let ds = base + target_decls(*tg, j as int);
                            assert(target_decls(*tg, j + 1) =~= target_decls(*tg, j as int).push(dm));
                            assert((base + target_decls(*tg, j + 1)).drop_last() =~= ds);
                            assert forall|t: usize, k: DependencyKind|
                                #[trigger] edge_at(deps@, t, k) == merged_edge(base + target_decls(*tg, j + 1), t, k) by {
                                assert(edge_at(before, t, k) == merged_edge(ds, t, k));
                            }
                        }
                        j = j + 1;
                    }
                    proof {
                        assert(tg.declarations@.take(tg.declarations@.len() as int) =~= tg.declarations@);
                    }
                },
            }
            i = i + 1;
        }
        proof {
            assert(targets@.take(targets@.len() as int) =~= targets@);
            assert forall|x: int| 0 <= x < deps@.len() implies (#[trigger] deps@[x]).optionality@
                == (OptionalityModel::Optional { required: Seq::empty(), activated: Seq::empty() }) by {
                lemma_edge_at_index(deps@, x);
                lemma_merged_edge_fresh(linkable_decls(targets@), deps@[x].target, deps@[x].kind);
            }
        }
        let mut names: Vec<String> = Vec::new();
        let mut m: usize = 0;
        proof {
            assert(names_view(names@) =~= Seq::empty());
        }
        while m < features.len()
            invariant
                m <= features.len(),
                names_sorted(names_view(names@)),
                forall|n: Seq<char>| #[trigger] names_view(names@).contains(n) <==> names_view(features@.take(m as int)).contains(n),
            decreases features.len() - m,
        {
            insert_name(&mut names, &features[m]);
            proof {
                let prev = names_view(features@.take(m as int));
                let next = names_view(features@.take(m + 1));
                assert(next =~= prev.push(features@[m as int]@));
                assert forall|n: Seq<char>| #[trigger] next.contains(n) <==> (prev.contains(n) || n == features@[m as int]@) by {
                    if next.contains(n) {
                        let k = choose|k: int| 0 <= k < next.len() && next[k] == n;
                        if k < m {
                            assert(prev[k] == n);
                        }
                    }
                    if prev.contains(n) {
                        let k = choose|k: int| 0 <= k < prev.len() && prev[k] == n;
                        assert(next[k] == n);
                    }
                    if n == features@[m as int]@ {
                        assert(next[m as int] == n);
                    }
                }
            }
            m = m + 1;
        }
        proof {
            assert(features@.take(features@.len() as int) =~= features@);
        }
        let mut states: Vec<FeatureState> = Vec::new();
        let mut q: usize = 0;
        while q < names.len()
            invariant
                q <= names.len(),
                states@.len() == q,
                forall|x: int| 0 <= x < q ==> (#[trigger] states@[x]).name@ == names@[x]@,
                forall|x: int| 0 <= x < q ==> (#[trigger] states@[x]).optionality@
                    == (OptionalityModel::Optional { required: Seq::empty(), activated: Seq::empty() }),
            decreases names.len() - q,
        {
            states.push(FeatureState { name: names[q].clone(), optionality: Optionality::default() });
            q = q + 1;
        }
        proof {
            assert(feature_names(states@) =~= names_view(names@));
            assert(names_sorted(Seq::<Seq<char>>::empty()));
        }
        ResolvedPackage { deps, features: states, checksum }
    }
}

proof fn lemma_merged_edge_fresh(ds: Seq<DeclModel>, t: usize, k: DependencyKind)
    ensures
        merged_edge(ds, t, k) matches Some(e) ==> e.optionality
            == (OptionalityModel::Optional { required: Seq::empty(), activated: Seq::empty() }),
    decreases ds.len(),
{
    if ds.len() > 0 {
        lemma_merged_edge_fresh(ds.drop_last(), t, k);
    }
}

/// Whether `d` is a declaration of key (`t`, `k`).
pub open spec fn declares(d: DeclModel, t: usize, k: DependencyKind) -> bool {
    d.target == t && d.kind == k
}

/// A merged edge exists exactly for the keys that some declaration has. It
/// is unrestricted exactly when some declaration of its key has no
/// platform; otherwise its platforms are those of the declarations of its
/// key.
pub proof fn lemma_merged_edge_union(ds: Seq<DeclModel>, t: usize, k: DependencyKind)
    ensures
        merged_edge(ds, t, k) is Some <==> exists|i: int| 0 <= i < ds.len() && declares(#[trigger] ds[i], t, k),
        merged_edge(ds, t, k) matches Some(e) ==> {
            &&& (e.platforms is None <==> exists|i: int|
                0 <= i < ds.len() && declares(#[trigger] ds[i], t, k) && ds[i].platform is None)
            &&& (e.platforms matches Some(ps) ==> forall|p: Seq<char>| #[trigger] ps.contains(p) <==> exists|i: int|
                0 <= i < ds.len() && declares(#[trigger] ds[i], t, k) && ds[i].platform == Some(p))
        },
    decreases ds.len(),
{
    if ds.len() > 0 {
        let pre = ds.drop_last();
        let d = ds.last();
        lemma_merged_edge_union(pre, t, k);
        assert forall|i: int| 0 <= i < pre.len() implies #[trigger] ds[i] == pre[i] by {}
        if exists|i: int| 0 <= i < pre.len() && declares(#[trigger] pre[i], t, k) {
            let i = choose|i: int| 0 <= i < pre.len() && declares(#[trigger] pre[i], t, k);
            assert(declares(ds[i], t, k));
        }
        if declares(d, t, k) {
            assert(declares(ds[ds.len() - 1], t, k));
        }
        if exists|i: int| 0 <= i < ds.len() && declares(#[trigger] ds[i], t, k) {
            let i = choose|i: int| 0 <= i < ds.len() && declares(#[trigger] ds[i], t, k);
            if i < pre.len() {
                assert(declares(pre[i], t, k));
            }
        }
        if let Some(e) = merged_edge(ds, t, k) {
            if exists|i: int| 0 <= i < ds.len() && declares(#[trigger] ds[i], t, k) && ds[i].platform is None {
                let i = choose|i: int| 0 <= i < ds.len() && declares(#[trigger] ds[i], t, k) && ds[i].platform is None;
                if i < pre.len() {
                    assert(declares(pre[i], t, k) && pre[i].platform is None);
                }
            }
            if exists|i: int| 0 <= i < pre.len() && declares(#[trigger] pre[i], t, k) && pre[i].platform is None {
                let i = choose|i: int| 0 <= i < pre.len() && declares(#[trigger] pre[i], t, k) && pre[i].platform is None;
                assert(declares(ds[i], t, k) && ds[i].platform is None);
            }
            if declares(d, t, k) && d.platform is None {
                assert(declares(ds[ds.len() - 1], t, k) && ds[ds.len() - 1].platform is None);
            }
            if let Some(ps) = e.platforms {
                assert forall|p: Seq<char>| #[trigger] ps.contains(p) <==> exists|i: int|
                    0 <= i < ds.len() && declares(#[trigger] ds[i], t, k) && ds[i].platform == Some(p) by {
                    let before = merged_edge(pre, t, k);
                    let old_ps: Seq<Seq<char>> = if declares(d, t, k) {
                        match before {
                            Some(b) => b.platforms.unwrap(),
                            None => Seq::empty(),
                        }
                    } else {
                        ps
                    };
                    if declares(d, t, k) {
                        assert(ps == old_ps.push(d.platform.unwrap()));
                        if ps.contains(p) {
                            let x = choose|x: int| 0 <= x < ps.len() && ps[x] == p;
                            if x == old_ps.len() {
                                assert(declares(ds[ds.len() - 1], t, k) && ds[ds.len() - 1].platform == Some(p));
                            } else {
                                assert(old_ps.contains(p));
                                let i = choose|i: int| 0 <= i < pre.len() && declares(#[trigger] pre[i], t, k) && pre[i].platform == Some(p);
                                assert(declares(ds[i], t, k) && ds[i].platform == Some(p));
                            }
                        }
                        if exists|i: int| 0 <= i < ds.len() && declares(#[trigger] ds[i], t, k) && ds[i].platform == Some(p) {
                            let i = choose|i: int| 0 <= i < ds.len() && declares(#[trigger] ds[i], t, k) && ds[i].platform == Some(p);
                            if i < pre.len() {
                                assert(declares(pre[i], t, k) && pre[i].platform == Some(p));
                                assert(old_ps.contains(p));
                                let x = choose|x: int| 0 <= x < old_ps.len() && old_ps[x] == p;
                                assert(ps[x] == p);
                            } else {
                                assert(ps[old_ps.len() as int] == p);
                            }
                        }
                    } else {
                        if ps.contains(p) {
                            let i = choose|i: int| 0 <= i < pre.len() && declares(#[trigger] pre[i], t, k) && pre[i].platform == Some(p);
                            assert(declares(ds[i], t, k) && ds[i].platform == Some(p));
                        }
                        if exists|i: int| 0 <= i < ds.len() && declares(#[trigger] ds[i], t, k) && ds[i].platform == Some(p) {
                            let i = choose|i: int| 0 <= i < ds.len() && declares(#[trigger] ds[i], t, k) && ds[i].platform == Some(p);
                            assert(i < pre.len());
                            assert(declares(pre[i], t, k) && pre[i].platform == Some(p));
                        }
                    }
                }
            }
        }
    }
}

/// Why a package's checksum could not be had.
#[derive(Clone, Copy, PartialEq, Eq, Structural, Debug)]
pub enum ChecksumError {
    /// The package comes from a version-control source, the resolution
    /// supplies no checksum for it, and prefetching gave none.
    Unavailable,
}

/// Whether the checksum must be prefetched: the resolution supplies none and
/// the source is version-control based.
pub fn needs_prefetch(supplied: &Option<String>, from_git: bool) -> (r: bool)
    ensures
        r == (supplied is None && from_git),
{
    supplied.is_none() && from_git
}

/// The checksum of a package: the one the resolution supplies; else, for a
/// version-control source, the prefetched one, which must be there; else
/// none.
pub fn select_checksum(supplied: Option<String>, from_git: bool, prefetched: Option<String>) -> (r: Result<
    Option<String>,
    ChecksumError,
>)
    ensures
        supplied is Some ==> r == Ok::<Option<String>, ChecksumError>(supplied),
        supplied is None && !from_git ==> r == Ok::<Option<String>, ChecksumError>(None),
        supplied is None && from_git ==> match prefetched {
            Some(h) => r == Ok::<Option<String>, ChecksumError>(Some(h)),
            None => r == Err::<Option<String>, ChecksumError>(ChecksumError::Unavailable),
        },
{
    match supplied {
        Some(s) => Ok(Some(s)),
        None => if from_git {
            match prefetched {
                Some(h) => Ok(Some(h)),
                None => Err(ChecksumError::Unavailable),
            }
        } else {
            Ok(None)
        },
    }
}

} // verus!
