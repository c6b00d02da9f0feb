//! Folding scoped resolutions into the `Optionality` of every feature and
//! dependency edge they reach.
use vstd::prelude::*;
use crate::graph::{edges_wf, feature_names, ResolvedPackage};
use vstd::string::StringExecFns;
use crate::names::{names_view, RootFeature};
use crate::order::compare_names;
use crate::optionality::{names_grown, pairs_grown, Optionality, OptionalityModel};

verus! {

/// What one pass records on each item it reaches.
pub enum Mark {
    /// The root package of this name needs the item unconditionally.
    Required(String),
    /// This root feature activates the item.
    Activated(RootFeature),
}

/// `new` is `old` with `m` recorded.
pub open spec fn marked(old: OptionalityModel, new: OptionalityModel, m: Mark) -> bool {
    match old {
        OptionalityModel::Required => new == old,
        OptionalityModel::Optional { required, activated } => match new {
            OptionalityModel::Required => false,
            OptionalityModel::Optional { required: r2, activated: a2 } => match m {
                Mark::Required(name) => names_grown(required, r2, name@) && a2 == activated,
                Mark::Activated(rf) => r2 == required && if required.contains(rf.package@) {
                    a2 == activated
                } else {
                    pairs_grown(activated, a2, rf.key())
                },
            },
        },
    }
}

/// Recording the same mark twice is recording it once.
pub proof fn lemma_marked_twice(a: OptionalityModel, b: OptionalityModel, c: OptionalityModel, m: Mark)
    requires
        marked(a, b, m),
        marked(b, c, m),
    ensures
        marked(a, c, m),
{
}

/// The packages reached by one scoped resolution, with the features
/// activated on each and the targets of the dependency edges present.
pub struct ReachedPackage {
    pub package: usize,
    pub features: Vec<String>,
    pub dependencies: Vec<usize>,
}

pub struct Resolution {
    pub reached: Vec<ReachedPackage>,
}

/// Two packages that differ at most in the `Optionality` of their items.
pub open spec fn same_shape(a: ResolvedPackage, b: ResolvedPackage) -> bool {
    &&& a.deps@.len() == b.deps@.len()
    &&& a.features@.len() == b.features@.len()
    &&& a.checksum == b.checksum
    &&& forall|e: int| 0 <= e < a.deps@.len() ==> {
        &&& (#[trigger] a.deps@[e]).target == b.deps@[e].target
        &&& a.deps@[e].kind == b.deps@[e].kind
        &&& a.deps@[e]@.extern_name == b.deps@[e]@.extern_name
        &&& a.deps@[e]@.platforms == b.deps@[e]@.platforms
    }
    &&& feature_names(a.features@) == feature_names(b.features@)
}

/// `b` is `a` with `m` recorded on the features named by `fs` and on the
/// edges whose target `ts` holds, and nothing else changed.
pub open spec fn package_marked(
    a: ResolvedPackage,
    b: ResolvedPackage,
    fs: spec_fn(Seq<char>) -> bool,
    ts: spec_fn(usize) -> bool,
    m: Mark,
) -> bool {
    &&& same_shape(a, b)
    &&& forall|j: int| 0 <= j < a.features@.len() ==> if fs(#[trigger] a.features@[j].name@) {
        marked(a.features@[j].optionality@, b.features@[j].optionality@, m)
    } else {
        b.features@[j].optionality@ == a.features@[j].optionality@
    }
    &&& forall|e: int| 0 <= e < a.deps@.len() ==> if ts(#[trigger] a.deps@[e].target) {
        marked(a.deps@[e].optionality@, b.deps@[e].optionality@, m)
    } else {
        b.deps@[e].optionality@ == a.deps@[e].optionality@
    }
}

/// Recording the marks of two passes, one after the other.
pub proof fn lemma_package_marked_compose(
    a: ResolvedPackage,
    b: ResolvedPackage,
    c: ResolvedPackage,
    f1: spec_fn(Seq<char>) -> bool,
    t1: spec_fn(usize) -> bool,
    f2: spec_fn(Seq<char>) -> bool,
    t2: spec_fn(usize) -> bool,
    m: Mark,
)
    requires
        package_marked(a, b, f1, t1, m),
        package_marked(b, c, f2, t2, m),
    ensures
        package_marked(a, c, |n: Seq<char>| f1(n) || f2(n), |t: usize| t1(t) || t2(t), m),
{
    let f = |n: Seq<char>| f1(n) || f2(n);
    let t = |t: usize| t1(t) || t2(t);
    assert forall|j: int| 0 <= j < a.features@.len() implies if f(#[trigger] a.features@[j].name@) {
        marked(a.features@[j].optionality@, c.features@[j].optionality@, m)
    } else {
        c.features@[j].optionality@ == a.features@[j].optionality@
    } by {
        assert(feature_names(a.features@)[j] == feature_names(b.features@)[j]);
        if f1(a.features@[j].name@) && f2(a.features@[j].name@) {
            lemma_marked_twice(a.features@[j].optionality@, b.features@[j].optionality@, c.features@[j].optionality@, m);
        }
    }
    assert forall|e: int| 0 <= e < a.deps@.len() implies if t(#[trigger] a.deps@[e].target) {
        marked(a.deps@[e].optionality@, c.deps@[e].optionality@, m)
    } else {
        c.deps@[e].optionality@ == a.deps@[e].optionality@
    } by {
        assert(b.deps@[e].target == a.deps@[e].target);
        if t1(a.deps@[e].target) && t2(a.deps@[e].target) {
            lemma_marked_twice(a.deps@[e].optionality@, b.deps@[e].optionality@, c.deps@[e].optionality@, m);
        }
    }
}

fn apply_mark(o: &mut Optionality, m: &Mark)
    requires
        old(o)@.wf(),
    ensures
        final(o)@.wf(),
        marked(old(o)@, final(o)@, *m),
{
    match m {
        Mark::Required(name) => o.required_by(name),
        Mark::Activated(rf) => o.activated_by(rf),
    }
}

/// Records `m` on the features named `name`.
fn mark_feature(pkg: &mut ResolvedPackage, name: &String, m: &Mark)
    requires
        old(pkg).wf(),
    ensures
        final(pkg).wf(),
        package_marked(*old(pkg), *final(pkg), |n: Seq<char>| n == name@, |t: usize| false, *m),
{
    let ghost orig = *pkg;
    let mut j: usize = 0;
    while j < pkg.features.len()
        invariant
            j <= pkg.features.len(),
            pkg.wf(),
            same_shape(orig, *pkg),
            pkg.deps == orig.deps,
            forall|x: int| 0 <= x < pkg.features@.len() ==> if x < j && (#[trigger] orig.features@[x]).name@ == name@ {
                marked(orig.features@[x].optionality@, pkg.features@[x].optionality@, *m)
            } else {
                pkg.features@[x].optionality@ == orig.features@[x].optionality@
            },
        decreases pkg.features.len() - j,
    {
        if pkg.features[j].name == *name {
            let ghost before = pkg.features@;
            let mut f = pkg.features.remove(j);
            let ghost prior = f.optionality@;
            apply_mark(&mut f.optionality, m);
            pkg.features.insert(j, f);
            proof {
                assert(pkg.features@ =~= before.update(j as int, f));
                assert(prior == orig.features@[j as int].optionality@);
                assert(marked(orig.features@[j as int].optionality@, pkg.features@[j as int].optionality@, *m));
                assert(feature_names(pkg.features@) =~= feature_names(before));
                assert(feature_names(before)[j as int] == orig.features@[j as int].name@);
            }
        }
        proof {
            assert(feature_names(pkg.features@)[j as int] == feature_names(orig.features@)[j as int]);
        }
        j = j + 1;
    }
    proof {
        assert forall|x: int| 0 <= x < orig.features@.len() implies if (|n: Seq<char>| n == name@)(#[trigger] orig.features@[x].name@) {
            marked(orig.features@[x].optionality@, pkg.features@[x].optionality@, *m)
        } else {
            pkg.features@[x].optionality@ == orig.features@[x].optionality@
        } by {}
    }
}

/// Records `m` on the edges whose target is `target`.
fn mark_edges_to(pkg: &mut ResolvedPackage, target: usize, m: &Mark)
    requires
        old(pkg).wf(),
    ensures
        final(pkg).wf(),
        package_marked(*old(pkg), *final(pkg), |n: Seq<char>| false, |t: usize| t == target, *m),
{
    let ghost orig = *pkg;
    let mut e: usize = 0;
    while e < pkg.deps.len()
        invariant
            e <= pkg.deps.len(),
            pkg.wf(),
            same_shape(orig, *pkg),
            pkg.features == orig.features,
            forall|x: int| 0 <= x < pkg.deps@.len() ==> if x < e && (#[trigger] orig.deps@[x]).target == target {
                marked(orig.deps@[x].optionality@, pkg.deps@[x].optionality@, *m)
            } else {
                pkg.deps@[x].optionality@ == orig.deps@[x].optionality@
            },
        decreases pkg.deps.len() - e,
    {
        if pkg.deps[e].target == target {
            let ghost before = pkg.deps@;
            let mut d = pkg.deps.remove(e);
            let ghost prior = d.optionality@;
            apply_mark(&mut d.optionality, m);
            pkg.deps.insert(e, d);
            proof {
                assert(prior == orig.deps@[e as int].optionality@);
                assert(pkg.deps@ =~= before.update(e as int, d));
                assert(edges_wf(pkg.deps@));
            }
        }
        e = e + 1;
    }
}

/// `package_marked` depends on its selections pointwise only.
pub proof fn lemma_package_marked_same_selection(
    a: ResolvedPackage,
    b: ResolvedPackage,
    f: spec_fn(Seq<char>) -> bool,
    t: spec_fn(usize) -> bool,
    g: spec_fn(Seq<char>) -> bool,
    u: spec_fn(usize) -> bool,
    m: Mark,
)
    requires
        package_marked(a, b, f, t, m),
        forall|n: Seq<char>| #[trigger] f(n) == g(n),
        forall|x: usize| #[trigger] t(x) == u(x),
    ensures
        package_marked(a, b, g, u, m),
{
}

/// Records `m` on what one reached package reports.
fn mark_package(pkg: &mut ResolvedPackage, r: &ReachedPackage, m: &Mark)
    requires
        old(pkg).wf(),
    ensures
        final(pkg).wf(),
        package_marked(
            *old(pkg),
            *final(pkg),
            |n: Seq<char>| names_view(r.features@).contains(n),
            |t: usize| r.dependencies@.contains(t),
            *m,
        ),
{
    let ghost orig = *pkg;
    let mut k: usize = 0;
    proof {
        lemma_package_marked_refl(orig, *m);
        lemma_package_marked_same_selection(
            orig, orig, |n: Seq<char>| false, |t: usize| false,
            |n: Seq<char>| names_view(r.features@.take(0)).contains(n), |t: usize| false, *m);
    }
    while k < r.features.len()
        invariant
            k <= r.features.len(),
            pkg.wf(),
            package_marked(orig, *pkg, |n: Seq<char>| names_view(r.features@.take(k as int)).contains(n), |t: usize| false, *m),
        decreases r.features.len() - k,
    {
        let ghost before = *pkg;
        mark_feature(pkg, &r.features[k], m);
        proof {
            let f1 = |n: Seq<char>| names_view(r.features@.take(k as int)).contains(n);
            let f2 = |n: Seq<char>| n == r.features@[k as int]@;
            let t0 = |t: usize| false;
            lemma_package_marked_compose(orig, before, *pkg, f1, t0, f2, t0, *m);
            let prev = names_view(r.features@.take(k as int));
            let next = names_view(r.features@.take(k + 1));
            assert(next =~= prev.push(r.features@[k as int]@));
            assert forall|n: Seq<char>| (f1(n) || f2(n)) == next.contains(n) by {
                if next.contains(n) {
                    let x = choose|x: int| 0 <= x < next.len() && next[x] == n;
                    if x < k {
                        assert(prev[x] == n);
                    }
                }
                if prev.contains(n) {
                    let x = choose|x: int| 0 <= x < prev.len() && prev[x] == n;
                    assert(next[x] == n);
                }
                if f2(n) {
                    assert(next[k as int] == n);
                }
            }
            lemma_package_marked_same_selection(
                orig, *pkg, |n: Seq<char>| f1(n) || f2(n), |t: usize| t0(t) || t0(t),
                |n: Seq<char>| names_view(r.features@.take(k + 1)).contains(n), t0, *m);
        }
        k = k + 1;
    }
    proof {
        assert(r.features@.take(r.features@.len() as int) =~= r.features@);
    }
    let ghost fsel = |n: Seq<char>| names_view(r.features@).contains(n);
    let mut q: usize = 0;
    while q < r.dependencies.len()
        invariant
            q <= r.dependencies.len(),
            pkg.wf(),
            package_marked(orig, *pkg, fsel, |t: usize| r.dependencies@.take(q as int).contains(t), *m),
        decreases r.dependencies.len() - q,
    {
        let ghost before = *pkg;
        mark_edges_to(pkg, r.dependencies[q], m);
        proof {
            let t1 = |t: usize| r.dependencies@.take(q as int).contains(t);
            let t2 = |t: usize| t == r.dependencies@[q as int];
            let f0 = |n: Seq<char>| false;
            lemma_package_marked_compose(orig, before, *pkg, fsel, t1, f0, t2, *m);
            let prev = r.dependencies@.take(q as int);
            let next = r.dependencies@.take(q + 1);
            assert(next =~= prev.push(r.dependencies@[q as int]));
            assert forall|t: usize| (t1(t) || t2(t)) == next.contains(t) by {
                if next.contains(t) {
                    let x = choose|x: int| 0 <= x < next.len() && next[x] == t;
                    if x < q {
                        assert(prev[x] == t);
                    }
                }
                if prev.contains(t) {
                    let x = choose|x: int| 0 <= x < prev.len() && prev[x] == t;
                    assert(next[x] == t);
                }
                if t2(t) {
                    assert(next[q as int] == t);
                }
            }
            lemma_package_marked_same_selection(
                orig, *pkg, |n: Seq<char>| fsel(n) || f0(n), |t: usize| t1(t) || t2(t),
                fsel, |t: usize| r.dependencies@.take(q + 1).contains(t), *m);
        }
        q = q + 1;
    }
    proof {
        assert(r.dependencies@.take(r.dependencies@.len() as int) =~= r.dependencies@);
    }
}

/// A package is unchanged when nothing is selected.
pub proof fn lemma_package_marked_refl(a: ResolvedPackage, m: Mark)
    ensures
        package_marked(a, a, |n: Seq<char>| false, |t: usize| false, m),
{
}

/// Whether some entry of `res` for package `p` reports feature `n`.
pub open spec fn feature_reached(res: Seq<ReachedPackage>, p: int, n: Seq<char>) -> bool {
    exists|k: int| 0 <= k < res.len() && res[k].package == p && #[trigger] names_view(res[k].features@).contains(n)
}

/// Whether some entry of `res` for package `p` reports an edge to `t`.
pub open spec fn edge_reached(res: Seq<ReachedPackage>, p: int, t: usize) -> bool {
    exists|k: int| 0 <= k < res.len() && res[k].package == p && #[trigger] res[k].dependencies@.contains(t)
}

pub open spec fn graph_wf(g: Seq<ResolvedPackage>) -> bool {
    forall|p: int| 0 <= p < g.len() ==> (#[trigger] g[p]).wf()
}

/// `new` is `old` with `m` recorded on every feature and edge that `res`
/// reaches, and nothing else changed.
pub open spec fn graph_marked(old: Seq<ResolvedPackage>, new: Seq<ResolvedPackage>, res: Seq<ReachedPackage>, m: Mark) -> bool {
    &&& new.len() == old.len()
    &&& forall|p: int| 0 <= p < old.len() ==> package_marked(
        #[trigger] old[p],
        new[p],
        |n: Seq<char>| feature_reached(res, p, n),
        |t: usize| edge_reached(res, p, t),
        m,
    )
}

/// Records `m` on every feature and edge that the resolution reaches.
/// Entries for packages outside the graph, and features a package does
/// not declare, are ignored.
pub fn apply_resolution(graph: &mut Vec<ResolvedPackage>, res: &Resolution, m: &Mark)
    requires
        graph_wf(old(graph)@),
    ensures
        graph_wf(final(graph)@),
        graph_marked(old(graph)@, final(graph)@, res.reached@, *m),
{
    let ghost orig = graph@;
    let mut k: usize = 0;
    proof {
        assert forall|p: int| 0 <= p < orig.len() implies package_marked(
            #[trigger] orig[p], graph@[p],
            |n: Seq<char>| feature_reached(res.reached@.take(0), p, n),
            |t: usize| edge_reached(res.reached@.take(0), p, t), *m) by {
            lemma_package_marked_refl(orig[p], *m);
            lemma_package_marked_same_selection(orig[p], orig[p], |n: Seq<char>| false, |t: usize| false,
                |n: Seq<char>| feature_reached(res.reached@.take(0), p, n),
                |t: usize| edge_reached(res.reached@.take(0), p, t), *m);
        }
    }
    while k < res.reached.len()
        invariant
            k <= res.reached.len(),
            graph_wf(graph@),
            graph_marked(orig, graph@, res.reached@.take(k as int), *m),
        decreases res.reached.len() - k,
    {
        let r = &res.reached[k];
        let ghost before = graph@;
        let ghost prev = res.reached@.take(k as int);
        let ghost next = res.reached@.take(k + 1);
        proof {
            assert(next =~= prev.push(*r));
        }
        if r.package < graph.len() {
            let p0 = r.package;
            let mut pkg = graph.remove(p0);
            mark_package(&mut pkg, r, m);
            graph.insert(p0, pkg);
            proof {
                assert(graph@ =~= before.update(p0 as int, pkg));
                assert forall|p: int| 0 <= p < orig.len() implies package_marked(
                    #[trigger] orig[p], graph@[p],
                    |n: Seq<char>| feature_reached(next, p, n),
                    |t: usize| edge_reached(next, p, t), *m) by {
                    let f1 = |n: Seq<char>| feature_reached(prev, p, n);
                    let t1 = |t: usize| edge_reached(prev, p, t);
                    assert(package_marked(orig[p], before[p], f1, t1, *m));
                    if p == p0 {
                        let f2 = |n: Seq<char>| names_view(r.features@).contains(n);
                        let t2 = |t: usize| r.dependencies@.contains(t);
                        lemma_package_marked_compose(orig[p], before[p], graph@[p], f1, t1, f2, t2, *m);
                        assert forall|n: Seq<char>| #[trigger] feature_reached(next, p, n) == (f1(n) || f2(n)) by {
                            if feature_reached(next, p, n) {
                                let x = choose|x: int| 0 <= x < next.len() && next[x].package == p && #[trigger] names_view(next[x].features@).contains(n);
                                if x < k {
                                    assert(prev[x] == next[x]);
                                }
                            }
                            if f1(n) {
                                let x = choose|x: int| 0 <= x < prev.len() && prev[x].package == p && #[trigger] names_view(prev[x].features@).contains(n);
                                assert(next[x] == prev[x]);
                            }
                            if f2(n) {
                                assert(next[k as int] == *r);
                            }
                        }
                        assert forall|t: usize| #[trigger] edge_reached(next, p, t) == (t1(t) || t2(t)) by {
                            if edge_reached(next, p, t) {
                                let x = choose|x: int| 0 <= x < next.len() && next[x].package == p && #[trigger] next[x].dependencies@.contains(t);
                                if x < k {
                                    assert(prev[x] == next[x]);
                                }
                            }
                            if t1(t) {
                                let x = choose|x: int| 0 <= x < prev.len() && prev[x].package == p && #[trigger] prev[x].dependencies@.contains(t);
                                assert(next[x] == prev[x]);
                            }
                            if t2(t) {
                                assert(next[k as int] == *r);
                            }
                        }
                        lemma_package_marked_same_selection(orig[p], graph@[p],
                            |n: Seq<char>| f1(n) || f2(n), |t: usize| t1(t) || t2(t),
                            |n: Seq<char>| feature_reached(next, p, n), |t: usize| edge_reached(next, p, t), *m);
                    } else {
                        lemma_reach_other(prev, next, *r, p);
                        lemma_package_marked_same_selection(orig[p], graph@[p], f1, t1,
                            |n: Seq<char>| feature_reached(next, p, n), |t: usize| edge_reached(next, p, t), *m);
                    }
                }
            }
        } else {
            proof {
                assert forall|p: int| 0 <= p < orig.len() implies package_marked(
                    #[trigger] orig[p], graph@[p],
                    |n: Seq<char>| feature_reached(next, p, n),
                    |t: usize| edge_reached(next, p, t), *m) by {
                    assert(package_marked(orig[p], before[p],
                        |n: Seq<char>| feature_reached(prev, p, n),
                        |t: usize| edge_reached(prev, p, t), *m));
                    lemma_reach_other(prev, next, *r, p);
                    lemma_package_marked_same_selection(orig[p], graph@[p],
                        |n: Seq<char>| feature_reached(prev, p, n),
                        |t: usize| edge_reached(prev, p, t),
                        |n: Seq<char>| feature_reached(next, p, n), |t: usize| edge_reached(next, p, t), *m);
                }
            }
        }
        k = k + 1;
    }
    proof {
        assert(res.reached@.take(res.reached@.len() as int) =~= res.reached@);
    }
}

proof fn lemma_reach_other(prev: Seq<ReachedPackage>, next: Seq<ReachedPackage>, r: ReachedPackage, p: int)
    requires
        next == prev.push(r),
        r.package != p,
    ensures
        forall|n: Seq<char>| #[trigger] feature_reached(prev, p, n) == feature_reached(next, p, n),
        forall|t: usize| #[trigger] edge_reached(prev, p, t) == edge_reached(next, p, t),
{
    assert forall|n: Seq<char>| #[trigger] feature_reached(prev, p, n) == feature_reached(next, p, n) by {
        if feature_reached(next, p, n) {
            let x = choose|x: int| 0 <= x < next.len() && next[x].package == p && #[trigger] names_view(next[x].features@).contains(n);
            assert(prev[x] == next[x]);
        }
        if feature_reached(prev, p, n) {
            let x = choose|x: int| 0 <= x < prev.len() && prev[x].package == p && #[trigger] names_view(prev[x].features@).contains(n);
            assert(next[x] == prev[x]);
        }
    }
    assert forall|t: usize| #[trigger] edge_reached(prev, p, t) == edge_reached(next, p, t) by {
        if edge_reached(next, p, t) {
            let x = choose|x: int| 0 <= x < next.len() && next[x].package == p && #[trigger] next[x].dependencies@.contains(t);
            assert(prev[x] == next[x]);
        }
        if edge_reached(prev, p, t) {
            let x = choose|x: int| 0 <= x < prev.len() && prev[x].package == p && #[trigger] prev[x].dependencies@.contains(t);
            assert(next[x] == prev[x]);
        }
    }
}

/// The baseline pass of root package `root_name`: everything its
/// resolution without extra features reaches is needed by it unconditionally.
pub fn mark_required(root_name: &String, res: &Resolution, graph: &mut Vec<ResolvedPackage>)
    requires
        graph_wf(old(graph)@),
    ensures
        graph_wf(final(graph)@),
        graph_marked(old(graph)@, final(graph)@, res.reached@, Mark::Required(*root_name)),
{
    let m = Mark::Required(root_name.clone());
    apply_resolution(graph, res, &m);
}

/// The pass of one root feature: everything its resolution reaches is
/// activated by it, unless already needed unconditionally by its package.
pub fn activate(root_feature: &RootFeature, res: &Resolution, graph: &mut Vec<ResolvedPackage>)
    requires
        graph_wf(old(graph)@),
    ensures
        graph_wf(final(graph)@),
        graph_marked(old(graph)@, final(graph)@, res.reached@, Mark::Activated(*root_feature)),
{
    let m = Mark::Activated(root_feature.copy_of());
    apply_resolution(graph, res, &m);
}

pub open spec fn default_name() -> Seq<char> {
    seq!['d', 'e', 'f', 'a', 'u', 'l', 't']
}

/// The root features of a root package: its declared features, then the
/// names of its optional dependencies, then `default` unless declared.
pub fn root_features(declared: &Vec<String>, optional_deps: &Vec<String>) -> (r: Vec<String>)
    ensures
        names_view(r@) == names_view(declared@) + names_view(optional_deps@) + if names_view(
            declared@,
        ).contains(default_name()) {
            Seq::empty()
        } else {
            seq![default_name()]
        },
{
    let mut r: Vec<String> = Vec::new();
    let mut has_default = false;
    let mut i: usize = 0;
    proof {
        reveal_strlit("default");
        assert("default"@ =~= default_name());
        assert(names_view(r@) =~= names_view(declared@.take(0)));
    }
    while i < declared.len()
        invariant
            i <= declared.len(),
            names_view(r@) == names_view(declared@.take(i as int)),
            has_default == names_view(declared@.take(i as int)).contains(default_name()),
        decreases declared.len() - i,
    {
        let ghost prev = names_view(declared@.take(i as int));
        proof {
            reveal_strlit("default");
            assert("default"@ =~= default_name());
        }
        let c = compare_names(declared[i].as_str(), "default");
        proof {
            assert((c == 0) == (declared@[i as int]@ == default_name()));
        }
        if c == 0 {
            has_default = true;
        }
        r.push(declared[i].clone());
        proof {
            let next = names_view(declared@.take(i + 1));
            assert(next =~= prev.push(declared@[i as int]@));
            assert(names_view(r@) =~= next);
            if declared@[i as int]@ == default_name() {
                assert(next[i as int] == default_name());
            }
            if prev.contains(default_name()) {
                let x = choose|x: int| 0 <= x < prev.len() && prev[x] == default_name();
                assert(next[x] == default_name());
            }
            if next.contains(default_name()) {
                let x = choose|x: int| 0 <= x < next.len() && next[x] == default_name();
                if x < i {
                    assert(prev[x] == default_name());
                }
            }
        }
        i = i + 1;
    }
    proof {
        assert(declared@.take(declared@.len() as int) =~= declared@);
        assert(names_view(r@) =~= names_view(declared@) + names_view(optional_deps@.take(0)));
    }
    let mut j: usize = 0;
    while j < optional_deps.len()
        invariant
            j <= optional_deps.len(),
            names_view(r@) == names_view(declared@) + names_view(optional_deps@.take(j as int)),
        decreases optional_deps.len() - j,
    {
        let ghost before_r = names_view(r@);
        r.push(optional_deps[j].clone());
        proof {
            assert(names_view(r@) =~= before_r.push(optional_deps@[j as int]@));
            assert(names_view(optional_deps@.take(j + 1)) =~= names_view(optional_deps@.take(j as int)).push(optional_deps@[j as int]@));
            assert(names_view(r@) =~= names_view(declared@) + names_view(optional_deps@.take(j + 1)));
        }
        j = j + 1;
    }
    proof {
        assert(optional_deps@.take(optional_deps@.len() as int) =~= optional_deps@);
    }
    proof {
        assert(optional_deps@.take(optional_deps@.len() as int) =~= optional_deps@);
    }
    let ghost before = names_view(r@);
    proof {
        reveal_strlit("default");
        assert("default"@ =~= default_name());
    }
    if !has_default {
        r.push(String::from_str("default"));
        proof {
            assert(names_view(r@) =~= before.push(default_name()));
        }
    } else {
        proof {
            assert(before + Seq::<Seq<char>>::empty() =~= before);
        }
    }
    r
}

/// What the resolution of one root feature asks for.
pub struct ActivationRequest {
    /// The features activated explicitly.
    pub features: Vec<String>,
    /// Whether default features are resolved.
    pub uses_default_features: bool,
}

/// `default` is activated by resolving default features and nothing else;
/// any other root feature is activated alone, without default features.
pub fn activation_request(feature: &String) -> (r: ActivationRequest)
    ensures
        feature@ == default_name() ==> r.features@.len() == 0 && r.uses_default_features,
        feature@ != default_name() ==> names_view(r.features@) == seq![feature@] && !r.uses_default_features,
{
    proof {
        reveal_strlit("default");
        assert("default"@ =~= default_name());
    }
    if compare_names(feature.as_str(), "default") == 0 {
        ActivationRequest { features: Vec::new(), uses_default_features: true }
    } else {
        let mut v: Vec<String> = Vec::new();
        v.push(feature.clone());
        proof {
            assert(names_view(v@) =~= seq![feature@]);
        }
        ActivationRequest { features: v, uses_default_features: false }
    }
}

} // verus!
