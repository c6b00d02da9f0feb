//! Dropping gating conditions that carry no information.
use vstd::prelude::*;
use crate::graph::{edges_wf, feature_names, DependencyKind, ResolvedPackage};
use crate::optionality::{all_eq, Optionality, OptionalityModel};
use crate::tracker::{graph_wf, same_shape};

verus! {

/// The number of items of a package: its edges, then its features.
pub open spec fn item_count(p: ResolvedPackage) -> int {
    (p.deps@.len() + p.features@.len()) as int
}

/// The `Optionality` of item `i`.
pub open spec fn item(p: ResolvedPackage, i: int) -> OptionalityModel {
    if i < p.deps@.len() {
        p.deps@[i].optionality@
    } else {
        p.features@[i - p.deps@.len()].optionality@
    }
}

/// Whether item `i` is subject to gating: every feature, and every edge that
/// is not a development dependency.
pub open spec fn gated(p: ResolvedPackage, i: int) -> bool {
    0 <= i < item_count(p) && (i >= p.deps@.len() || p.deps@[i].kind != DependencyKind::Development)
}

/// An item that every one of the `n` root packages needs unconditionally is
/// required.
pub open spec fn promoted(o: OptionalityModel, n: nat) -> OptionalityModel {
    match o {
        OptionalityModel::Optional { required, .. } => if required.len() == n {
            OptionalityModel::Required
        } else {
            o
        },
        OptionalityModel::Required => o,
    }
}

/// Whether all gated items of `p` are gated identically after promotion.
pub open spec fn homogeneous(p: ResolvedPackage, n: nat) -> bool {
    forall|i: int, j: int| #[trigger] gated(p, i) && #[trigger] gated(p, j) ==> promoted(item(p, i), n) == promoted(item(p, j), n)
}

/// What item `i` becomes: development edges are required; in a homogeneous
/// package every item is required; otherwise the item is promoted.
pub open spec fn simplified_item(p: ResolvedPackage, i: int, n: nat) -> OptionalityModel {
    if !gated(p, i) || homogeneous(p, n) {
        OptionalityModel::Required
    } else {
        promoted(item(p, i), n)
    }
}

pub open spec fn package_simplified(a: ResolvedPackage, b: ResolvedPackage, n: nat) -> bool {
    &&& same_shape(a, b)
    &&& forall|i: int| 0 <= i < item_count(a) ==> #[trigger] item(b, i) == simplified_item(a, i, n)
}

/// Item `i` after the per-item rules: development edges required, the
/// others promoted.
pub open spec fn stage_one(p: ResolvedPackage, i: int, n: nat) -> OptionalityModel {
    if !gated(p, i) {
        OptionalityModel::Required
    } else {
        promoted(item(p, i), n)
    }
}

/// Whether all gated items of `p` are equal as they stand.
pub open spec fn gated_all_equal(p: ResolvedPackage) -> bool {
    forall|i: int, j: int| #[trigger] gated(p, i) && #[trigger] gated(p, j) ==> item(p, i) == item(p, j)
}

fn promote(o: Optionality, n: usize) -> (r: Optionality)
    requires
        o@.wf(),
    ensures
        r@.wf(),
        r@ == promoted(o@, n as nat),
{
    let all = match &o {
        Optionality::Optional { required_by_pkgs, .. } => required_by_pkgs.len() == n,
        Optionality::Required => false,
    };
    if all {
        Optionality::Required
    } else {
        o
    }
}

/// Whether all gated items of `pkg` are equal.
fn gated_items_equal(pkg: &ResolvedPackage) -> (r: bool)
    ensures
        r == gated_all_equal(*pkg),
{
    let mut refs: Vec<&Optionality> = Vec::new();
    // `src[x]` is the item that `refs[x]` refers to; `dst[i]` is where gated
    // item `i` stands in `refs`.
    let ghost mut src: Seq<int> = Seq::empty();
    let ghost mut dst: Seq<int> = Seq::new(item_count(*pkg) as nat, |i: int| 0int);
    let mut e: usize = 0;
    while e < pkg.deps.len()
        invariant
            e <= pkg.deps.len(),
            src.len() == refs@.len(),
            dst.len() == item_count(*pkg),
            forall|x: int| 0 <= x < refs@.len() ==> gated(*pkg, #[trigger] src[x]) && refs@[x]@ == item(*pkg, src[x]),
            forall|i: int| 0 <= i < e && #[trigger] gated(*pkg, i) ==> 0 <= dst[i] < refs@.len() && refs@[dst[i]]@ == item(*pkg, i),
        decreases pkg.deps.len() - e,
    {
        if pkg.deps[e].kind != DependencyKind::Development {
            proof {
                dst = dst.update(e as int, refs@.len() as int);
                src = src.push(e as int);
            }
            refs.push(&pkg.deps[e].optionality);
        }
        e = e + 1;
    }
    let mut f: usize = 0;
    while f < pkg.features.len()
        invariant
            f <= pkg.features.len(),
            src.len() == refs@.len(),
            dst.len() == item_count(*pkg),
            forall|x: int| 0 <= x < refs@.len() ==> gated(*pkg, #[trigger] src[x]) && refs@[x]@ == item(*pkg, src[x]),
            forall|i: int| 0 <= i < pkg.deps@.len() + f && #[trigger] gated(*pkg, i) ==> 0 <= dst[i] < refs@.len() && refs@[dst[i]]@ == item(*pkg, i),
        decreases pkg.features.len() - f,
    {
        proof {
            let i = pkg.deps@.len() + f;
            dst = dst.update(i, refs@.len() as int);
            src = src.push(i);
        }
        refs.push(&pkg.features[f].optionality);
        f = f + 1;
    }
    let r = all_eq(&refs);
    proof {
        if r {
            assert forall|i: int, j: int| #[trigger] gated(*pkg, i) && #[trigger] gated(*pkg, j) implies item(*pkg, i) == item(*pkg, j) by {
                assert(refs@[dst[i]]@ == refs@[dst[j]]@);
            }
        } else {
            let (x, y) = choose|x: int, y: int| 0 <= x < refs@.len() && 0 <= y < refs@.len() && refs@[x]@ != refs@[y]@;
            assert(gated(*pkg, src[x]) && gated(*pkg, src[y]));
        }
    }
    r
}

/// Applies the simplification rules to one package, `n_root_pkgs` being the
/// number of root packages of the workspace.
pub fn simplify_package(pkg: &mut ResolvedPackage, n_root_pkgs: usize)
    requires
        old(pkg).wf(),
    ensures
        final(pkg).wf(),
        package_simplified(*old(pkg), *final(pkg), n_root_pkgs as nat),
{
    let ghost orig = *pkg;
    let ghost n = n_root_pkgs as nat;
    let mut e: usize = 0;
    while e < pkg.deps.len()
        invariant
            e <= pkg.deps.len(),
            pkg.wf(),
            same_shape(orig, *pkg),
            n == n_root_pkgs as nat,
            pkg.features == orig.features,
            forall|i: int| 0 <= i < item_count(orig) ==> #[trigger] item(*pkg, i) == if i < e {
                stage_one(orig, i, n)
            } else {
                item(orig, i)
            },
        decreases pkg.deps.len() - e,
    {
        let ghost before = pkg.deps@;
        let ghost pk = *pkg;
        proof {
            assert(item(pk, e as int) == item(orig, e as int));
        }
        let mut d = pkg.deps.remove(e);
        proof {
            assert(d.optionality@ == item(orig, e as int));
            assert(d.kind == orig.deps@[e as int].kind);
        }
        if d.kind == DependencyKind::Development {
            d.optionality = Optionality::Required;
        } else {
            d.optionality = promote(d.optionality, n_root_pkgs);
        }
        pkg.deps.insert(e, d);
        proof {
            assert(pkg.deps@ =~= before.update(e as int, d));
            assert(edges_wf(pkg.deps@));
            assert(pkg.deps@[e as int] == d);
            assert(item(*pkg, e as int) == d.optionality@);
            if d.kind == DependencyKind::Development {
                assert(!gated(orig, e as int));
            } else {
                assert(gated(orig, e as int));
                assert(d.optionality@ == promoted(item(orig, e as int), n));
            }
            assert(item(*pkg, e as int) == stage_one(orig, e as int, n));
            assert forall|i: int| 0 <= i < item_count(orig) && i != e implies #[trigger] item(*pkg, i) == item(pk, i) by {}
        }
        e = e + 1;
    }
    let mut f: usize = 0;
    while f < pkg.features.len()
        invariant
            f <= pkg.features.len(),
            pkg.wf(),
            same_shape(orig, *pkg),
            n == n_root_pkgs as nat,
            forall|i: int| 0 <= i < item_count(orig) ==> #[trigger] item(*pkg, i) == if i < orig.deps@.len() + f {
                stage_one(orig, i, n)
            } else {
                item(orig, i)
            },
        decreases pkg.features.len() - f,
    {
        let ghost before = pkg.features@;
        let ghost pk = *pkg;
        proof {
            assert(item(pk, orig.deps@.len() + f) == item(orig, orig.deps@.len() + f));
        }
        let mut s = pkg.features.remove(f);
        proof {
            assert(s.optionality@ == item(orig, orig.deps@.len() + f));
            assert(gated(orig, orig.deps@.len() + f));
        }
        s.optionality = promote(s.optionality, n_root_pkgs);
        pkg.features.insert(f, s);
        proof {
            assert(pkg.features@ =~= before.update(f as int, s));
            assert(feature_names(pkg.features@) =~= feature_names(before));
            assert(item(*pkg, orig.deps@.len() + f) == stage_one(orig, orig.deps@.len() + f, n));
            assert forall|i: int| 0 <= i < item_count(orig) && i != orig.deps@.len() + f implies #[trigger] item(*pkg, i) == item(pk, i) by {}
        }
        f = f + 1;
    }
    proof {
        assert forall|i: int| #[trigger] gated(*pkg, i) == gated(orig, i) by {
            if 0 <= i < pkg.deps@.len() {
                assert(pkg.deps@[i].kind == orig.deps@[i].kind);
            }
        }
        assert(gated_all_equal(*pkg) == homogeneous(orig, n)) by {
            if gated_all_equal(*pkg) {
                assert forall|i: int, j: int| #[trigger] gated(orig, i) && #[trigger] gated(orig, j) implies
                    promoted(item(orig, i), n) == promoted(item(orig, j), n) by {
                    assert(gated(*pkg, i) && gated(*pkg, j));
                }
            }
            if homogeneous(orig, n) {
                assert forall|i: int, j: int| #[trigger] gated(*pkg, i) && #[trigger] gated(*pkg, j) implies
                    item(*pkg, i) == item(*pkg, j) by {
                    assert(gated(orig, i) && gated(orig, j));
                }
            }
        }
    }
    if gated_items_equal(pkg) {
        let ghost staged = *pkg;
        let mut e: usize = 0;
        while e < pkg.deps.len()
            invariant
                e <= pkg.deps.len(),
                pkg.wf(),
                same_shape(orig, *pkg),
                n == n_root_pkgs as nat,
            n == n_root_pkgs as nat,
                pkg.features == staged.features,
                forall|i: int| 0 <= i < item_count(orig) ==> #[trigger] item(*pkg, i) == if i < e {
                    OptionalityModel::Required
                } else {
                    item(staged, i)
                },
            decreases pkg.deps.len() - e,
        {
            let ghost before = pkg.deps@;
            let ghost pk = *pkg;
            let mut d = pkg.deps.remove(e);
            d.optionality = Optionality::Required;
            pkg.deps.insert(e, d);
            proof {
                assert(pkg.deps@ =~= before.update(e as int, d));
                assert(edges_wf(pkg.deps@));
                assert forall|i: int| 0 <= i < item_count(orig) && i != e implies #[trigger] item(*pkg, i) == item(pk, i) by {}
            }
            e = e + 1;
        }
        let mut f: usize = 0;
        while f < pkg.features.len()
            invariant
                f <= pkg.features.len(),
                pkg.wf(),
                same_shape(orig, *pkg),
                n == n_root_pkgs as nat,
            n == n_root_pkgs as nat,
                forall|i: int| 0 <= i < item_count(orig) ==> #[trigger] item(*pkg, i) == if i < orig.deps@.len() + f {
                    OptionalityModel::Required
                } else {
                    item(staged, i)
                },
            decreases pkg.features.len() - f,
        {
            let ghost before = pkg.features@;
            let ghost pk = *pkg;
            let mut s = pkg.features.remove(f);
            s.optionality = Optionality::Required;
            pkg.features.insert(f, s);
            proof {
                assert(pkg.features@ =~= before.update(f as int, s));
                assert(feature_names(pkg.features@) =~= feature_names(before));
                assert forall|i: int| 0 <= i < item_count(orig) && i != orig.deps@.len() + f implies #[trigger] item(*pkg, i) == item(pk, i) by {}
            }
            f = f + 1;
        }
    }
}

/// Applies the simplification rules to every package of the graph.
pub fn simplify_optionality(graph: &mut Vec<ResolvedPackage>, n_root_pkgs: usize)
    requires
        graph_wf(old(graph)@),
    ensures
        graph_wf(final(graph)@),
        final(graph)@.len() == old(graph)@.len(),
        forall|p: int| 0 <= p < old(graph)@.len() ==> package_simplified(#[trigger] old(graph)@[p], final(graph)@[p], n_root_pkgs as nat),
{
    let ghost orig = graph@;
    let mut p: usize = 0;
    while p < graph.len()
        invariant
            p <= graph.len(),
            graph@.len() == orig.len(),
            graph_wf(graph@),
            forall|q: int| 0 <= q < orig.len() ==> if q < p {
                package_simplified(#[trigger] orig[q], graph@[q], n_root_pkgs as nat)
            } else {
                graph@[q] == orig[q]
            },
        decreases graph.len() - p,
    {
        let ghost before = graph@;
        let mut pkg = graph.remove(p);
        simplify_package(&mut pkg, n_root_pkgs);
        graph.insert(p, pkg);
        proof {
            assert(graph@ =~= before.update(p as int, pkg));
        }
        p = p + 1;
    }
}

} // verus!
