//! Decides which dependencies move into the shared table and which leave it.
use vstd::prelude::*;
use crate::model::{Dependency, MemberDependency, MemberDependencyView, Package, record_views};
use crate::names::{
    insert_name, lemma_sorted_of, lemma_sorted_unique, name_lt, sorted_of, strictly_sorted, views,
};

verus! {

/// `p` declares a dependency named `n` that is not a path into the project.
pub open spec fn declares(p: Package, n: Seq<char>) -> bool {
    exists|j: int|
        0 <= j < p.dependencies@.len() && (#[trigger] p.dependencies@[j]).path.is_none()
            && p.dependencies@[j].name@ == n
}

/// Two packages with different names declare `n`.
pub open spec fn shared_by_several(ps: Seq<Package>, n: Seq<char>) -> bool {
    exists|i: int, k: int|
        0 <= i < ps.len() && 0 <= k < ps.len() && #[trigger] declares(ps[i], n) && #[trigger] declares(
            ps[k],
            n,
        ) && ps[i].name@ != ps[k].name@
}

pub open spec fn member_names(ps: Seq<Package>) -> Set<Seq<char>> {
    Set::new(|u: Seq<char>| exists|i: int| 0 <= i < ps.len() && (#[trigger] ps[i]).name@ == u)
}

/// Names to declare in the shared table: needed, and not there yet.
pub open spec fn addition_names(shared: Seq<Seq<char>>, ps: Seq<Package>) -> Set<Seq<char>> {
    Set::new(|n: Seq<char>| shared_by_several(ps, n) && !shared.contains(n))
}

/// Names to take out of the shared table: there, and no longer needed.
pub open spec fn removal_names(shared: Seq<Seq<char>>, ps: Seq<Package>) -> Set<Seq<char>> {
    Set::new(|n: Seq<char>| shared.contains(n) && !shared_by_several(ps, n))
}

pub open spec fn record_of(p: Package, d: Dependency) -> MemberDependencyView {
    MemberDependencyView { member: p.name@, manifest_path: p.manifest_path@, dependency: d@ }
}

/// The non-local declarations of `n` among `deps` of `p`, in order.
pub open spec fn dep_records(p: Package, deps: Seq<Dependency>, n: Seq<char>) -> Seq<
    MemberDependencyView,
>
    decreases deps.len(),
{
    if deps.len() == 0 {
        Seq::empty()
    } else {
        let d = deps.last();
        let rest = dep_records(p, deps.drop_last(), n);
        if d.path.is_none() && d.name@ == n {
            rest.push(record_of(p, d))
        } else {
            rest
        }
    }
}

/// The declarations of `n` by the packages of `ps` named `u`, in order.
pub open spec fn member_records(ps: Seq<Package>, u: Seq<char>, n: Seq<char>) -> Seq<
    MemberDependencyView,
>
    decreases ps.len(),
{
    if ps.len() == 0 {
        Seq::empty()
    } else {
        let p = ps.last();
        let rest = member_records(ps.drop_last(), u, n);
        if p.name@ == u {
            rest + dep_records(p, p.dependencies@, n)
        } else {
            rest
        }
    }
}

/// The declarations of `n`, member by member in the order of `us`.
pub open spec fn grouped_records(ps: Seq<Package>, us: Seq<Seq<char>>, n: Seq<char>) -> Seq<
    MemberDependencyView,
>
    decreases us.len(),
{
    if us.len() == 0 {
        Seq::empty()
    } else {
        grouped_records(ps, us.drop_last(), n) + member_records(ps, us.last(), n)
    }
}

/// What an addition of `n` lists: every declaration of it, by member name.
pub open spec fn addition_records(ps: Seq<Package>, n: Seq<char>) -> Seq<MemberDependencyView> {
    grouped_records(ps, sorted_of(member_names(ps)), n)
}

pub open spec fn addition_keys(adds: Seq<(String, Vec<MemberDependency>)>) -> Seq<Seq<char>> {
    adds.map_values(|e: (String, Vec<MemberDependency>)| e.0@)
}

/// `adds` and `removes` are what partitioning `ps` against `shared` gives.
pub open spec fn is_partition(
    shared: Seq<Seq<char>>,
    ps: Seq<Package>,
    adds: Seq<(String, Vec<MemberDependency>)>,
    removes: Seq<String>,
) -> bool {
    &&& strictly_sorted(addition_keys(adds))
    &&& addition_keys(adds).to_set() == addition_names(shared, ps)
    &&& forall|t: int|
        0 <= t < adds.len() ==> record_views((#[trigger] adds[t]).1@) == addition_records(
            ps,
            adds[t].0@,
        )
    &&& strictly_sorted(views(removes))
    &&& views(removes).to_set() == removal_names(shared, ps)
}

fn declares_dependency(p: &Package, n: &String) -> (r: bool)
    ensures
        r == declares(*p, n@),
{
    let mut j: usize = 0;
    while j < p.dependencies.len()
        invariant
            j <= p.dependencies.len(),
            forall|k: int|
                0 <= k < j ==> !((#[trigger] p.dependencies@[k]).path.is_none()
                    && p.dependencies@[k].name@ == n@),
        decreases p.dependencies.len() - j,
    {
        let d = &p.dependencies[j];
        if d.path.is_none() && d.name == *n {
            return true;
        }
        j = j + 1;
    }
    false
}

/// Whether two members with different names declare `n`.
pub fn used_by_several(ps: &Vec<Package>, n: &String) -> (r: bool)
    ensures
        r == shared_by_several(ps@, n@),
{
    let mut first: Option<usize> = None;
    let mut i: usize = 0;
    while i < ps.len()
        invariant
            i <= ps.len(),
            first is None ==> forall|k: int| 0 <= k < i ==> !declares(#[trigger] ps@[k], n@),
            first is Some ==> first->0 < i && declares(ps@[first->0 as int], n@),
            first is Some ==> forall|k: int|
                0 <= k < i && declares(#[trigger] ps@[k], n@) ==> ps@[k].name@
                    == ps@[first->0 as int].name@,
        decreases ps.len() - i,
    {
        if declares_dependency(&ps[i], n) {
            match first {
                None => {
                    first = Some(i);
                },
                Some(f) => {
                    if ps[i].name != ps[f].name {
                        assert(declares(ps@[f as int], n@) && declares(ps@[i as int], n@));
                        return true;
                    }
                },
            }
        }
        i = i + 1;
    }
    proof {
        if shared_by_several(ps@, n@) {
            let (a, b) = choose|a: int, b: int|
                0 <= a < ps@.len() && 0 <= b < ps@.len() && #[trigger] declares(ps@[a], n@)
                    && #[trigger] declares(ps@[b], n@) && ps@[a].name@ != ps@[b].name@;
            assert(declares(ps@[a], n@));
        }
    }
    false
}

fn contains_name(v: &Vec<String>, n: &String) -> (r: bool)
    ensures
        r == views(v@).contains(n@),
{
    let mut i: usize = 0;
    while i < v.len()
        invariant
            i <= v.len(),
            forall|k: int| 0 <= k < i ==> (#[trigger] v@[k])@ != n@,
        decreases v.len() - i,
    {
        if v[i] == *n {
            assert(views(v@)[i as int] == n@);
            return true;
        }
        i = i + 1;
    }
    proof {
        if views(v@).contains(n@) {
            let k = choose|k: int| 0 <= k < views(v@).len() && views(v@)[k] == n@;
            assert(v@[k]@ == n@);
        }
    }
    false
}

/// The names of the members, sorted, each once.
fn sorted_member_names(ps: &Vec<Package>) -> (r: Vec<String>)
    ensures
        strictly_sorted(views(r@)),
        views(r@).to_set() == member_names(ps@),
{
    let mut r: Vec<String> = Vec::new();
    let mut i: usize = 0;
    assert(views(r@).to_set() =~= Set::empty());
    while i < ps.len()
        invariant
            i <= ps.len(),
            strictly_sorted(views(r@)),
            views(r@).to_set() == Set::new(
                |u: Seq<char>| exists|k: int| 0 <= k < i && (#[trigger] ps@[k]).name@ == u,
            ),
        decreases ps.len() - i,
    {
        insert_name(&mut r, ps[i].name.as_str());
        i = i + 1;
        assert(views(r@).to_set() =~= Set::new(
            |u: Seq<char>| exists|k: int| 0 <= k < i && (#[trigger] ps@[k]).name@ == u,
        )) by {
            assert(ps@[i - 1].name@ == ps@[i - 1].name@);
        };
    }
    assert(views(r@).to_set() =~= member_names(ps@));
    r
}

pub open spec fn declared_names(ps: Seq<Package>) -> Set<Seq<char>> {
    Set::new(|n: Seq<char>| exists|i: int| 0 <= i < ps.len() && #[trigger] declares(ps[i], n))
}

/// The names of all non-local dependencies, sorted, each once.
fn dependency_names(ps: &Vec<Package>) -> (r: Vec<String>)
    ensures
        strictly_sorted(views(r@)),
        views(r@).to_set() == declared_names(ps@),
{
    let mut r: Vec<String> = Vec::new();
    let mut i: usize = 0;
    assert(views(r@).to_set() =~= Set::empty());
    while i < ps.len()
        invariant
            i <= ps.len(),
            strictly_sorted(views(r@)),
            views(r@).to_set() == Set::new(
                |n: Seq<char>| exists|k: int| 0 <= k < i && #[trigger] declares(ps@[k], n),
            ),
        decreases ps.len() - i,
    {
        let p = &ps[i];
        let ghost outer = Set::new(
            |n: Seq<char>| exists|k: int| 0 <= k < i && #[trigger] declares(ps@[k], n),
        );
        let mut j: usize = 0;
        assert(views(r@).to_set() =~= outer.union(Set::new(
            |n: Seq<char>|
                exists|m: int|
                    0 <= m < j && (#[trigger] p.dependencies@[m]).path.is_none()
                        && p.dependencies@[m].name@ == n,
        )));
        while j < p.dependencies.len()
            invariant
                j <= p.dependencies.len(),
                *p == ps@[i as int],
                strictly_sorted(views(r@)),
                views(r@).to_set() == outer.union(
                    Set::new(
                        |n: Seq<char>|
                            exists|m: int|
                                0 <= m < j && (#[trigger] p.dependencies@[m]).path.is_none()
                                    && p.dependencies@[m].name@ == n,
                    ),
                ),
            decreases p.dependencies.len() - j,
        {
            let d = &p.dependencies[j];
            if d.path.is_none() {
                insert_name(&mut r, d.name.as_str());
            }
            j = j + 1;
            assert(views(r@).to_set() =~= outer.union(
                Set::new(
                    |n: Seq<char>|
                        exists|m: int|
                            0 <= m < j && (#[trigger] p.dependencies@[m]).path.is_none()
                                && p.dependencies@[m].name@ == n,
                ),
            )) by {
                assert(p.dependencies@[j - 1] == *d);
            };
        }
        i = i + 1;
        assert(views(r@).to_set() =~= Set::new(
            |n: Seq<char>| exists|k: int| 0 <= k < i && #[trigger] declares(ps@[k], n),
        )) by {
            assert forall|n: Seq<char>|
                (exists|k: int| 0 <= k < i && #[trigger] declares(ps@[k], n)) implies views(
                r@,
            ).to_set().contains(n) by {
                let k = choose|k: int| 0 <= k < i && #[trigger] declares(ps@[k], n);
                if k < i - 1 {
                    assert(outer.contains(n));
                } else {
                    let m = choose|m: int|
                        0 <= m < p.dependencies@.len() && (#[trigger] p.dependencies@[m]).path.is_none()
                            && p.dependencies@[m].name@ == n;
                }
            };
            assert forall|n: Seq<char>| views(r@).to_set().contains(n) implies (exists|k: int|
                0 <= k < i && #[trigger] declares(ps@[k], n)) by {
                if !outer.contains(n) {
                    let m = choose|m: int|
                        0 <= m < j && (#[trigger] p.dependencies@[m]).path.is_none()
                            && p.dependencies@[m].name@ == n;
                    assert(declares(ps@[i - 1], n));
                } else {
                    let k = choose|k: int| 0 <= k < i - 1 && #[trigger] declares(ps@[k], n);
                    assert(declares(ps@[k], n));
                }
            };
        };
    }
    assert(views(r@).to_set() =~= declared_names(ps@));
    r
}

fn record(p: &Package, d: &Dependency) -> (r: MemberDependency)
    ensures
        r@ == record_of(*p, *d),
{
    MemberDependency {
        name: p.name.clone(),
        manifest_path: p.manifest_path.clone(),
        dependency: d.duplicate(),
    }
}

/// The declarations of `n` by the members named `u`.
fn records_for(ps: &Vec<Package>, u: &String, n: &String) -> (r: Vec<MemberDependency>)
    ensures
        record_views(r@) == member_records(ps@, u@, n@),
{
    let mut r: Vec<MemberDependency> = Vec::new();
    let mut i: usize = 0;
    assert(record_views(r@) =~= member_records(ps@.subrange(0, 0), u@, n@));
    while i < ps.len()
        invariant
            i <= ps.len(),
            record_views(r@) == member_records(ps@.subrange(0, i as int), u@, n@),
        decreases ps.len() - i,
    {
        let p = &ps[i];
        assert(ps@.subrange(0, i + 1).drop_last() =~= ps@.subrange(0, i as int));
        assert(ps@.subrange(0, i + 1).last() == *p);
        if p.name == *u {
            let ghost base = record_views(r@);
            let mut j: usize = 0;
            assert(record_views(r@) =~= base + dep_records(
                *p,
                p.dependencies@.subrange(0, 0),
                n@,
            ));
            while j < p.dependencies.len()
                invariant
                    j <= p.dependencies.len(),
                    record_views(r@) == base + dep_records(
                        *p,
                        p.dependencies@.subrange(0, j as int),
                        n@,
                    ),
                decreases p.dependencies.len() - j,
            {
                let d = &p.dependencies[j];
                assert(p.dependencies@.subrange(0, j + 1).drop_last() =~= p.dependencies@.subrange(
                    0,
                    j as int,
                ));
                assert(p.dependencies@.subrange(0, j + 1).last() == *d);
                if d.path.is_none() && d.name == *n {
                    let m = record(p, d);
                    let ghost prev = r@;
                    r.push(m);
                    assert(record_views(r@) =~= record_views(prev).push(m@));
                }
                j = j + 1;
            }
            assert(p.dependencies@.subrange(0, j as int) =~= p.dependencies@);
        }
        i = i + 1;
    }
    assert(ps@.subrange(0, i as int) =~= ps@);
    r
}

/// The declarations of `n`, member by member in the order of `us`.
fn group_for(ps: &Vec<Package>, us: &Vec<String>, n: &String) -> (r: Vec<MemberDependency>)
    ensures
        record_views(r@) == grouped_records(ps@, views(us@), n@),
{
    let mut r: Vec<MemberDependency> = Vec::new();
    let mut k: usize = 0;
    assert(record_views(r@) =~= grouped_records(ps@, views(us@).subrange(0, 0), n@));
    while k < us.len()
        invariant
            k <= us.len(),
            record_views(r@) == grouped_records(ps@, views(us@).subrange(0, k as int), n@),
        decreases us.len() - k,
    {
        let mut part = records_for(ps, &us[k], n);
        let ghost prev = r@;
        let ghost added = part@;
        r.append(&mut part);
        assert(record_views(r@) =~= record_views(prev) + record_views(added));
        assert(views(us@).subrange(0, k + 1).drop_last() =~= views(us@).subrange(0, k as int));
        assert(views(us@).subrange(0, k + 1).last() == us@[k as int]@);
        k = k + 1;
    }
    assert(views(us@).subrange(0, k as int) =~= views(us@));
    r
}

/// Splits the dependencies of the `selected` members against the names that
/// the shared table declares (`shared`). The first part lists, by name, each
/// dependency that two or more members declare and the shared table lacks, with
/// every declaration of it, member by member. The second lists the names in the
/// shared table that no two members need.
pub fn partition_dependencies(shared: &Vec<String>, selected: &Vec<Package>) -> (r: (
    Vec<(String, Vec<MemberDependency>)>,
    Vec<String>,
))
    ensures
        is_partition(views(shared@), selected@, r.0@, r.1@),
{
    let ghost sh = views(shared@);
    let ghost ps = selected@;
    let us = sorted_member_names(selected);
    proof {
        lemma_sorted_of(views(us@));
    }
    let ns = dependency_names(selected);
    let mut adds: Vec<(String, Vec<MemberDependency>)> = Vec::new();
    let mut j: usize = 0;
    assert(addition_keys(adds@).to_set() =~= Set::empty());
    while j < ns.len()
        invariant
            j <= ns.len(),
            views(us@) == sorted_of(member_names(ps)),
            sh == views(shared@),
            ps == selected@,
            strictly_sorted(views(ns@)),
            strictly_sorted(addition_keys(adds@)),
            addition_keys(adds@).to_set() == Set::new(
                |x: Seq<char>|
                    (exists|m: int| 0 <= m < j && (#[trigger] ns@[m])@ == x) && shared_by_several(
                        ps,
                        x,
                    ) && !sh.contains(x),
            ),
            forall|t: int, m: int|
                0 <= t < adds.len() && j <= m < ns.len() ==> #[trigger] name_lt(
                    addition_keys(adds@)[t],
                    views(ns@)[m],
                ),
            forall|t: int|
                0 <= t < adds.len() ==> record_views((#[trigger] adds@[t]).1@) == addition_records(
                    ps,
                    adds@[t].0@,
                ),
        decreases ns.len() - j,
    {
        let n = &ns[j];
        let ghost prev = adds@;
        if used_by_several(selected, n) && !contains_name(shared, n) {
            let g = group_for(selected, &us, n);
            adds.push((n.clone(), g));
            assert(addition_keys(adds@) =~= addition_keys(prev).push(n@));
            assert forall|p: int, q: int|
                0 <= p < q < addition_keys(adds@).len() implies #[trigger] name_lt(
                addition_keys(adds@)[p],
                addition_keys(adds@)[q],
            ) by {
                if q == prev.len() {
                    assert(name_lt(addition_keys(prev)[p], views(ns@)[j as int]));
                }
            };
        }
        j = j + 1;
        assert forall|t: int, m: int|
            0 <= t < adds.len() && j <= m < ns.len() implies #[trigger] name_lt(
            addition_keys(adds@)[t],
            views(ns@)[m],
        ) by {
            if t < prev.len() {
                assert(name_lt(addition_keys(prev)[t], views(ns@)[m]));
            } else {
                assert(name_lt(views(ns@)[j - 1], views(ns@)[m]));
            }
        };
        assert(addition_keys(adds@).to_set() =~= Set::new(
            |x: Seq<char>|
                (exists|m: int| 0 <= m < j && (#[trigger] ns@[m])@ == x) && shared_by_several(ps, x)
                    && !sh.contains(x),
        )) by {
            assert forall|x: Seq<char>| #[trigger]
                addition_keys(adds@).to_set().contains(x) implies (exists|m: int|
                0 <= m < j && (#[trigger] ns@[m])@ == x) && shared_by_several(ps, x) && !sh.contains(
                x,
            ) by {
                if addition_keys(prev).to_set().contains(x) {
                    let m = choose|m: int| 0 <= m < j - 1 && (#[trigger] ns@[m])@ == x;
                    assert(ns@[m]@ == x);
                } else {
                    assert(addition_keys(adds@)[prev.len() as int] == x);
                    assert(ns@[j - 1]@ == x);
                }
            };
            assert forall|x: Seq<char>|
                (exists|m: int| 0 <= m < j && (#[trigger] ns@[m])@ == x) && shared_by_several(ps, x)
                    && !sh.contains(x) implies #[trigger] addition_keys(adds@).to_set().contains(
                x,
            ) by {
                let m = choose|m: int| 0 <= m < j && (#[trigger] ns@[m])@ == x;
                if m == j - 1 {
                    assert(addition_keys(adds@)[adds@.len() - 1] == x);
                } else {
                    assert(addition_keys(prev).to_set().contains(x));
                    let t = choose|t: int|
                        0 <= t < addition_keys(prev).len() && addition_keys(prev)[t] == x;
                    assert(addition_keys(adds@)[t] == x);
                }
            };
        };
    }
    assert(addition_keys(adds@).to_set() =~= addition_names(sh, ps)) by {
        assert forall|x: Seq<char>| #[trigger]
            addition_names(sh, ps).contains(x) implies addition_keys(adds@).to_set().contains(x) by {
            let (a, b) = choose|a: int, b: int|
                0 <= a < ps.len() && 0 <= b < ps.len() && #[trigger] declares(ps[a], x)
                    && #[trigger] declares(ps[b], x) && ps[a].name@ != ps[b].name@;
            assert(declared_names(ps).contains(x));
            assert(views(ns@).to_set().contains(x));
            let m = choose|m: int| 0 <= m < views(ns@).len() && views(ns@)[m] == x;
            assert(ns@[m]@ == x);
        };
    };
    let mut removes: Vec<String> = Vec::new();
    let mut i: usize = 0;
    assert(views(removes@).to_set() =~= Set::empty());
    while i < shared.len()
        invariant
            i <= shared.len(),
            sh == views(shared@),
            ps == selected@,
            strictly_sorted(views(removes@)),
            views(removes@).to_set() == Set::new(
                |x: Seq<char>|
                    (exists|k: int| 0 <= k < i && (#[trigger] shared@[k])@ == x)
                        && !shared_by_several(ps, x),
            ),
        decreases shared.len() - i,
    {
        if !used_by_several(selected, &shared[i]) {
            insert_name(&mut removes, shared[i].as_str());
        }
        i = i + 1;
        assert(views(removes@).to_set() =~= Set::new(
            |x: Seq<char>|
                (exists|k: int| 0 <= k < i && (#[trigger] shared@[k])@ == x) && !shared_by_several(
                    ps,
                    x,
                ),
        )) by {
            assert(shared@[i - 1]@ == shared@[i - 1]@);
        };
    }
    assert(views(removes@).to_set() =~= removal_names(sh, ps)) by {
        assert forall|x: Seq<char>| #[trigger] removal_names(sh, ps).contains(x) implies views(
            removes@,
        ).to_set().contains(x) by {
            let k = choose|k: int| 0 <= k < sh.len() && sh[k] == x;
            assert(shared@[k]@ == x);
        };
        assert forall|x: Seq<char>| #[trigger] views(removes@).to_set().contains(x) implies removal_names(
            sh,
            ps,
        ).contains(x) by {
            let k = choose|k: int| 0 <= k < i && (#[trigger] shared@[k])@ == x;
            assert(sh[k] == x);
        };
    };
    (adds, removes)
}

/// A dependency that only one member declares is never added to the shared
/// table, however many of that member's dependency tables name it.
pub proof fn lemma_single_member_not_added(
    shared: Seq<Seq<char>>,
    ps: Seq<Package>,
    adds: Seq<(String, Vec<MemberDependency>)>,
    removes: Seq<String>,
    n: Seq<char>,
)
    requires
        is_partition(shared, ps, adds, removes),
        forall|i: int, k: int|
            0 <= i < ps.len() && 0 <= k < ps.len() && #[trigger] declares(ps[i], n)
                && #[trigger] declares(ps[k], n) ==> ps[i].name@ == ps[k].name@,
    ensures
        !addition_keys(adds).contains(n),
{
    if addition_keys(adds).contains(n) {
        assert(addition_keys(adds).to_set().contains(n));
    }
}

/// No name is both added to and removed from the shared table.
pub proof fn lemma_additions_removals_disjoint(
    shared: Seq<Seq<char>>,
    ps: Seq<Package>,
    adds: Seq<(String, Vec<MemberDependency>)>,
    removes: Seq<String>,
    n: Seq<char>,
)
    requires
        is_partition(shared, ps, adds, removes),
    ensures
        !(addition_keys(adds).contains(n) && views(removes).contains(n)),
{
    if addition_keys(adds).contains(n) && views(removes).contains(n) {
        assert(addition_keys(adds).to_set().contains(n));
        assert(views(removes).to_set().contains(n));
    }
}

/// Partitioning the same input twice gives the same additions, with the same
/// declarations in the same order, and the same removals.
pub proof fn lemma_partition_deterministic(
    shared: Seq<Seq<char>>,
    ps: Seq<Package>,
    adds1: Seq<(String, Vec<MemberDependency>)>,
    removes1: Seq<String>,
    adds2: Seq<(String, Vec<MemberDependency>)>,
    removes2: Seq<String>,
)
    requires
        is_partition(shared, ps, adds1, removes1),
        is_partition(shared, ps, adds2, removes2),
    ensures
        addition_keys(adds1) == addition_keys(adds2),
        adds1.len() == adds2.len(),
        forall|t: int|
            0 <= t < adds1.len() ==> record_views((#[trigger] adds1[t]).1@) == record_views(
                adds2[t].1@,
            ),
        views(removes1) == views(removes2),
{
    lemma_sorted_unique(addition_keys(adds1), addition_keys(adds2));
    lemma_sorted_unique(views(removes1), views(removes2));
    assert forall|t: int| 0 <= t < adds1.len() implies record_views((#[trigger] adds1[t]).1@)
        == record_views(adds2[t].1@) by {
        assert(addition_keys(adds1)[t] == addition_keys(adds2)[t]);
    };
}

} // verus!
