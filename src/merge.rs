//! Merges the members' declarations of one dependency into the shared one.
use vstd::prelude::*;
use crate::model::{MemberDependency, MemberDependencyView, record_views};
use crate::names::{insert_name, strictly_sorted, views};

verus! {

/// The declaration written into the shared table.
#[derive(Clone, Debug)]
pub struct SharedDeclaration {
    pub version: String,
    pub default_features: bool,
    /// Sorted, each once.
    pub features: Vec<String>,
}

/// Every feature that some member turns on.
pub open spec fn feature_union(ms: Seq<MemberDependencyView>) -> Set<Seq<char>> {
    Set::new(
        |f: Seq<char>|
            exists|i: int| 0 <= i < ms.len() && (#[trigger] ms[i]).dependency.features.contains(f),
    )
}

/// No member turns the default features off.
pub open spec fn all_use_defaults(ms: Seq<MemberDependencyView>) -> bool {
    forall|i: int| 0 <= i < ms.len() ==> (#[trigger] ms[i]).dependency.uses_default_features
}

/// The shared declaration for the members' declarations of one dependency:
/// the first member's version requirement, the union of the features, and
/// default features off as soon as one member has them off.
pub fn merge_declarations(members: &Vec<MemberDependency>) -> (r: Option<SharedDeclaration>)
    ensures
        r is None <==> members.len() == 0,
        match r {
            Some(d) => {
                &&& d.version@ == members@[0].dependency.req@
                &&& d.default_features == all_use_defaults(record_views(members@))
                &&& strictly_sorted(views(d.features@))
                &&& views(d.features@).to_set() == feature_union(record_views(members@))
            },
            None => true,
        },
{
    if members.len() == 0 {
        return None;
    }
    let ghost ms = record_views(members@);
    let mut features: Vec<String> = Vec::new();
    let mut defaults = true;
    let mut i: usize = 0;
    assert(views(features@).to_set() =~= Set::empty());
    while i < members.len()
        invariant
            i <= members.len(),
            ms == record_views(members@),
            strictly_sorted(views(features@)),
            views(features@).to_set() == Set::new(
                |f: Seq<char>|
                    exists|k: int| 0 <= k < i && (#[trigger] ms[k]).dependency.features.contains(f),
            ),
            defaults == forall|k: int| 0 <= k < i ==> (#[trigger] ms[k]).dependency.uses_default_features,
        decreases members.len() - i,
    {
        let dep = &members[i].dependency;
        let ghost outer = views(features@).to_set();
        let mut j: usize = 0;
        assert(views(features@).to_set() =~= outer.union(views(dep.features@).subrange(0, 0).to_set()));
        while j < dep.features.len()
            invariant
                j <= dep.features.len(),
                strictly_sorted(views(features@)),
                views(features@).to_set() == outer.union(
                    views(dep.features@).subrange(0, j as int).to_set(),
                ),
            decreases dep.features.len() - j,
        {
            insert_name(&mut features, dep.features[j].as_str());
            j = j + 1;
            assert(views(dep.features@).subrange(0, j as int) =~= views(dep.features@).subrange(
                0,
                j - 1,
            ).push(dep.features@[j - 1]@));
            proof {
                views(dep.features@).subrange(0, j - 1).lemma_push_to_set_commute(
                    dep.features@[j - 1]@,
                );
            }
            assert(views(features@).to_set() =~= outer.union(
                views(dep.features@).subrange(0, j as int).to_set(),
            ));
        }
        assert(views(dep.features@).subrange(0, j as int) =~= views(dep.features@));
        if !dep.uses_default_features {
            defaults = false;
        }
        i = i + 1;
        assert(ms[i - 1].dependency == dep@);
        assert(views(features@).to_set() =~= Set::new(
            |f: Seq<char>|
                exists|k: int| 0 <= k < i && (#[trigger] ms[k]).dependency.features.contains(f),
        ));
    }
    Some(SharedDeclaration { version: members[0].dependency.req.clone(), default_features: defaults, features })
}

} // verus!
