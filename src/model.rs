//! The data that the partitioner and the manifest editor work on.
use vstd::prelude::*;

verus! {

/// Which dependency table of a member manifest declares a dependency.
#[derive(PartialEq, Eq, Structural, Clone, Copy, Debug)]
pub enum DependencyKind {
    Normal,
    Development,
    Build,
    Unknown,
}

/// One dependency as a member package declares it.
#[derive(Clone, Debug)]
pub struct Dependency {
    pub name: String,
    /// The version requirement, as written.
    pub req: String,
    pub features: Vec<String>,
    pub uses_default_features: bool,
    pub kind: DependencyKind,
    /// Set when the dependency points at another package of the project.
    pub path: Option<String>,
}

pub struct DependencyView {
    pub name: Seq<char>,
    pub req: Seq<char>,
    pub features: Seq<Seq<char>>,
    pub uses_default_features: bool,
    pub kind: DependencyKind,
    pub is_local: bool,
}

impl View for Dependency {
    type V = DependencyView;

    open spec fn view(&self) -> DependencyView {
        DependencyView {
            name: self.name@,
            req: self.req@,
            features: crate::names::views(self.features@),
            uses_default_features: self.uses_default_features,
            kind: self.kind,
            is_local: self.path.is_some(),
        }
    }
}

/// A copy of the strings in `v`.
pub fn copy_strings(v: &Vec<String>) -> (r: Vec<String>)
    ensures
        r@ == v@,
{
    let mut r: Vec<String> = Vec::new();
    let mut i: usize = 0;
    while i < v.len()
        invariant
            i <= v.len(),
            r@ =~= v@.subrange(0, i as int),
        decreases v.len() - i,
    {
        r.push(v[i].clone());
        i = i + 1;
    }
    assert(v@.subrange(0, i as int) =~= v@);
    r
}

impl Dependency {
    /// A copy with the same contents.
    pub fn duplicate(&self) -> (r: Dependency)
        ensures
            r@ == self@,
    {
        let path = match &self.path {
            Some(p) => Some(p.clone()),
            None => None,
        };
        Dependency {
            name: self.name.clone(),
            req: self.req.clone(),
            features: copy_strings(&self.features),
            uses_default_features: self.uses_default_features,
            kind: self.kind,
            path,
        }
    }
}

/// A member package: its name, its manifest and what it depends on.
#[derive(Clone, Debug)]
pub struct Package {
    pub name: String,
    pub manifest_path: String,
    pub dependencies: Vec<Dependency>,
}

/// Describes the dependency of a workspace member crate.
#[derive(Clone, Debug)]
pub struct MemberDependency {
    /// Member crate name.
    pub name: String,
    /// Path to the manifest file of the member crate.
    pub manifest_path: String,
    /// Dependency of the member crate.
    pub dependency: Dependency,
}

pub struct MemberDependencyView {
    pub member: Seq<char>,
    pub manifest_path: Seq<char>,
    pub dependency: DependencyView,
}

impl View for MemberDependency {
    type V = MemberDependencyView;

    open spec fn view(&self) -> MemberDependencyView {
        MemberDependencyView {
            member: self.name@,
            manifest_path: self.manifest_path@,
            dependency: self.dependency@,
        }
    }
}

pub open spec fn record_views(v: Seq<MemberDependency>) -> Seq<MemberDependencyView> {
    v.map_values(|r: MemberDependency| r@)
}

} // verus!
