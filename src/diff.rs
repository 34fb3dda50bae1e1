//! Applies a partition to the manifests and renders the result as a patch.
use vstd::prelude::*;
use toml_edit::DocumentMut;
use crate::merge::{SharedDeclaration, all_use_defaults, feature_union, merge_declarations};
use crate::model::{Dependency, DependencyKind, DependencyView, MemberDependency, copy_strings, record_views};
use crate::names::{insert_name, lemma_sorted_of, name_lt, sorted_of, strictly_sorted, views};
use crate::partition::addition_keys;
use crate::patch::{
    FileChange, RenderedPatch, display_name, header_text, render_changes, rendered_text, section_hunks,
};
use crate::toml_doc::{
    Shape, bool_at, bool_entry, bool_of, text_bool, doc_text, dotted_at, format_item, gone_below, holds_text, vacant, insert_bool, insert_inline_table, insert_string,
    insert_strings, insert_table, is_prefix, is_toml, parse_document, remove_key, render_document,
    same_at, same_outside, shape_at, shape_of, string_at, strings_at, table_like, text_shape,
};

verus! {

/// A manifest file: where it is and what it holds.
#[derive(Clone, Debug)]
pub struct ManifestText {
    pub path: String,
    pub text: String,
}

/// Why the manifests could not be edited.
#[derive(Clone, Debug)]
pub enum DiffError {
    /// The manifest at this path is not a TOML document.
    Parse(String),
    /// In the manifest at the first path, the place named second holds a
    /// value where a table belongs.
    NotATable(String, String),
    /// No text was given for the manifest at this path.
    MissingManifest(String),
}

pub open spec fn dep_views(v: Seq<Dependency>) -> Seq<DependencyView> {
    v.map_values(|d: Dependency| d@)
}

/// The dependencies among `rs` that the manifest at `path` declares, in order.
pub open spec fn records_at(rs: Seq<MemberDependency>, path: Seq<char>) -> Seq<DependencyView>
    decreases rs.len(),
{
    if rs.len() == 0 {
        Seq::empty()
    } else {
        let rest = records_at(rs.drop_last(), path);
        if rs.last().manifest_path@ == path {
            rest.push(rs.last().dependency@)
        } else {
            rest
        }
    }
}

/// The dependencies to convert in the manifest at `path`, addition by addition.
pub open spec fn edits_at(adds: Seq<(String, Vec<MemberDependency>)>, path: Seq<char>) -> Seq<
    DependencyView,
>
    decreases adds.len(),
{
    if adds.len() == 0 {
        Seq::empty()
    } else {
        edits_at(adds.drop_last(), path) + records_at(adds.last().1@, path)
    }
}

/// Each change starts from the text given for its path.
pub open spec fn texts_from(cs: Seq<FileChange>, members: Seq<ManifestText>) -> bool {
    forall|m: int|
        0 <= m < cs.len() ==> exists|i: int|
            0 <= i < members.len() && (#[trigger] members[i]).path@ == (#[trigger] cs[m]).path@
                && members[i].text@ == cs[m].original@
}

pub open spec fn change_paths(cs: Seq<FileChange>) -> Seq<Seq<char>> {
    cs.map_values(|c: FileChange| c.path@)
}

/// The member manifests that the additions touch.
pub open spec fn touched_paths(adds: Seq<(String, Vec<MemberDependency>)>) -> Set<Seq<char>> {
    Set::new(
        |p: Seq<char>|
            exists|t: int, k: int|
                0 <= t < adds.len() && 0 <= k < adds[t].1@.len() && (#[trigger] adds[t].1@[k]).manifest_path@
                    == p,
    )
}

/// The member manifests that `add` touches, sorted, each once.
pub fn touched_manifests(add: &Vec<(String, Vec<MemberDependency>)>) -> (r: Vec<String>)
    ensures
        strictly_sorted(views(r@)),
        views(r@).to_set() == touched_paths(add@),
{
    let mut r: Vec<String> = Vec::new();
    let mut t: usize = 0;
    assert(views(r@).to_set() =~= Set::empty());
    while t < add.len()
        invariant
            t <= add.len(),
            strictly_sorted(views(r@)),
            views(r@).to_set() == Set::new(
                |p: Seq<char>|
                    exists|a: int, k: int|
                        0 <= a < t && 0 <= k < add@[a].1@.len() && (#[trigger] add@[a].1@[k]).manifest_path@
                            == p,
            ),
        decreases add.len() - t,
    {
        let rs = &add[t].1;
        let ghost outer = views(r@).to_set();
        let mut k: usize = 0;
        while k < rs.len()
            invariant
                k <= rs.len(),
                t < add.len(),
                *rs == add@[t as int].1,
                strictly_sorted(views(r@)),
                views(r@).to_set() == outer.union(
                    Set::new(
                        |p: Seq<char>|
                            exists|m: int| 0 <= m < k && (#[trigger] rs@[m]).manifest_path@ == p,
                    ),
                ),
            decreases rs.len() - k,
        {
            insert_name(&mut r, rs[k].manifest_path.as_str());
            k = k + 1;
            assert(views(r@).to_set() =~= outer.union(
                Set::new(
                    |p: Seq<char>| exists|m: int| 0 <= m < k && (#[trigger] rs@[m]).manifest_path@ == p,
                ),
            )) by {
                assert(rs@[k - 1].manifest_path@ == rs@[k - 1].manifest_path@);
            };
        }
        t = t + 1;
        assert(views(r@).to_set() =~= Set::new(
            |p: Seq<char>|
                exists|a: int, m: int|
                    0 <= a < t && 0 <= m < add@[a].1@.len() && (#[trigger] add@[a].1@[m]).manifest_path@
                        == p,
        )) by {
            assert forall|p: Seq<char>|
                (exists|a: int, m: int|
                    0 <= a < t && 0 <= m < add@[a].1@.len() && (#[trigger] add@[a].1@[m]).manifest_path@
                        == p) implies views(r@).to_set().contains(p) by {
                let (a, m) = choose|a: int, m: int|
                    0 <= a < t && 0 <= m < add@[a].1@.len() && (#[trigger] add@[a].1@[m]).manifest_path@
                        == p;
                if a == t - 1 {
                    assert(rs@[m].manifest_path@ == p);
                } else {
                    assert(outer.contains(p));
                }
            };
            assert forall|p: Seq<char>| views(r@).to_set().contains(p) implies (exists|a: int, m: int|
                0 <= a < t && 0 <= m < add@[a].1@.len() && (#[trigger] add@[a].1@[m]).manifest_path@
                    == p) by {
                if !outer.contains(p) {
                    let m = choose|m: int| 0 <= m < k && (#[trigger] rs@[m]).manifest_path@ == p;
                    assert(add@[t - 1].1@[m].manifest_path@ == p);
                } else {
                    let (a, m) = choose|a: int, m: int|
                        0 <= a < t - 1 && 0 <= m < add@[a].1@.len()
                            && (#[trigger] add@[a].1@[m]).manifest_path@ == p;
                    assert(add@[a].1@[m].manifest_path@ == p);
                }
            };
        };
    }
    assert(views(r@).to_set() =~= touched_paths(add@));
    r
}

/// The dependencies to convert in the manifest at `path`, addition by addition.
fn edits_for(add: &Vec<(String, Vec<MemberDependency>)>, path: &String) -> (r: Vec<Dependency>)
    ensures
        dep_views(r@) == edits_at(add@, path@),
{
    let mut r: Vec<Dependency> = Vec::new();
    let mut t: usize = 0;
    assert(dep_views(r@) =~= edits_at(add@.subrange(0, 0), path@));
    while t < add.len()
        invariant
            t <= add.len(),
            dep_views(r@) == edits_at(add@.subrange(0, t as int), path@),
        decreases add.len() - t,
    {
        let rs = &add[t].1;
        let ghost base = dep_views(r@);
        let mut k: usize = 0;
        assert(dep_views(r@) =~= base + records_at(rs@.subrange(0, 0), path@));
        while k < rs.len()
            invariant
                k <= rs.len(),
                dep_views(r@) == base + records_at(rs@.subrange(0, k as int), path@),
            decreases rs.len() - k,
        {
            assert(rs@.subrange(0, k + 1).drop_last() =~= rs@.subrange(0, k as int));
            assert(rs@.subrange(0, k + 1).last() == rs@[k as int]);
            if rs[k].manifest_path == *path {
                let d = rs[k].dependency.duplicate();
                let ghost prev = r@;
                r.push(d);
                assert(dep_views(r@) =~= dep_views(prev).push(d@));
            }
            k = k + 1;
        }
        assert(rs@.subrange(0, k as int) =~= rs@);
        assert(add@.subrange(0, t + 1).drop_last() =~= add@.subrange(0, t as int));
        assert(add@.subrange(0, t + 1).last() == add@[t as int]);
        t = t + 1;
    }
    assert(add@.subrange(0, t as int) =~= add@);
    r
}

pub open spec fn ws_path() -> Seq<Seq<char>> {
    seq!["workspace"@]
}

pub open spec fn deps_path() -> Seq<Seq<char>> {
    seq!["workspace"@, "dependencies"@]
}

proof fn lemma_prefix_push(e: Seq<Seq<char>>, k: Seq<char>, q: Seq<Seq<char>>)
    requires
        is_prefix(e.push(k), q),
    ensures
        is_prefix(e, q),
        q.len() > e.len(),
        q[e.len() as int] == k,
{
    assert(e.push(k).subrange(0, e.len() as int) =~= e);
    assert(q.subrange(0, e.len() as int) =~= q.subrange(0, e.len() + 1 as int).subrange(0, e.len() as int));
    assert(q.subrange(0, e.len() + 1 as int)[e.len() as int] == q[e.len() as int]);
}

proof fn lemma_prefix_self(e: Seq<Seq<char>>, k: Seq<char>)
    ensures
        is_prefix(e, e),
        is_prefix(e, e.push(k)),
        !is_prefix(e.push(k), e),
{
    assert(e.subrange(0, e.len() as int) =~= e);
    assert(e.push(k).subrange(0, e.len() as int) =~= e);
}

proof fn lemma_keys_distinct()
    ensures
        "version"@ != "workspace"@,
        "version"@ != "default-features"@,
        "version"@ != "features"@,
        "workspace"@ != "default-features"@,
        "features"@ != "default-features"@,
        "workspace"@.len() == 9,
        "dependencies"@.len() == 12,
{
    reveal_strlit("version");
    reveal_strlit("workspace");
    reveal_strlit("default-features");
    reveal_strlit("features");
    reveal_strlit("dependencies");
    assert("version"@.len() == 7);
    assert("workspace"@.len() == 9);
    assert("default-features"@.len() == 16);
    assert("features"@.len() == 8);
    assert("dependencies"@.len() == 12);
}

/// The name of the member table that holds dependencies of `kind`.
pub open spec fn table_name(kind: DependencyKind) -> Option<Seq<char>> {
    match kind {
        DependencyKind::Normal => Some("dependencies"@),
        DependencyKind::Development => Some("dev-dependencies"@),
        DependencyKind::Build => Some("build-dependencies"@),
        DependencyKind::Unknown => None,
    }
}

/// The name of the member table that holds dependencies of `kind`.
pub fn dependency_table(kind: DependencyKind) -> (r: Option<&'static str>)
    ensures
        match r {
            Some(s) => table_name(kind) == Some(s@),
            None => table_name(kind) is None,
        },
{
    match kind {
        DependencyKind::Normal => Some("dependencies"),
        DependencyKind::Development => Some("dev-dependencies"),
        DependencyKind::Build => Some("build-dependencies"),
        DependencyKind::Unknown => None,
    }
}

fn is_table_like(s: Shape) -> (r: bool)
    ensures
        r == table_like(s),
{
    s == Shape::Table || s == Shape::InlineTable
}

/// A bare version string where the declaration needs nothing else.
pub fn is_bare_declaration(decl: &SharedDeclaration) -> (r: bool)
    ensures
        r == (decl.default_features && decl.features@.len() == 0),
{
    decl.default_features && decl.features.len() == 0
}

/// `d` holds at `p` the shared declaration with this version, default
/// features and features: a bare version string where default features are
/// on and no feature is named, else an inline table with `version`, then
/// `default-features = false` where they are off, then `features` where any
/// is named, and nothing else.
pub open spec fn declaration_written(
    d: DocumentMut,
    p: Seq<Seq<char>>,
    version: Seq<char>,
    defaults: bool,
    features: Seq<Seq<char>>,
) -> bool {
    if defaults && features.len() == 0 {
        shape_at(d, p) == Shape::Other && string_at(d, p) == Some(version)
    } else {
        &&& shape_at(d, p) == Shape::InlineTable
        &&& string_at(d, p.push("version"@)) == Some(version)
        &&& if defaults {
            shape_at(d, p.push("default-features"@)) == Shape::Absent
        } else {
            bool_at(d, p.push("default-features"@)) == Some(false)
        }
        &&& if features.len() == 0 {
            shape_at(d, p.push("features"@)) == Shape::Absent
        } else {
            strings_at(d, p.push("features"@)) == Some(features)
        }
        &&& forall|k: Seq<char>|
            k != "version"@ && k != "default-features"@ && k != "features"@ ==> #[trigger] shape_at(
                d,
                p.push(k),
            ) == Shape::Absent
    }
}

/// The merge of the declarations `rs` is written at `p`.
pub open spec fn merged_written(d: DocumentMut, p: Seq<Seq<char>>, rs: Seq<crate::model::MemberDependencyView>) -> bool {
    declaration_written(
        d,
        p,
        rs[0].dependency.req,
        all_use_defaults(rs),
        sorted_of(feature_union(rs)),
    )
}

proof fn lemma_written_transfer(
    a: DocumentMut,
    b: DocumentMut,
    p: Seq<Seq<char>>,
    version: Seq<char>,
    defaults: bool,
    features: Seq<Seq<char>>,
)
    requires
        declaration_written(a, p, version, defaults, features),
        forall|q: Seq<Seq<char>>| is_prefix(p, q) ==> #[trigger] same_at(a, b, q),
    ensures
        declaration_written(b, p, version, defaults, features),
{
    lemma_prefix_self(p, "version"@);
    lemma_prefix_self(p, "default-features"@);
    lemma_prefix_self(p, "features"@);
    assert(same_at(a, b, p));
    assert(same_at(a, b, p.push("version"@)));
    assert(same_at(a, b, p.push("default-features"@)));
    assert(same_at(a, b, p.push("features"@)));
    if !(defaults && features.len() == 0) {
        assert forall|k: Seq<char>|
            k != "version"@ && k != "default-features"@ && k != "features"@ implies #[trigger] shape_at(
            b,
            p.push(k),
        ) == Shape::Absent by {
            lemma_prefix_self(p, k);
            assert(same_at(a, b, p.push(k)));
            assert(shape_at(a, p.push(k)) == Shape::Absent);
        };
    }
}

/// Writes the shared declaration `decl` as `<parent>.<name>`.
fn write_declaration(doc: &mut DocumentMut, parent: &Vec<String>, name: &str, decl: &SharedDeclaration)
    requires
        table_like(shape_at(*old(doc), views(parent@))),
    ensures
        declaration_written(
            *final(doc),
            views(parent@).push(name@),
            decl.version@,
            decl.default_features,
            views(decl.features@),
        ),
        same_outside(*old(doc), *final(doc), views(parent@).push(name@)),
{
    let ghost p = views(parent@).push(name@);
    proof {
        lemma_keys_distinct();
    }
    if is_bare_declaration(decl) {
        insert_string(doc, parent, name, decl.version.as_str());
    } else {
        let ghost d0 = *doc;
        insert_inline_table(doc, parent, name, false);
        let ghost d1 = *doc;
        let mut entry = copy_strings(parent);
        entry.push(name.to_owned());
        assert(views(entry@) =~= p);
        proof {
            lemma_prefix_self(p, "version"@);
        }
        insert_string(doc, &entry, "version", decl.version.as_str());
        let ghost d2 = *doc;
        assert(same_at(d1, d2, p));
        if !decl.default_features {
            insert_bool(doc, &entry, "default-features", false);
        }
        let ghost d3 = *doc;
        proof {
            lemma_prefix_self(p, "default-features"@);
        }
        assert(same_at(d2, d3, p));
        if decl.features.len() > 0 {
            insert_strings(doc, &entry, "features", &decl.features);
        }
        let ghost d4 = *doc;
        assert forall|q: Seq<Seq<char>>| !is_prefix(p, q) implies #[trigger] same_at(d0, d4, q) by {
            if is_prefix(p.push("version"@), q) {
                lemma_prefix_push(p, "version"@, q);
            }
            if is_prefix(p.push("default-features"@), q) {
                lemma_prefix_push(p, "default-features"@, q);
            }
            if is_prefix(p.push("features"@), q) {
                lemma_prefix_push(p, "features"@, q);
            }
            assert(same_at(d0, d1, q));
            assert(same_at(d1, d2, q));
            assert(same_at(d2, d3, q));
            assert(same_at(d3, d4, q));
        };
        assert forall|k: Seq<char>|
            k != "version"@ && k != "default-features"@ && k != "features"@ implies #[trigger] shape_at(
            d4,
            p.push(k),
        ) == Shape::Absent by {
            let q = p.push(k);
            if is_prefix(p.push("version"@), q) {
                lemma_prefix_push(p, "version"@, q);
            }
            if is_prefix(p.push("default-features"@), q) {
                lemma_prefix_push(p, "default-features"@, q);
            }
            if is_prefix(p.push("features"@), q) {
                lemma_prefix_push(p, "features"@, q);
            }
            assert(shape_at(d1, q) == Shape::Absent);
            assert(same_at(d1, d2, q));
            assert(same_at(d2, d3, q));
            assert(same_at(d3, d4, q));
        };
        assert(!is_prefix(p.push("version"@), p));
        assert(same_at(d1, d2, p));
        assert(same_at(d2, d3, p));
        assert(same_at(d3, d4, p));
        proof {
            let qv = p.push("version"@);
            let qd = p.push("default-features"@);
            let qf = p.push("features"@);
            if is_prefix(qd, qv) {
                lemma_prefix_push(p, "default-features"@, qv);
            }
            if is_prefix(qf, qv) {
                lemma_prefix_push(p, "features"@, qv);
            }
            if is_prefix(qf, qd) {
                lemma_prefix_push(p, "features"@, qd);
            }
            if is_prefix(qv, qd) {
                lemma_prefix_push(p, "version"@, qd);
            }
            if is_prefix(qv, qf) {
                lemma_prefix_push(p, "version"@, qf);
            }
            if is_prefix(qd, qf) {
                lemma_prefix_push(p, "default-features"@, qf);
            }
            assert(same_at(d2, d3, qv));
            assert(same_at(d3, d4, qv));
            assert(same_at(d1, d2, qd));
            assert(same_at(d3, d4, qd));
            assert(same_at(d1, d2, qf));
            assert(same_at(d2, d3, qf));
        }
    }
}

/// The entry at `e` points at the shared declaration: it is a table or an
/// inline table, holding the boolean `workspace = true` and nothing under
/// `version` or `default-features`.
pub open spec fn converted(d: DocumentMut, e: Seq<Seq<char>>) -> bool {
    &&& table_like(shape_at(d, e))
    &&& bool_entry(d, e.push("workspace"@), true)
    &&& gone_below(d, e.push("version"@))
    &&& gone_below(d, e.push("default-features"@))
}

/// Below `e`, all but `version`, `default-features` and `workspace` is as in `a`.
pub open spec fn entry_kept(a: DocumentMut, b: DocumentMut, e: Seq<Seq<char>>) -> bool {
    forall|q: Seq<Seq<char>>|
        is_prefix(e, q) && q.len() > e.len() && q[e.len() as int] != "version"@
            && q[e.len() as int] != "default-features"@ && q[e.len() as int] != "workspace"@
            ==> #[trigger] same_at(a, b, q)
}

/// Points the member's entry `<table>.<name>` at the shared declaration.
/// A table-like entry keeps its other keys and its style, and loses
/// `version` and `default-features`; any other entry becomes an inline
/// table holding only `workspace = true`, with dotted keys where `dotted`
/// is set. On an entry that is converted already, nothing changes.
fn update_dependency(doc: &mut DocumentMut, table: &Vec<String>, name: &str, dotted: bool)
    requires
        table_like(shape_at(*old(doc), views(table@))),
    ensures
        converted(*final(doc), views(table@).push(name@)),
        same_outside(*old(doc), *final(doc), views(table@).push(name@)),
        table_like(shape_at(*old(doc), views(table@).push(name@))) ==> shape_at(
            *final(doc),
            views(table@).push(name@),
        ) == shape_at(*old(doc), views(table@).push(name@)) && dotted_at(
            *final(doc),
            views(table@).push(name@),
        ) == dotted_at(*old(doc), views(table@).push(name@)) && entry_kept(
            *old(doc),
            *final(doc),
            views(table@).push(name@),
        ),
        !table_like(shape_at(*old(doc), views(table@).push(name@))) ==> shape_at(
            *final(doc),
            views(table@).push(name@),
        ) == Shape::InlineTable && dotted_at(*final(doc), views(table@).push(name@)) == dotted
            && forall|k: Seq<char>|
            k != "workspace"@ ==> #[trigger] shape_at(*final(doc), views(table@).push(name@).push(k))
                == Shape::Absent,
        converted(*old(doc), views(table@).push(name@)) ==> forall|q: Seq<Seq<char>>| #[trigger]
            same_at(*old(doc), *final(doc), q),
{
    let ghost e = views(table@).push(name@);
    let ghost pv = e.push("version"@);
    let ghost pd = e.push("default-features"@);
    let ghost pw = e.push("workspace"@);
    let ghost d0 = *doc;
    proof {
        lemma_keys_distinct();
        lemma_prefix_self(e, "version"@);
        lemma_prefix_self(e, "default-features"@);
        lemma_prefix_self(e, "workspace"@);
    }
    let mut entry = copy_strings(table);
    entry.push(name.to_owned());
    assert(views(entry@) =~= e);
    let qv = "version";
    let qd = "default-features";
    let qw = "workspace";
    if is_table_like(shape_of(doc, &entry)) {
        remove_key(doc, &entry, qv);
        let ghost d1 = *doc;
        assert(same_at(d0, d1, e));
        remove_key(doc, &entry, qd);
        let ghost d2 = *doc;
        assert(same_at(d1, d2, e));
        insert_bool(doc, &entry, qw, true);
        let ghost d3 = *doc;
        assert(same_at(d2, d3, e));
        format_item(doc, &entry);
        let ghost d4 = *doc;
        assert forall|q: Seq<Seq<char>>|
            !is_prefix(e, q) || (q.len() > e.len() && q[e.len() as int] != "version"@
                && q[e.len() as int] != "default-features"@ && q[e.len() as int] != "workspace"@)
            implies #[trigger] same_at(d0, d4, q) by {
            if is_prefix(pv, q) {
                lemma_prefix_push(e, "version"@, q);
            }
            if is_prefix(pd, q) {
                lemma_prefix_push(e, "default-features"@, q);
            }
            if is_prefix(pw, q) {
                lemma_prefix_push(e, "workspace"@, q);
            }
            assert(same_at(d0, d1, q));
            assert(same_at(d1, d2, q));
            assert(same_at(d2, d3, q));
            assert(same_at(d3, d4, q));
        };
        assert forall|q: Seq<Seq<char>>| is_prefix(pv, q) implies #[trigger] vacant(d4, q) by {
            lemma_prefix_push(e, "version"@, q);
            if is_prefix(pd, q) {
                lemma_prefix_push(e, "default-features"@, q);
            }
            if is_prefix(pw, q) {
                lemma_prefix_push(e, "workspace"@, q);
            }
            assert(vacant(d1, q));
            assert(same_at(d1, d2, q));
            assert(same_at(d2, d3, q));
            assert(same_at(d3, d4, q));
        };
        assert forall|q: Seq<Seq<char>>| is_prefix(pd, q) implies #[trigger] vacant(d4, q) by {
            lemma_prefix_push(e, "default-features"@, q);
            if is_prefix(pw, q) {
                lemma_prefix_push(e, "workspace"@, q);
            }
            assert(vacant(d2, q));
            assert(same_at(d2, d3, q));
            assert(same_at(d3, d4, q));
        };
        assert forall|q: Seq<Seq<char>>| is_prefix(pw, q) && q.len() > pw.len() implies #[trigger] vacant(
            d4,
            q,
        ) by {
            assert(vacant(d3, q));
            assert(same_at(d3, d4, q));
        };
        assert(same_at(d3, d4, pw));
        assert(same_at(d3, d4, e));
        proof {
            if converted(d0, e) {
                assert forall|q: Seq<Seq<char>>| #[trigger] same_at(d0, d4, q) by {
                    if is_prefix(pv, q) {
                        lemma_prefix_push(e, "version"@, q);
                    }
                    if is_prefix(pd, q) {
                        lemma_prefix_push(e, "default-features"@, q);
                    }
                    if is_prefix(pw, q) {
                        lemma_prefix_push(e, "workspace"@, q);
                    }
                    if is_prefix(pv, q) {
                        assert(vacant(d0, q) && vacant(d4, q));
                    } else if is_prefix(pd, q) {
                        assert(vacant(d0, q) && vacant(d4, q));
                    } else if is_prefix(pw, q) {
                        if q.len() > pw.len() {
                            assert(vacant(d0, q) && vacant(d4, q));
                        } else {
                            assert(q =~= pw);
                        }
                    } else {
                        assert(same_at(d0, d1, q));
                        assert(same_at(d1, d2, q));
                        assert(same_at(d2, d3, q));
                        assert(same_at(d3, d4, q));
                    }
                };
            }
        }
    } else {
        insert_inline_table(doc, table, name, dotted);
        let ghost d1 = *doc;
        insert_bool(doc, &entry, qw, true);
        let ghost d2 = *doc;
        assert(same_at(d1, d2, e));
        assert forall|q: Seq<Seq<char>>| !is_prefix(e, q) implies #[trigger] same_at(d0, d2, q) by {
            if is_prefix(pw, q) {
                lemma_prefix_push(e, "workspace"@, q);
            }
            assert(same_at(d0, d1, q));
            assert(same_at(d1, d2, q));
        };
        assert forall|k: Seq<char>| k != "workspace"@ implies #[trigger] shape_at(d2, e.push(k))
            == Shape::Absent by {
            if is_prefix(pw, e.push(k)) {
                lemma_prefix_push(e, "workspace"@, e.push(k));
            }
            assert(shape_at(d1, e.push(k)) == Shape::Absent);
            assert(same_at(d1, d2, e.push(k)));
        };
        assert forall|q: Seq<Seq<char>>| is_prefix(pv, q) implies #[trigger] vacant(d2, q) by {
            lemma_prefix_push(e, "version"@, q);
            if is_prefix(pw, q) {
                lemma_prefix_push(e, "workspace"@, q);
            }
            assert(vacant(d1, q));
            assert(same_at(d1, d2, q));
        };
        assert forall|q: Seq<Seq<char>>| is_prefix(pd, q) implies #[trigger] vacant(d2, q) by {
            lemma_prefix_push(e, "default-features"@, q);
            if is_prefix(pw, q) {
                lemma_prefix_push(e, "workspace"@, q);
            }
            assert(vacant(d1, q));
            assert(same_at(d1, d2, q));
        };
    }
}

/// The entry at `e` is marked as shared: table-like, `workspace = true`,
/// and no `version` or `default-features`.
pub open spec fn marked(d: DocumentMut, e: Seq<Seq<char>>) -> bool {
    &&& table_like(shape_at(d, e))
    &&& bool_at(d, e.push("workspace"@)) == Some(true)
    &&& shape_at(d, e.push("version"@)) == Shape::Absent
    &&& shape_at(d, e.push("default-features"@)) == Shape::Absent
}

/// The entry at `e` of the manifest `text` is marked as shared already.
pub open spec fn text_marked(text: Seq<char>, e: Seq<Seq<char>>) -> bool {
    &&& table_like(text_shape(text, e))
    &&& text_bool(text, e.push("workspace"@)) == Some(true)
    &&& text_shape(text, e.push("version"@)) == Shape::Absent
    &&& text_shape(text, e.push("default-features"@)) == Shape::Absent
}

proof fn lemma_converted_marked(d: DocumentMut, e: Seq<Seq<char>>)
    requires
        converted(d, e),
    ensures
        marked(d, e),
{
    lemma_prefix_self(e.push("version"@), "version"@);
    lemma_prefix_self(e.push("default-features"@), "version"@);
    assert(vacant(d, e.push("version"@)));
    assert(vacant(d, e.push("default-features"@)));
}

proof fn lemma_marked_transfer(a: DocumentMut, b: DocumentMut, f: Seq<Seq<char>>)
    requires
        marked(a, f),
        forall|q: Seq<Seq<char>>| is_prefix(f, q) ==> #[trigger] same_at(a, b, q),
    ensures
        marked(b, f),
{
    lemma_prefix_self(f, "workspace"@);
    lemma_prefix_self(f, "version"@);
    lemma_prefix_self(f, "default-features"@);
    assert(same_at(a, b, f));
    assert(same_at(a, b, f.push("workspace"@)));
    assert(same_at(a, b, f.push("version"@)));
    assert(same_at(a, b, f.push("default-features"@)));
}

/// Whether the entry at `entry` is marked as shared.
fn is_marked(doc: &DocumentMut, entry: &Vec<String>) -> (r: bool)
    ensures
        r == marked(*doc, views(entry@)),
{
    let ghost e = views(entry@);
    let mut pw = copy_strings(entry);
    pw.push("workspace".to_owned());
    let mut pv = copy_strings(entry);
    pv.push("version".to_owned());
    let mut pd = copy_strings(entry);
    pd.push("default-features".to_owned());
    assert(views(pw@) =~= e.push("workspace"@));
    assert(views(pv@) =~= e.push("version"@));
    assert(views(pd@) =~= e.push("default-features"@));
    is_table_like(shape_of(doc, entry)) && bool_of(doc, &pw) == Some(true) && shape_of(doc, &pv)
        == Shape::Absent && shape_of(doc, &pd) == Shape::Absent
}

/// The entry that converting `dep` edits in the manifest `text`: none where
/// its kind has no table there.
pub open spec fn edited_entry(text: Seq<char>, dep: DependencyView) -> Option<Seq<Seq<char>>> {
    match table_name(dep.kind) {
        Some(t) => if table_like(text_shape(text, seq![t])) {
            Some(seq![t, dep.name])
        } else {
            None
        },
        None => None,
    }
}

/// The manifest parses, and no kind's table holds a value where a table belongs.
pub open spec fn member_ok(text: Seq<char>, deps: Seq<DependencyView>) -> bool {
    &&& is_toml(text)
    &&& forall|i: int|
        0 <= i < deps.len() ==> match table_name((#[trigger] deps[i]).kind) {
            Some(t) => text_shape(text, seq![t]) != Shape::Other,
            None => true,
        }
}

/// `d` is `text` with every edited entry converted, and the same elsewhere.
pub open spec fn member_edited(text: Seq<char>, deps: Seq<DependencyView>, d: DocumentMut) -> bool {
    &&& forall|i: int|
        0 <= i < deps.len() && edited_entry(text, #[trigger] deps[i]) is Some ==> marked(
            d,
            edited_entry(text, deps[i])->0,
        )
    &&& forall|q: Seq<Seq<char>>|
        (forall|i: int|
            0 <= i < deps.len() && edited_entry(text, #[trigger] deps[i]) is Some ==> !is_prefix(
                edited_entry(text, deps[i])->0,
                q,
            )) ==> #[trigger] holds_text(d, text, q)
}

/// `m` is what converting `deps` in the manifest `text` writes: the text
/// itself where every entry to edit is marked as shared already, so that
/// converting a second time changes nothing.
pub open spec fn member_modified(text: Seq<char>, deps: Seq<DependencyView>, m: Seq<char>) -> bool {
    if forall|i: int|
        0 <= i < deps.len() ==> (#[trigger] edited_entry(text, deps[i]) matches Some(e) ==> text_marked(text, e)) {
        m == text
    } else {
        exists|d: DocumentMut| m == doc_text(d) && member_edited(text, deps, d)
    }
}

/// Converts the entries of `deps` in one member manifest. Kinds whose table
/// the manifest lacks are passed over; a kind's table that holds a value is
/// an error. The text stays as it was where no entry was converted.
pub fn update_member(manifest: &ManifestText, deps: &Vec<Dependency>, dotted: bool) -> (r: Result<
    FileChange,
    DiffError,
>)
    ensures
        r is Ok <==> member_ok(manifest.text@, dep_views(deps@)),
        match r {
            Ok(c) => {
                &&& c.path@ == manifest.path@
                &&& c.original@ == manifest.text@
                &&& member_modified(manifest.text@, dep_views(deps@), c.modified@)
            },
            Err(DiffError::Parse(p)) => p@ == manifest.path@ && !is_toml(manifest.text@),
            Err(DiffError::NotATable(p, loc)) => p@ == manifest.path@ && text_shape(
                manifest.text@,
                seq![loc@],
            ) == Shape::Other,
            Err(DiffError::MissingManifest(_)) => false,
        },
{
    let ghost text = manifest.text@;
    let ghost dv = dep_views(deps@);
    let mut doc = match parse_document(manifest.text.as_str()) {
        Ok(d) => d,
        Err(_) => {
            return Err(DiffError::Parse(manifest.path.clone()));
        },
    };
    let ghost d0 = doc;
    let mut changed = false;
    let mut i: usize = 0;
    while i < deps.len()
        invariant
            i <= deps.len(),
            dv == dep_views(deps@),
            is_toml(text),
            text == manifest.text@,
            forall|q: Seq<Seq<char>>| #[trigger] holds_text(d0, text, q),
            forall|j: int|
                0 <= j < i ==> match table_name((#[trigger] dv[j]).kind) {
                    Some(t) => text_shape(text, seq![t]) != Shape::Other,
                    None => true,
                },
            forall|j: int|
                0 <= j < i && edited_entry(text, #[trigger] dv[j]) is Some ==> marked(
                    doc,
                    edited_entry(text, dv[j])->0,
                ),
            forall|q: Seq<Seq<char>>|
                (forall|j: int|
                    0 <= j < i && edited_entry(text, #[trigger] dv[j]) is Some ==> !is_prefix(
                        edited_entry(text, dv[j])->0,
                        q,
                    )) ==> #[trigger] same_at(d0, doc, q),
            !changed ==> doc == d0,
            !changed ==> forall|j: int|
                0 <= j < i ==> (#[trigger] edited_entry(text, dv[j]) matches Some(e) ==> text_marked(
                    text,
                    e,
                )),
            changed ==> exists|j: int|
                0 <= j < i && (#[trigger] edited_entry(text, dv[j]) matches Some(e) && !text_marked(
                    text,
                    e,
                )),
        decreases deps.len() - i,
    {
        let dep = &deps[i];
        assert(dv[i as int] == dep@);
        let ghost before = doc;
        if let Some(tn) = dependency_table(dep.kind) {
            let mut tp: Vec<String> = Vec::new();
            tp.push(tn.to_owned());
            let ghost tv = views(tp@);
            assert(tv =~= seq![tn@]);
            assert(same_at(d0, doc, tv));
            assert(holds_text(d0, text, tv));
            let s = shape_of(&doc, &tp);
            if s == Shape::Other {
                return Err(DiffError::NotATable(manifest.path.clone(), tn.to_owned()));
            }
            if is_table_like(s) {
                let ghost e = tv.push(dep.name@);
                assert(e =~= seq![tn@, dep.name@]);
                assert(edited_entry(text, dv[i as int]) == Some(e));
                let mut entry = copy_strings(&tp);
                entry.push(dep.name.clone());
                assert(views(entry@) =~= e);
                proof {
                    assert(holds_text(d0, text, e));
                    assert(holds_text(d0, text, e.push("workspace"@)));
                    assert(holds_text(d0, text, e.push("version"@)));
                    assert(holds_text(d0, text, e.push("default-features"@)));
                }
                if !is_marked(&doc, &entry) {
                    update_dependency(&mut doc, &tp, dep.name.as_str(), dotted);
                    proof {
                        lemma_converted_marked(doc, e);
                    }
                    assert forall|j: int|
                        0 <= j <= i && edited_entry(text, #[trigger] dv[j]) is Some implies marked(
                        doc,
                        edited_entry(text, dv[j])->0,
                    ) by {
                        let f = edited_entry(text, dv[j])->0;
                        if j < i && f != e {
                            assert forall|q: Seq<Seq<char>>| is_prefix(f, q) implies #[trigger] same_at(
                                before,
                                doc,
                                q,
                            ) by {
                                if is_prefix(e, q) {
                                    lemma_two_prefixes(e, f, q);
                                }
                            };
                            lemma_marked_transfer(before, doc, f);
                        }
                    };
                    changed = true;
                }
            } else {
                assert(edited_entry(text, dv[i as int]) is None);
            }
        } else {
            assert(edited_entry(text, dv[i as int]) is None);
        }
        i = i + 1;
        assert forall|q: Seq<Seq<char>>|
            (forall|j: int|
                0 <= j < i && edited_entry(text, #[trigger] dv[j]) is Some ==> !is_prefix(
                    edited_entry(text, dv[j])->0,
                    q,
                )) implies #[trigger] same_at(d0, doc, q) by {
            assert(same_at(d0, before, q));
            if edited_entry(text, dv[i - 1]) is Some {
                assert(same_at(before, doc, q));
            }
        };
    }
    let modified = if changed {
        render_document(&doc)
    } else {
        manifest.text.clone()
    };
    proof {
        if changed {
            assert forall|q: Seq<Seq<char>>|
                (forall|j: int|
                    0 <= j < dv.len() && edited_entry(text, #[trigger] dv[j]) is Some ==> !is_prefix(
                        edited_entry(text, dv[j])->0,
                        q,
                    )) implies #[trigger] holds_text(doc, text, q) by {
                assert(holds_text(d0, text, q));
                assert(same_at(d0, doc, q));
            };
            assert(member_edited(text, dv, doc));
        }
    }
    Ok(FileChange { path: manifest.path.clone(), original: manifest.text.clone(), modified })
}

proof fn lemma_two_prefixes(a: Seq<Seq<char>>, b: Seq<Seq<char>>, q: Seq<Seq<char>>)
    requires
        is_prefix(a, q),
        is_prefix(b, q),
        a.len() == b.len(),
    ensures
        a == b,
{
}

proof fn lemma_push_prefix_eq(p: Seq<Seq<char>>, m: Seq<char>, n: Seq<char>)
    requires
        is_prefix(p.push(m), p.push(n)),
    ensures
        m == n,
{
    assert(p.push(n).subrange(0, p.len() + 1 as int) =~= p.push(n));
    assert(p.push(m)[p.len() as int] == m);
    assert(p.push(n)[p.len() as int] == n);
}

proof fn lemma_push_differs(p: Seq<Seq<char>>, m: Seq<char>, n: Seq<char>)
    requires
        m != n,
    ensures
        p.push(m) != p.push(n),
{
    assert(p.push(m)[p.len() as int] == m);
    assert(p.push(n)[p.len() as int] == n);
}

/// Takes each name of `remove` out of the table-like item at `parent`, and
/// tells whether any of them was there.
fn remove_shared(doc: &mut DocumentMut, parent: &Vec<String>, remove: &Vec<String>) -> (r: bool)
    requires
        table_like(shape_at(*old(doc), views(parent@))),
    ensures
        forall|j: int|
            0 <= j < remove@.len() ==> shape_at(*final(doc), views(parent@).push((#[trigger] remove@[j])@))
                == Shape::Absent,
        same_outside(*old(doc), *final(doc), views(parent@)),
        same_at(*old(doc), *final(doc), views(parent@)),
        forall|n: Seq<char>|
            !views(remove@).contains(n) ==> #[trigger] same_at(
                *old(doc),
                *final(doc),
                views(parent@).push(n),
            ),
        !r ==> forall|j: int|
            0 <= j < remove@.len() ==> shape_at(*old(doc), views(parent@).push((#[trigger] remove@[j])@))
                == Shape::Absent,
        r ==> exists|j: int|
            0 <= j < remove@.len() && shape_at(*old(doc), views(parent@).push((#[trigger] remove@[j])@))
                != Shape::Absent,
        forall|q: Seq<Seq<char>>|
            is_prefix(views(parent@), q) && !(q.len() > views(parent@).len() && views(remove@).contains(
                q[views(parent@).len() as int],
            )) ==> #[trigger] same_at(*old(doc), *final(doc), q),
{
    let ghost p = views(parent@);
    let ghost d0 = *doc;
    let mut changed = false;
    let mut i: usize = 0;
    while i < remove.len()
        invariant
            i <= remove.len(),
            p == views(parent@),
            table_like(shape_at(d0, p)),
            forall|j: int|
                0 <= j < i ==> shape_at(*doc, p.push((#[trigger] remove@[j])@)) == Shape::Absent,
            forall|q: Seq<Seq<char>>|
                (forall|j: int| 0 <= j < i ==> !is_prefix(p.push((#[trigger] remove@[j])@), q))
                    ==> #[trigger] same_at(d0, *doc, q),
            !changed ==> forall|j: int|
                0 <= j < i ==> shape_at(d0, p.push((#[trigger] remove@[j])@)) == Shape::Absent,
            changed ==> exists|j: int|
                0 <= j < i && shape_at(d0, p.push((#[trigger] remove@[j])@)) != Shape::Absent,
        decreases remove.len() - i,
    {
        let ghost before = *doc;
        let ghost n = remove@[i as int]@;
        assert(same_at(d0, before, p)) by {
            assert forall|j: int| 0 <= j < i implies !is_prefix(p.push((#[trigger] remove@[j])@), p) by {
                lemma_prefix_self(p, remove@[j]@);
            };
        };
        let found = remove_key(doc, parent, remove[i].as_str());
        proof {
            if found && !changed {
                let allowed = forall|j: int| 0 <= j < i ==> !is_prefix(p.push((#[trigger] remove@[j])@), p.push(n));
                if allowed {
                    assert(same_at(d0, before, p.push(n)));
                    assert(shape_at(d0, p.push(remove@[i as int]@)) != Shape::Absent);
                } else {
                    let j = choose|j: int| 0 <= j < i && is_prefix(p.push((#[trigger] remove@[j])@), p.push(n));
                    lemma_push_prefix_eq(p, remove@[j]@, n);
                }
            }
            if !found && !changed {
                let allowed = forall|j: int| 0 <= j < i ==> !is_prefix(p.push((#[trigger] remove@[j])@), p.push(n));
                if allowed {
                    assert(same_at(d0, before, p.push(n)));
                } else {
                    let j = choose|j: int| 0 <= j < i && is_prefix(p.push((#[trigger] remove@[j])@), p.push(n));
                    lemma_push_prefix_eq(p, remove@[j]@, n);
                }
            }
        }
        if found {
            changed = true;
        }
        i = i + 1;
        proof {
            lemma_prefix_self(p.push(n), n);
            assert(vacant(*doc, p.push(n)));
        }
        assert forall|j: int| 0 <= j < i implies shape_at(*doc, p.push((#[trigger] remove@[j])@))
            == Shape::Absent by {
            if j < i - 1 && remove@[j]@ != n {
                if is_prefix(p.push(n), p.push(remove@[j]@)) {
                    lemma_push_prefix_eq(p, n, remove@[j]@);
                }
                assert(same_at(before, *doc, p.push(remove@[j]@)));
            }
        };
        assert forall|q: Seq<Seq<char>>|
            (forall|j: int| 0 <= j < i ==> !is_prefix(p.push((#[trigger] remove@[j])@), q))
                implies #[trigger] same_at(d0, *doc, q) by {
            assert(!is_prefix(p.push(remove@[i - 1]@), q));
            assert(same_at(d0, before, q));
            assert(same_at(before, *doc, q));
        };
    }
    assert forall|q: Seq<Seq<char>>| !is_prefix(p, q) implies #[trigger] same_at(d0, *doc, q) by {
        assert forall|j: int| 0 <= j < i implies !is_prefix(p.push((#[trigger] remove@[j])@), q) by {
            if is_prefix(p.push(remove@[j]@), q) {
                lemma_prefix_push(p, remove@[j]@, q);
            }
        };
    };
    assert forall|j: int| 0 <= j < i implies !is_prefix(p.push((#[trigger] remove@[j])@), p) by {
        lemma_prefix_self(p, remove@[j]@);
    };
    assert forall|q: Seq<Seq<char>>|
        is_prefix(p, q) && !(q.len() > p.len() && views(remove@).contains(q[p.len() as int])) implies #[trigger] same_at(
        d0,
        *doc,
        q,
    ) by {
        assert forall|j: int| 0 <= j < i implies !is_prefix(p.push((#[trigger] remove@[j])@), q) by {
            if is_prefix(p.push(remove@[j]@), q) {
                lemma_prefix_push(p, remove@[j]@, q);
                assert(views(remove@)[j] == q[p.len() as int]);
            }
        };
    };
    assert forall|n: Seq<char>| !views(remove@).contains(n) implies #[trigger] same_at(
        d0,
        *doc,
        p.push(n),
    ) by {
        assert forall|j: int| 0 <= j < i implies !is_prefix(p.push((#[trigger] remove@[j])@), p.push(n)) by {
            if is_prefix(p.push(remove@[j]@), p.push(n)) {
                lemma_push_prefix_eq(p, remove@[j]@, n);
                assert(views(remove@)[j] == n);
            }
        };
    };
    changed
}

/// Writes into the table at `parent` the merged declaration of each addition.
fn add_shared(doc: &mut DocumentMut, parent: &Vec<String>, add: &Vec<(String, Vec<MemberDependency>)>)
    requires
        shape_at(*old(doc), views(parent@)) == Shape::Table,
        strictly_sorted(addition_keys(add@)),
    ensures
        same_outside(*old(doc), *final(doc), views(parent@)),
        same_at(*old(doc), *final(doc), views(parent@)),
        forall|n: Seq<char>|
            !addition_keys(add@).contains(n) ==> #[trigger] same_at(
                *old(doc),
                *final(doc),
                views(parent@).push(n),
            ),
        forall|t: int|
            0 <= t < add@.len() && (#[trigger] add@[t]).1@.len() > 0 ==> merged_written(
                *final(doc),
                views(parent@).push(add@[t].0@),
                record_views(add@[t].1@),
            ),
        forall|q: Seq<Seq<char>>|
            is_prefix(views(parent@), q) && !(q.len() > views(parent@).len() && addition_keys(add@).contains(
                q[views(parent@).len() as int],
            )) ==> #[trigger] same_at(*old(doc), *final(doc), q),
{
    let ghost p = views(parent@);
    let ghost keys = addition_keys(add@);
    let ghost d0 = *doc;
    let mut t: usize = 0;
    while t < add.len()
        invariant
            t <= add.len(),
            p == views(parent@),
            keys == addition_keys(add@),
            strictly_sorted(keys),
            shape_at(d0, p) == Shape::Table,
            forall|q: Seq<Seq<char>>|
                (forall|s: int| 0 <= s < t ==> !is_prefix(p.push(#[trigger] keys[s]), q))
                    ==> #[trigger] same_at(d0, *doc, q),
            forall|s: int|
                0 <= s < t && (#[trigger] add@[s]).1@.len() > 0 ==> merged_written(
                    *doc,
                    p.push(add@[s].0@),
                    record_views(add@[s].1@),
                ),
        decreases add.len() - t,
    {
        let ghost before = *doc;
        assert(keys[t as int] == add@[t as int].0@);
        assert(same_at(d0, before, p)) by {
            assert forall|s: int| 0 <= s < t implies !is_prefix(p.push(#[trigger] keys[s]), p) by {
                lemma_prefix_self(p, keys[s]);
            };
        };
        let ghost pt = p.push(keys[t as int]);
        if let Some(decl) = merge_declarations(&add[t].1) {
            write_declaration(doc, parent, add[t].0.as_str(), &decl);
            proof {
                let rs = record_views(add@[t as int].1@);
                assert(views(decl.features@).to_set() == feature_union(rs));
                lemma_sorted_of(views(decl.features@));
                assert(rs[0] == add@[t as int].1@[0]@);
            }
        }
        proof {
            assert forall|s: int|
                0 <= s < t + 1 && (#[trigger] add@[s]).1@.len() > 0 implies merged_written(
                *doc,
                p.push(add@[s].0@),
                record_views(add@[s].1@),
            ) by {
                if s < t {
                    assert(keys[s] == add@[s].0@);
                    assert(name_lt(keys[s], keys[t as int]));
                    crate::names::lemma_lt_irreflexive(keys[s]);
                    lemma_push_differs(p, keys[s], keys[t as int]);
                    let ps = p.push(keys[s]);
                    let rs = record_views(add@[s].1@);
                    assert forall|q: Seq<Seq<char>>| is_prefix(ps, q) implies #[trigger] same_at(
                        before,
                        *doc,
                        q,
                    ) by {
                        if is_prefix(pt, q) {
                            lemma_two_prefixes(ps, pt, q);
                        }
                    };
                    lemma_written_transfer(
                        before,
                        *doc,
                        ps,
                        rs[0].dependency.req,
                        all_use_defaults(rs),
                        sorted_of(feature_union(rs)),
                    );
                }
            };
        }
        t = t + 1;
        assert forall|q: Seq<Seq<char>>|
            (forall|s: int| 0 <= s < t ==> !is_prefix(p.push(#[trigger] keys[s]), q))
                implies #[trigger] same_at(d0, *doc, q) by {
            assert(!is_prefix(p.push(keys[t - 1]), q));
            assert(same_at(d0, before, q));
            assert(same_at(before, *doc, q));
        };
    }
    assert forall|q: Seq<Seq<char>>| !is_prefix(p, q) implies #[trigger] same_at(d0, *doc, q) by {
        assert forall|s: int| 0 <= s < t implies !is_prefix(p.push(#[trigger] keys[s]), q) by {
            if is_prefix(p.push(keys[s]), q) {
                lemma_prefix_push(p, keys[s], q);
            }
        };
    };
    assert forall|s: int| 0 <= s < t implies !is_prefix(p.push(#[trigger] keys[s]), p) by {
        lemma_prefix_self(p, keys[s]);
    };
    assert forall|q: Seq<Seq<char>>|
        is_prefix(p, q) && !(q.len() > p.len() && keys.contains(q[p.len() as int])) implies #[trigger] same_at(
        d0,
        *doc,
        q,
    ) by {
        assert forall|s: int| 0 <= s < t implies !is_prefix(p.push(#[trigger] keys[s]), q) by {
            if is_prefix(p.push(keys[s]), q) {
                lemma_prefix_push(p, keys[s], q);
            }
        };
    };
    assert forall|n: Seq<char>| !keys.contains(n) implies #[trigger] same_at(d0, *doc, p.push(n)) by {
        assert forall|s: int| 0 <= s < t implies !is_prefix(p.push(#[trigger] keys[s]), p.push(n)) by {
            if is_prefix(p.push(keys[s]), p.push(n)) {
                lemma_push_prefix_eq(p, keys[s], n);
            }
        };
    };
}

fn find_manifest(members: &Vec<ManifestText>, path: &String) -> (r: Option<usize>)
    ensures
        match r {
            Some(i) => first_text(members@, path@, i as int),
            None => forall|i: int| 0 <= i < members@.len() ==> (#[trigger] members@[i]).path@ != path@,
        },
{
    let mut i: usize = 0;
    while i < members.len()
        invariant
            i <= members.len(),
            forall|k: int| 0 <= k < i ==> (#[trigger] members@[k]).path@ != path@,
        decreases members.len() - i,
    {
        if members[i].path == *path {
            return Some(i);
        }
        i = i + 1;
    }
    None
}

/// The root manifest parses, and `workspace` and `workspace.dependencies`
/// hold no value where a table belongs; where there is something to add,
/// neither is an inline table either.
pub open spec fn root_ok(text: Seq<char>, adding: bool) -> bool {
    &&& is_toml(text)
    &&& text_shape(text, ws_path()) != Shape::Other
    &&& text_shape(text, deps_path()) != Shape::Other
    &&& adding ==> text_shape(text, ws_path()) != Shape::InlineTable && text_shape(text, deps_path())
        != Shape::InlineTable
}

/// Every manifest parses and has tables where tables belong, and each
/// touched member has a text.
pub open spec fn edits_succeed(
    add: Seq<(String, Vec<MemberDependency>)>,
    root: ManifestText,
    members: Seq<ManifestText>,
) -> bool {
    &&& root_ok(root.text@, add.len() > 0)
    &&& forall|p: Seq<char>| #[trigger] touched_paths(add).contains(p) ==> member_path_ok(add, members, p)
}

/// The first text given for `p` exists and can be edited.
pub open spec fn member_path_ok(
    add: Seq<(String, Vec<MemberDependency>)>,
    members: Seq<ManifestText>,
    p: Seq<char>,
) -> bool {
    exists|i: int| #[trigger] first_text(members, p, i) && member_ok(members[i].text@, edits_at(add, p))
}

/// `members[i]` is the first text given for `p`.
pub open spec fn first_text(members: Seq<ManifestText>, p: Seq<char>, i: int) -> bool {
    &&& 0 <= i < members.len()
    &&& members[i].path@ == p
    &&& forall|j: int| 0 <= j < i ==> (#[trigger] members[j]).path@ != p
}

/// Nothing to do in the root: no addition, and no name of `remove` in the shared table.
pub open spec fn root_unchanged(text: Seq<char>, add: Seq<(String, Vec<MemberDependency>)>, remove: Seq<String>) -> bool {
    &&& add.len() == 0
    &&& table_like(text_shape(text, deps_path())) ==> forall|j: int|
        0 <= j < remove.len() ==> text_shape(text, deps_path().push((#[trigger] remove[j])@))
            == Shape::Absent
}

/// `d` is the root `text` with the removals gone from the shared table and
/// the additions written into it (the table is created where missing), and
/// the same outside `[workspace]`.
pub open spec fn root_edited(
    text: Seq<char>,
    add: Seq<(String, Vec<MemberDependency>)>,
    remove: Seq<String>,
    d: DocumentMut,
) -> bool {
    &&& forall|q: Seq<Seq<char>>| !is_prefix(ws_path(), q) ==> #[trigger] holds_text(d, text, q)
    &&& table_like(text_shape(text, ws_path())) ==> forall|q: Seq<Seq<char>>|
        is_prefix(ws_path(), q) && !is_prefix(deps_path(), q) ==> #[trigger] holds_text(d, text, q)
    &&& table_like(text_shape(text, ws_path())) && table_like(text_shape(text, deps_path())) ==> forall|
        q: Seq<Seq<char>>,
    |
        is_prefix(deps_path(), q) && !(q.len() > 2 && (views(remove).contains(q[2]) || addition_keys(
            add,
        ).contains(q[2]))) ==> #[trigger] holds_text(d, text, q)
    &&& !table_like(text_shape(text, deps_path())) && add.len() > 0 ==> forall|n: Seq<char>|
        !addition_keys(add).contains(n) ==> #[trigger] shape_at(d, deps_path().push(n)) == Shape::Absent
    &&& add.len() > 0 ==> shape_at(d, deps_path()) == Shape::Table
    &&& add.len() == 0 ==> shape_at(d, deps_path()) == text_shape(text, deps_path())
    &&& forall|j: int|
        0 <= j < remove.len() && !addition_keys(add).contains((#[trigger] remove[j])@) && (add.len() > 0
            || table_like(text_shape(text, deps_path()))) ==> shape_at(d, deps_path().push(remove[j]@))
            == Shape::Absent
    &&& forall|t: int|
        0 <= t < add.len() && (#[trigger] add[t]).1@.len() > 0 ==> merged_written(
            d,
            deps_path().push(add[t].0@),
            record_views(add[t].1@),
        )
}

/// Edits the root manifest: the names of `remove` leave the shared table
/// `[workspace.dependencies]`, and each addition enters it as the merge of
/// its members' declarations. Gives the new text.
fn edit_root(
    root: &ManifestText,
    add: &Vec<(String, Vec<MemberDependency>)>,
    remove: &Vec<String>,
) -> (r: Result<String, DiffError>)
    requires
        strictly_sorted(addition_keys(add@)),
    ensures
        r is Ok <==> root_ok(root.text@, add@.len() > 0),
        match r {
            Ok(m) => {
                &&& root_unchanged(root.text@, add@, remove@) ==> m@ == root.text@
                &&& !root_unchanged(root.text@, add@, remove@) ==> exists|d: DocumentMut|
                    m@ == doc_text(d) && root_edited(root.text@, add@, remove@, d)
            },
            Err(DiffError::Parse(p)) => p@ == root.path@,
            Err(DiffError::NotATable(p, _)) => p@ == root.path@,
            Err(DiffError::MissingManifest(_)) => false,
        },
{
    let ghost text = root.text@;
    let mut doc = match parse_document(root.text.as_str()) {
        Ok(d) => d,
        Err(_) => {
            return Err(DiffError::Parse(root.path.clone()));
        },
    };
    let ghost d0 = doc;
    proof {
        lemma_keys_distinct();
        lemma_prefix_self(ws_path(), "dependencies"@);
        assert(holds_text(d0, text, ws_path()));
        assert(holds_text(d0, text, deps_path()));
    }
    let top: Vec<String> = Vec::new();
    let mut ws: Vec<String> = Vec::new();
    ws.push("workspace".to_owned());
    let mut wd = copy_strings(&ws);
    wd.push("dependencies".to_owned());
    assert(views(top@) =~= Seq::<Seq<char>>::empty());
    assert(views(ws@) =~= ws_path());
    assert(views(wd@) =~= deps_path());
    assert(ws_path().push("dependencies"@) =~= deps_path());
    let sw = shape_of(&doc, &ws);
    if sw == Shape::Other {
        return Err(DiffError::NotATable(root.path.clone(), "workspace".to_owned()));
    }
    let sd = shape_of(&doc, &wd);
    if sd == Shape::Other {
        return Err(DiffError::NotATable(root.path.clone(), "workspace.dependencies".to_owned()));
    }
    if add.len() > 0 && sw == Shape::InlineTable {
        return Err(DiffError::NotATable(root.path.clone(), "workspace".to_owned()));
    }
    if add.len() > 0 && sd == Shape::InlineTable {
        return Err(DiffError::NotATable(root.path.clone(), "workspace.dependencies".to_owned()));
    }
    let mut changed = false;
    if is_table_like(sd) {
        changed = remove_shared(&mut doc, &wd, remove);
    }
    assert forall|j: int| 0 <= j < remove@.len() implies #[trigger] holds_text(
        d0,
        text,
        deps_path().push(remove@[j]@),
    ) by {};
    let ghost d1 = doc;
    // After the removals: outside the shared table all is as parsed, and the
    // removed names are gone where the table was there.
    assert forall|q: Seq<Seq<char>>| !is_prefix(ws_path(), q) implies #[trigger] same_at(d0, d1, q) by {
        if is_prefix(deps_path(), q) {
            lemma_prefix_push(ws_path(), "dependencies"@, q);
        }
    };
    assert(same_at(d0, d1, deps_path()));
    assert(same_at(d0, d1, ws_path()));
    assert(same_at(d0, d1, Seq::<Seq<char>>::empty()));
    if add.len() > 0 {
        if sw == Shape::Absent {
            insert_table(&mut doc, &top, "workspace");
            let ghost m = doc;
            assert(Seq::<Seq<char>>::empty().push("workspace"@) =~= ws_path());
            insert_table(&mut doc, &ws, "dependencies");
            assert forall|q: Seq<Seq<char>>| !is_prefix(ws_path(), q) implies #[trigger] same_at(
                d1,
                doc,
                q,
            ) by {
                if is_prefix(deps_path(), q) {
                    lemma_prefix_push(ws_path(), "dependencies"@, q);
                }
                assert(same_at(d1, m, q));
                assert(same_at(m, doc, q));
            };
            assert forall|n: Seq<char>| #[trigger] shape_at(doc, deps_path().push(n)) == Shape::Absent by {
                assert(deps_path().push(n) == ws_path().push("dependencies"@).push(n));
            };
        } else if sd == Shape::Absent {
            insert_table(&mut doc, &ws, "dependencies");
            assert forall|q: Seq<Seq<char>>| !is_prefix(ws_path(), q) implies #[trigger] same_at(
                d1,
                doc,
                q,
            ) by {
                if is_prefix(deps_path(), q) {
                    lemma_prefix_push(ws_path(), "dependencies"@, q);
                }
            };
            assert forall|q: Seq<Seq<char>>| !is_prefix(deps_path(), q) implies #[trigger] same_at(
                d1,
                doc,
                q,
            ) by {};
        }
        let ghost d2 = doc;
        assert(sw != Shape::Absent ==> forall|q: Seq<Seq<char>>|
            !is_prefix(deps_path(), q) ==> #[trigger] same_at(d1, d2, q));
        assert(sd == Shape::Absent ==> forall|n: Seq<char>| #[trigger] shape_at(d2, deps_path().push(n))
            == Shape::Absent);
        assert forall|q: Seq<Seq<char>>| !is_prefix(ws_path(), q) implies #[trigger] same_at(d1, d2, q) by {
        };
        assert(shape_at(d2, deps_path()) == Shape::Table);
        add_shared(&mut doc, &wd, add);
        changed = true;
        let ghost d3 = doc;
        proof {
            assert forall|q: Seq<Seq<char>>| !is_prefix(ws_path(), q) implies #[trigger] same_at(
                d1,
                d3,
                q,
            ) by {
                if is_prefix(deps_path(), q) {
                    lemma_prefix_push(ws_path(), "dependencies"@, q);
                }
                assert(same_at(d1, d2, q));
                assert(same_at(d2, d3, q));
            };
            assert forall|j: int|
                0 <= j < remove@.len() && !addition_keys(add@).contains((#[trigger] remove@[j])@)
                implies shape_at(d3, deps_path().push(remove@[j]@)) == Shape::Absent by {
                let n = remove@[j]@;
                assert(same_at(d2, d3, deps_path().push(n)));
                if sw != Shape::Absent && sd != Shape::Absent {
                    assert(same_at(d1, d2, deps_path().push(n)));
                }
            };
            assert forall|q: Seq<Seq<char>>|
                table_like(text_shape(text, ws_path())) && is_prefix(ws_path(), q) && !is_prefix(
                    deps_path(),
                    q,
                ) implies #[trigger] holds_text(d3, text, q) by {
                assert(holds_text(d0, text, q));
                assert(same_at(d0, d1, q));
                assert(same_at(d1, d2, q));
                assert(same_at(d2, d3, q));
            };
            assert forall|q: Seq<Seq<char>>|
                table_like(text_shape(text, ws_path())) && table_like(text_shape(text, deps_path()))
                    && is_prefix(deps_path(), q) && !(q.len() > 2 && (views(remove@).contains(q[2])
                    || addition_keys(add@).contains(q[2]))) implies #[trigger] holds_text(d3, text, q) by {
                assert(holds_text(d0, text, q));
                assert(same_at(d0, d1, q));
                assert(same_at(d2, d3, q));
            };
            assert forall|n: Seq<char>|
                !table_like(text_shape(text, deps_path())) && !addition_keys(add@).contains(n) implies #[trigger] shape_at(
                d3,
                deps_path().push(n),
            ) == Shape::Absent by {
                assert(same_at(d2, d3, deps_path().push(n)));
            };
        }
    }
    proof {
        if add@.len() == 0 {
            assert forall|q: Seq<Seq<char>>|
                table_like(text_shape(text, ws_path())) && is_prefix(ws_path(), q) && !is_prefix(
                    deps_path(),
                    q,
                ) implies #[trigger] holds_text(doc, text, q) by {
                assert(holds_text(d0, text, q));
                assert(same_at(d0, d1, q));
            };
            assert forall|q: Seq<Seq<char>>|
                table_like(text_shape(text, ws_path())) && table_like(text_shape(text, deps_path()))
                    && is_prefix(deps_path(), q) && !(q.len() > 2 && (views(remove@).contains(q[2])
                    || addition_keys(add@).contains(q[2]))) implies #[trigger] holds_text(doc, text, q) by {
                assert(holds_text(d0, text, q));
                assert(same_at(d0, d1, q));
            };
        }
    }
    let modified = if changed {
        render_document(&doc)
    } else {
        root.text.clone()
    };
    proof {
        if !root_unchanged(text, add@, remove@) && !changed {
            assert(holds_text(d0, text, deps_path()));
            let j = choose|j: int|
                0 <= j < remove@.len() && text_shape(text, deps_path().push((#[trigger] remove@[j])@))
                    != Shape::Absent;
            assert(holds_text(d0, text, deps_path().push(remove@[j]@)));
        }
        if root_unchanged(text, add@, remove@) && changed {
            let j = choose|j: int|
                0 <= j < remove@.len() && shape_at(d0, deps_path().push((#[trigger] remove@[j])@))
                    != Shape::Absent;
            assert(holds_text(d0, text, deps_path().push(remove@[j]@)));
        }
        if changed {
            assert forall|q: Seq<Seq<char>>| !is_prefix(ws_path(), q) implies #[trigger] holds_text(doc, text, q) by {
                assert(holds_text(d0, text, q));
                assert(same_at(d0, d1, q));
                assert(same_at(d1, doc, q));
            };
            assert(add@.len() > 0 ==> shape_at(doc, deps_path()) == Shape::Table);
            assert(add@.len() == 0 ==> shape_at(doc, deps_path()) == text_shape(text, deps_path()));
            assert(forall|j: int|
                0 <= j < remove@.len() && !addition_keys(add@).contains((#[trigger] remove@[j])@) && (add@.len() > 0
                    || table_like(text_shape(text, deps_path()))) ==> shape_at(doc, deps_path().push(remove@[j]@))
                    == Shape::Absent);
            assert(root_edited(text, add@, remove@, doc));
        }
    }
    Ok(modified)
}

/// Edits the root manifest and the member manifests that `add` touches: the
/// names of `remove` leave `[workspace.dependencies]`, each addition enters it
/// as the merge of its members' declarations, and the members' entries are
/// pointed at it. One change per touched member, sorted by path, then the
/// root. Nothing is returned but an error where any manifest fails.
pub fn apply_changes(
    add: &Vec<(String, Vec<MemberDependency>)>,
    remove: &Vec<String>,
    root: &ManifestText,
    members: &Vec<ManifestText>,
    dotted: bool,
) -> (r: Result<Vec<FileChange>, DiffError>)
    requires
        strictly_sorted(addition_keys(add@)),
    ensures
        r is Ok <==> edits_succeed(add@, *root, members@),
        match r {
            Ok(cs) => {
                &&& cs@.len() >= 1
                &&& cs@.last().path@ == root.path@
                &&& cs@.last().original@ == root.text@
                &&& root_unchanged(root.text@, add@, remove@) ==> cs@.last().modified@ == root.text@
                &&& !root_unchanged(root.text@, add@, remove@) ==> exists|d: DocumentMut|
                    cs@.last().modified@ == doc_text(d) && root_edited(root.text@, add@, remove@, d)
                &&& add@.len() == 0 ==> cs@.len() == 1
                &&& strictly_sorted(change_paths(cs@.drop_last()))
                &&& change_paths(cs@.drop_last()).to_set() == touched_paths(add@)
                &&& texts_from(cs@.drop_last(), members@)
                &&& forall|k: int|
                    0 <= k < cs@.len() - 1 ==> member_modified(
                        (#[trigger] cs@[k]).original@,
                        edits_at(add@, cs@[k].path@),
                        cs@[k].modified@,
                    )
            },
            Err(DiffError::Parse(p)) => p@ == root.path@ || exists|i: int|
                0 <= i < members@.len() && (#[trigger] members@[i]).path@ == p@,
            Err(DiffError::NotATable(p, _)) => p@ == root.path@ || exists|i: int|
                0 <= i < members@.len() && (#[trigger] members@[i]).path@ == p@,
            Err(DiffError::MissingManifest(p)) => touched_paths(add@).contains(p@) && forall|i: int|
                0 <= i < members@.len() ==> (#[trigger] members@[i]).path@ != p@,
        },
{
    let root_text = match edit_root(root, add, remove) {
        Ok(m) => m,
        Err(e) => {
            return Err(e);
        },
    };
    let mut changes: Vec<FileChange> = Vec::new();
    let paths = touched_manifests(add);
    let mut k: usize = 0;
    while k < paths.len()
        invariant
            k <= paths.len(),
            strictly_sorted(views(paths@)),
            views(paths@).to_set() == touched_paths(add@),
            changes@.len() == k,
            forall|m: int| 0 <= m < k ==> (#[trigger] changes@[m]).path@ == paths@[m]@,
            texts_from(changes@, members@),
            forall|m: int|
                0 <= m < k ==> member_modified(
                    (#[trigger] changes@[m]).original@,
                    edits_at(add@, changes@[m].path@),
                    changes@[m].modified@,
                ),
            forall|m: int| 0 <= m < k ==> member_path_ok(add@, members@, (#[trigger] paths@[m])@),
        decreases paths.len() - k,
    {
        let path = &paths[k];
        assert(views(paths@).to_set().contains(path@)) by {
            assert(views(paths@)[k as int] == path@);
        };
        let idx = match find_manifest(members, path) {
            Some(idx) => idx,
            None => {
                return Err(DiffError::MissingManifest(path.clone()));
            },
        };
        let deps = edits_for(add, path);
        let change = match update_member(&members[idx], &deps, dotted) {
            Ok(c) => c,
            Err(e) => {
                proof {
                    let p = path@;
                    assert(!member_ok(members@[idx as int].text@, edits_at(add@, p)));
                    assert(touched_paths(add@).contains(p));
                    if member_path_ok(add@, members@, p) {
                        let i = choose|i: int| #[trigger] first_text(members@, p, i) && member_ok(members@[i].text@, edits_at(add@, p));
                        if i < idx {
                            assert(members@[i].path@ != p);
                        } else if i > idx {
                            assert(members@[idx as int].path@ != p);
                        }
                    }
                }
                return Err(e);
            },
        };
        let ghost prev = changes@;
        changes.push(change);
        assert forall|m: int| 0 <= m < changes@.len() implies exists|i: int|
            0 <= i < members@.len() && (#[trigger] members@[i]).path@ == (
            #[trigger] changes@[m]).path@ && members@[i].text@ == changes@[m].original@ by {
            if m < k {
                assert(changes@[m] == prev[m]);
            } else {
                assert(members@[idx as int].path@ == changes@[m].path@);
            }
        };
        proof {
            assert(first_text(members@, paths@[k as int]@, idx as int));
            assert(member_path_ok(add@, members@, paths@[k as int]@));
        }
        k = k + 1;
    }
    assert(change_paths(changes@) =~= views(paths@));
    let ghost before = changes@;
    changes.push(FileChange { path: root.path.clone(), original: root.text.clone(), modified: root_text });
    assert(changes@.drop_last() =~= before);
    proof {
        assert forall|p: Seq<char>| #[trigger] touched_paths(add@).contains(p) implies member_path_ok(
            add@,
            members@,
            p,
        ) by {
            assert(views(paths@).to_set().contains(p));
            let m = choose|m: int| 0 <= m < views(paths@).len() && views(paths@)[m] == p;
            assert(paths@[m]@ == p);
        };
        if add@.len() == 0 {
            assert(touched_paths(add@) =~= Set::empty());
            if paths@.len() > 0 {
                assert(views(paths@).to_set().contains(views(paths@)[0]));
            }
        }
    }
    Ok(changes)
}

/// Renders the patch that applies the partition (`add`, `remove`) to the
/// root manifest and the member manifests: one section per touched member,
/// sorted by path, then one for the root. Where both are empty, the patch
/// is the root's section alone, with no hunk.
pub fn generate_diff(
    add: &Vec<(String, Vec<MemberDependency>)>,
    remove: &Vec<String>,
    root: &ManifestText,
    members: &Vec<ManifestText>,
    workspace_root: &str,
    dotted: bool,
) -> (r: Result<RenderedPatch, DiffError>)
    requires
        strictly_sorted(addition_keys(add@)),
    ensures
        r is Ok <==> edits_succeed(add@, *root, members@),
        match r {
            Ok(p) => exists|cs: Seq<FileChange>|
                {
                    &&& cs.len() >= 1
                    &&& cs.last().path@ == root.path@
                    &&& cs.last().original@ == root.text@
                    &&& root_unchanged(root.text@, add@, remove@) ==> cs.last().modified@ == root.text@
                    &&& !root_unchanged(root.text@, add@, remove@) ==> exists|d: DocumentMut|
                        cs.last().modified@ == doc_text(d) && root_edited(root.text@, add@, remove@, d)
                    &&& add@.len() == 0 ==> cs.len() == 1
                    &&& strictly_sorted(change_paths(cs.drop_last()))
                    &&& change_paths(cs.drop_last()).to_set() == touched_paths(add@)
                    &&& texts_from(cs.drop_last(), members@)
                    &&& forall|k: int|
                        0 <= k < cs.len() - 1 ==> member_modified(
                            (#[trigger] cs[k]).original@,
                            edits_at(add@, cs[k].path@),
                            cs[k].modified@,
                        )
                    &&& p.hunk_counts@.len() == cs.len()
                    &&& forall|k: int|
                        0 <= k < cs.len() ==> p.hunk_counts@[k] == section_hunks(#[trigger] cs[k])
                    &&& p.text@ == rendered_text(cs, workspace_root@)
                },
            Err(DiffError::Parse(p)) => p@ == root.path@ || exists|i: int|
                0 <= i < members@.len() && (#[trigger] members@[i]).path@ == p@,
            Err(DiffError::NotATable(p, _)) => p@ == root.path@ || exists|i: int|
                0 <= i < members@.len() && (#[trigger] members@[i]).path@ == p@,
            Err(DiffError::MissingManifest(p)) => touched_paths(add@).contains(p@) && forall|i: int|
                0 <= i < members@.len() ==> (#[trigger] members@[i]).path@ != p@,
        },
{
    let changes = match apply_changes(add, remove, root, members, dotted) {
        Ok(cs) => cs,
        Err(e) => {
            return Err(e);
        },
    };
    let rendered = render_changes(&changes, workspace_root);
    Ok(rendered)
}

/// With nothing to add and nothing to remove, the root keeps its text.
pub proof fn lemma_empty_partition_keeps_root(
    text: Seq<char>,
    add: Seq<(String, Vec<MemberDependency>)>,
    remove: Seq<String>,
)
    requires
        add.len() == 0,
        remove.len() == 0,
    ensures
        root_unchanged(text, add, remove),
{
}

/// A patch of one unchanged file is that file's headers alone, with no hunk.
pub proof fn lemma_unchanged_file_patch(cs: Seq<FileChange>, base: Seq<char>)
    requires
        cs.len() == 1,
        cs[0].original@ == cs[0].modified@,
    ensures
        section_hunks(cs[0]) == 0,
        rendered_text(cs, base) == header_text(display_name(cs[0].path@, base)) + "\n"@,
{
    assert(cs.drop_last() =~= Seq::<FileChange>::empty());
    assert(rendered_text(cs.drop_last(), base) =~= Seq::<char>::empty());
    assert(rendered_text(cs, base) =~= header_text(display_name(cs[0].path@, base)) + "\n"@);
}

} // verus!
