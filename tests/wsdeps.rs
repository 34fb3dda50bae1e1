use cargo_wsdeps::diff::{
    apply_changes, dependency_table, generate_diff, touched_manifests, update_member, DiffError,
    ManifestText,
};
use cargo_wsdeps::merge::merge_declarations;
use cargo_wsdeps::names::less_than;
use cargo_wsdeps::patch::{render_changes, FileChange};
use cargo_wsdeps::show::format_changes;
use cargo_wsdeps::{partition_dependencies, Dependency, DependencyKind, MemberDependency, Package};

fn dep(name: &str, req: &str, kind: DependencyKind) -> Dependency {
    Dependency {
        name: name.to_string(),
        req: req.to_string(),
        features: Vec::new(),
        uses_default_features: true,
        kind,
        path: None,
    }
}

fn package(name: &str, deps: Vec<Dependency>) -> Package {
    Package {
        name: name.to_string(),
        manifest_path: format!("/ws/{name}/Cargo.toml"),
        dependencies: deps,
    }
}

fn names(v: &[(String, Vec<MemberDependency>)]) -> Vec<String> {
    v.iter().map(|(n, _)| n.clone()).collect()
}

fn members(v: &[MemberDependency]) -> Vec<String> {
    v.iter().map(|m| m.name.clone()).collect()
}

fn manifest(path: &str, text: &str) -> ManifestText {
    ManifestText { path: path.to_string(), text: text.to_string() }
}

const ROOT: &str = "[workspace]\nmembers = [\"a\", \"b\"]\n";
const MEMBER: &str = "[package]\nname = \"x\"\n\n[dependencies]\nserde = \"1\"\n";

#[test]
fn two_members_one_shared_dependency() {
    let ps = vec![
        package("a", vec![dep("serde", "^1", DependencyKind::Normal)]),
        package("b", vec![dep("serde", "^1", DependencyKind::Normal)]),
    ];
    let (add, remove) = partition_dependencies(&Vec::new(), &ps);
    assert_eq!(names(&add), vec!["serde"]);
    assert_eq!(members(&add[0].1), vec!["a", "b"]);
    assert!(remove.is_empty());
    assert_eq!(
        format_changes(&add, &remove),
        "Move dependencies from individual crates to [workspace.dependencies]:\n  serde: a, b\n"
    );
}

#[test]
fn already_shared_and_still_needed() {
    let ps = vec![
        package("a", vec![dep("serde", "^1", DependencyKind::Normal)]),
        package("b", vec![dep("serde", "^1", DependencyKind::Normal)]),
    ];
    let (add, remove) = partition_dependencies(&vec!["serde".to_string()], &ps);
    assert!(add.is_empty());
    assert!(remove.is_empty());
    assert_eq!(format_changes(&add, &remove), "");
}

#[test]
fn orphaned_shared_dependency() {
    let ps = vec![
        package("a", vec![dep("unused-crate", "^1", DependencyKind::Normal)]),
        package("b", vec![dep("other", "^1", DependencyKind::Normal)]),
    ];
    let (add, remove) = partition_dependencies(&vec!["unused-crate".to_string()], &ps);
    assert!(add.is_empty());
    assert_eq!(remove, vec!["unused-crate"]);
    assert_eq!(
        format_changes(&add, &remove),
        "Remove dependencies from [workspace.dependencies]:\n  unused-crate\n"
    );
    let (_, remove) = partition_dependencies(&vec!["unused-crate".to_string()], &Vec::new());
    assert_eq!(remove, vec!["unused-crate"]);
}

#[test]
fn single_member_only() {
    let ps = vec![package("a", vec![dep("foo", "^1", DependencyKind::Normal)])];
    let (add, remove) = partition_dependencies(&Vec::new(), &ps);
    assert!(add.is_empty());
    assert!(remove.is_empty());
    let root = manifest("/ws/Cargo.toml", ROOT);
    let patch = generate_diff(&add, &remove, &root, &Vec::new(), "/ws", false).unwrap();
    assert_eq!(patch.hunk_counts, vec![0]);
    assert!(!patch.text.contains("@@"));
}

#[test]
fn one_member_with_several_kinds_is_not_shared() {
    let ps = vec![
        package(
            "a",
            vec![
                dep("foo", "^1", DependencyKind::Normal),
                dep("foo", "^1", DependencyKind::Development),
                dep("foo", "^1", DependencyKind::Build),
            ],
        ),
        package("b", vec![dep("bar", "^1", DependencyKind::Normal)]),
    ];
    let (add, _) = partition_dependencies(&Vec::new(), &ps);
    assert!(add.is_empty());
}

#[test]
fn two_packages_with_one_name_count_once() {
    let ps = vec![
        package("a", vec![dep("foo", "^1", DependencyKind::Normal)]),
        package("a", vec![dep("foo", "^1", DependencyKind::Development)]),
    ];
    let (add, _) = partition_dependencies(&Vec::new(), &ps);
    assert!(add.is_empty());
}

#[test]
fn additions_and_removals_are_disjoint() {
    let ps = vec![
        package("a", vec![dep("x", "^1", DependencyKind::Normal), dep("y", "^1", DependencyKind::Normal)]),
        package("b", vec![dep("x", "^1", DependencyKind::Normal)]),
    ];
    let shared = vec!["y".to_string(), "z".to_string()];
    let (add, remove) = partition_dependencies(&shared, &ps);
    assert_eq!(names(&add), vec!["x"]);
    assert_eq!(remove, vec!["y", "z"]);
    for n in names(&add) {
        assert!(!remove.contains(&n));
    }
}

#[test]
fn partition_is_repeatable() {
    let ps = vec![
        package("b", vec![dep("x", "^1", DependencyKind::Normal), dep("w", "^2", DependencyKind::Build)]),
        package("a", vec![dep("x", "^1", DependencyKind::Development), dep("w", "^2", DependencyKind::Normal)]),
    ];
    let shared = vec!["q".to_string()];
    let (add1, remove1) = partition_dependencies(&shared, &ps);
    let (add2, remove2) = partition_dependencies(&shared, &ps);
    assert_eq!(names(&add1), names(&add2));
    for (a, b) in add1.iter().zip(add2.iter()) {
        assert_eq!(members(&a.1), members(&b.1));
    }
    assert_eq!(remove1, remove2);
}

#[test]
fn additions_sorted_by_name_and_member() {
    let ps = vec![
        package("zeta", vec![dep("tokio", "^1", DependencyKind::Normal), dep("anyhow", "^1", DependencyKind::Normal)]),
        package("alpha", vec![dep("tokio", "^1", DependencyKind::Development), dep("anyhow", "^1", DependencyKind::Normal)]),
    ];
    let shared = vec!["zz".to_string(), "aa".to_string()];
    let (add, remove) = partition_dependencies(&shared, &ps);
    assert_eq!(names(&add), vec!["anyhow", "tokio"]);
    assert_eq!(members(&add[1].1), vec!["alpha", "zeta"]);
    assert_eq!(add[1].1[0].dependency.kind, DependencyKind::Development);
    assert_eq!(add[1].1[1].manifest_path, "/ws/zeta/Cargo.toml");
    assert_eq!(remove, vec!["aa", "zz"]);
}

#[test]
fn local_dependencies_are_never_shared() {
    let mut local = dep("core", "*", DependencyKind::Normal);
    local.path = Some("/ws/core".to_string());
    let ps = vec![package("a", vec![local.clone()]), package("b", vec![local])];
    let (add, _) = partition_dependencies(&Vec::new(), &ps);
    assert!(add.is_empty());
}

#[test]
fn conflicting_declarations_merge() {
    let mut da = dep("foo", "^1.2", DependencyKind::Normal);
    da.features = vec!["x".to_string()];
    let mut db = dep("foo", "^1.0", DependencyKind::Normal);
    db.features = vec!["y".to_string()];
    db.uses_default_features = false;
    let ps = vec![package("a", vec![da]), package("b", vec![db])];
    let (add, remove) = partition_dependencies(&Vec::new(), &ps);
    let decl = merge_declarations(&add[0].1).unwrap();
    assert_eq!(decl.version, "^1.2");
    assert_eq!(decl.features, vec!["x", "y"]);
    assert!(!decl.default_features);
    assert!(merge_declarations(&Vec::new()).is_none());

    let root = manifest("/ws/Cargo.toml", ROOT);
    let texts = vec![
        manifest("/ws/a/Cargo.toml", "[package]\nname = \"a\"\n\n[dependencies]\nfoo = { version = \"1.2\", features = [\"x\"] }\n"),
        manifest("/ws/b/Cargo.toml", "[package]\nname = \"b\"\n\n[dependencies]\nfoo = { version = \"1.0\", default-features = false, features = [\"y\"] }\n"),
    ];
    let changes = apply_changes(&add, &remove, &root, &texts, false).unwrap();
    assert_eq!(changes.len(), 3);
    let root_after = &changes[2].modified;
    assert!(root_after.contains("[workspace.dependencies]"));
    assert!(root_after.contains("foo = { version = \"^1.2\", default-features = false, features = [\"x\", \"y\"] }"));
    assert!(changes[0].modified.contains("foo = { features = [\"x\"], workspace = true }"));
    assert!(changes[1].modified.contains("foo = { features = [\"y\"], workspace = true }"));
}

#[test]
fn plain_declaration_is_a_version_string() {
    let ps = vec![
        package("a", vec![dep("serde", "^1", DependencyKind::Normal)]),
        package("b", vec![dep("serde", "^1", DependencyKind::Normal)]),
    ];
    let (add, remove) = partition_dependencies(&Vec::new(), &ps);
    let root = manifest("/ws/Cargo.toml", ROOT);
    let texts = vec![manifest("/ws/a/Cargo.toml", MEMBER), manifest("/ws/b/Cargo.toml", MEMBER)];
    let changes = apply_changes(&add, &remove, &root, &texts, false).unwrap();
    assert_eq!(changes[2].path, "/ws/Cargo.toml");
    assert!(changes[2].modified.contains("serde = \"^1\""));
    assert!(changes[0].modified.contains("serde = { workspace = true }"));
    assert_eq!(touched_manifests(&add), vec!["/ws/a/Cargo.toml", "/ws/b/Cargo.toml"]);
}

#[test]
fn dotted_member_entries() {
    let ps = vec![
        package("a", vec![dep("serde", "^1", DependencyKind::Normal)]),
        package("b", vec![dep("serde", "^1", DependencyKind::Normal)]),
    ];
    let (add, remove) = partition_dependencies(&Vec::new(), &ps);
    let root = manifest("/ws/Cargo.toml", ROOT);
    let texts = vec![manifest("/ws/a/Cargo.toml", MEMBER), manifest("/ws/b/Cargo.toml", MEMBER)];
    let changes = apply_changes(&add, &remove, &root, &texts, true).unwrap();
    assert!(changes[0].modified.contains("serde.workspace = true"));
}

#[test]
fn untouched_file_round_trips() {
    let root = manifest("/ws/Cargo.toml", "# keep\n[workspace]\nmembers = [ \"a\" ]   # spacing\n");
    let changes = apply_changes(&Vec::new(), &Vec::new(), &root, &Vec::new(), false).unwrap();
    assert_eq!(changes.len(), 1);
    assert_eq!(changes[0].original, changes[0].modified);
    let patch = render_changes(&changes, "/ws");
    assert_eq!(patch.hunk_counts, vec![0]);
}

#[test]
fn no_op_patch_has_no_hunks() {
    let root = manifest("/ws/Cargo.toml", ROOT);
    let patch = generate_diff(&Vec::new(), &Vec::new(), &root, &Vec::new(), "/ws", false).unwrap();
    assert_eq!(patch.hunk_counts, vec![0]);
    assert_eq!(patch.text, "diff --git a/Cargo.toml b/Cargo.toml\n--- a/Cargo.toml\n+++ b/Cargo.toml\n\n");
}

#[test]
fn member_rewrite_is_idempotent() {
    let deps = vec![dep("serde", "^1", DependencyKind::Normal), dep("log", "^0.4", DependencyKind::Development)];
    let text = "[package]\nname = \"a\"\n\n[dependencies]\nserde = { version = \"1\", default-features = false, features = [\"derive\"] }\n\n[dev-dependencies]\nlog = \"0.4\"\n";
    let once = update_member(&manifest("/ws/a/Cargo.toml", text), &deps, false).unwrap();
    let twice = update_member(&manifest("/ws/a/Cargo.toml", &once.modified), &deps, false).unwrap();
    assert_ne!(once.modified, text);
    assert_eq!(twice.modified, once.modified);
    assert!(!once.modified.contains("version"));
    assert!(once.modified.contains("log = { workspace = true }"));
}

#[test]
fn missing_kind_table_is_skipped() {
    let deps = vec![dep("serde", "^1", DependencyKind::Build), dep("x", "1", DependencyKind::Unknown)];
    let change = update_member(&manifest("/ws/a/Cargo.toml", MEMBER), &deps, false).unwrap();
    assert_eq!(change.modified, MEMBER);
}

#[test]
fn patch_names_files_relative_to_the_root() {
    let ps = vec![
        package("a", vec![dep("serde", "^1", DependencyKind::Normal)]),
        package("b", vec![dep("serde", "^1", DependencyKind::Normal)]),
    ];
    let (add, remove) = partition_dependencies(&Vec::new(), &ps);
    let root = manifest("/ws/Cargo.toml", ROOT);
    let texts = vec![manifest("/ws/a/Cargo.toml", MEMBER), manifest("/ws/b/Cargo.toml", MEMBER)];
    let patch = generate_diff(&add, &remove, &root, &texts, "/ws", false).unwrap();
    assert_eq!(patch.hunk_counts.len(), 3);
    assert!(patch.hunk_counts.iter().all(|&h| h > 0));
    assert!(patch.text.contains("--- a/a/Cargo.toml\n+++ b/a/Cargo.toml\n"));
    assert!(patch.text.contains("--- a/Cargo.toml\n+++ b/Cargo.toml\n"));
    assert!(patch.text.contains("+serde = { workspace = true }"));
    assert!(patch.text.contains("-serde = \"1\""));
}

#[test]
fn removal_edits_the_root() {
    let root = manifest("/ws/Cargo.toml", "[workspace]\n\n[workspace.dependencies]\nold = \"1\"\nkeep = \"2\"\n");
    let changes = apply_changes(&Vec::new(), &vec!["old".to_string()], &root, &Vec::new(), false).unwrap();
    assert_eq!(changes[0].modified, "[workspace]\n\n[workspace.dependencies]\nkeep = \"2\"\n");
}

#[test]
fn unparsable_root_is_an_error() {
    let root = manifest("/ws/Cargo.toml", "[workspace\n");
    let r = apply_changes(&Vec::new(), &Vec::new(), &root, &Vec::new(), false);
    assert!(matches!(r, Err(DiffError::Parse(p)) if p == "/ws/Cargo.toml"));
}

#[test]
fn unparsable_member_is_an_error() {
    let ps = vec![
        package("a", vec![dep("serde", "^1", DependencyKind::Normal)]),
        package("b", vec![dep("serde", "^1", DependencyKind::Normal)]),
    ];
    let (add, remove) = partition_dependencies(&Vec::new(), &ps);
    let root = manifest("/ws/Cargo.toml", ROOT);
    let texts = vec![manifest("/ws/a/Cargo.toml", "= nope"), manifest("/ws/b/Cargo.toml", MEMBER)];
    let r = apply_changes(&add, &remove, &root, &texts, false);
    assert!(matches!(r, Err(DiffError::Parse(p)) if p == "/ws/a/Cargo.toml"));
}

#[test]
fn missing_member_manifest_is_an_error() {
    let ps = vec![
        package("a", vec![dep("serde", "^1", DependencyKind::Normal)]),
        package("b", vec![dep("serde", "^1", DependencyKind::Normal)]),
    ];
    let (add, remove) = partition_dependencies(&Vec::new(), &ps);
    let root = manifest("/ws/Cargo.toml", ROOT);
    let texts = vec![manifest("/ws/a/Cargo.toml", MEMBER)];
    let r = apply_changes(&add, &remove, &root, &texts, false);
    assert!(matches!(r, Err(DiffError::MissingManifest(p)) if p == "/ws/b/Cargo.toml"));
}

#[test]
fn shared_table_of_wrong_shape_is_an_error() {
    let ps = vec![
        package("a", vec![dep("serde", "^1", DependencyKind::Normal)]),
        package("b", vec![dep("serde", "^1", DependencyKind::Normal)]),
    ];
    let (add, remove) = partition_dependencies(&Vec::new(), &ps);
    let root = manifest("/ws/Cargo.toml", "[workspace]\ndependencies = 5\n");
    let texts = vec![manifest("/ws/a/Cargo.toml", MEMBER), manifest("/ws/b/Cargo.toml", MEMBER)];
    let r = apply_changes(&add, &remove, &root, &texts, false);
    assert!(matches!(r, Err(DiffError::NotATable(p, loc)) if p == "/ws/Cargo.toml" && loc == "workspace.dependencies"));
}

#[test]
fn kinds_map_to_tables() {
    assert_eq!(dependency_table(DependencyKind::Normal), Some("dependencies"));
    assert_eq!(dependency_table(DependencyKind::Development), Some("dev-dependencies"));
    assert_eq!(dependency_table(DependencyKind::Build), Some("build-dependencies"));
    assert_eq!(dependency_table(DependencyKind::Unknown), None);
}

#[test]
fn names_order_by_code_point() {
    assert!(less_than("a", "b"));
    assert!(less_than("a", "ab"));
    assert!(!less_than("ab", "ab"));
    assert!(less_than("Z", "a"));
    assert!(!less_than("b", "a"));
}

#[test]
fn changed_file_gets_hunks() {
    let changes = vec![FileChange {
        path: "/ws/Cargo.toml".to_string(),
        original: "a\nb\n".to_string(),
        modified: "a\nc\n".to_string(),
    }];
    let patch = render_changes(&changes, "/elsewhere/deeper");
    assert_eq!(patch.hunk_counts, vec![1]);
    assert!(patch.text.contains("-b\n+c\n"));
}

#[test]
fn workspace_of_wrong_shape_is_an_error() {
    let root = manifest("/ws/Cargo.toml", "workspace = 1\n");
    let r = apply_changes(&Vec::new(), &vec!["x".to_string()], &root, &Vec::new(), false);
    assert!(matches!(r, Err(DiffError::NotATable(p, loc)) if p == "/ws/Cargo.toml" && loc == "workspace"));
}

#[test]
fn member_table_of_wrong_shape_is_an_error() {
    let deps = vec![dep("serde", "^1", DependencyKind::Normal)];
    let r = update_member(&manifest("/ws/a/Cargo.toml", "dependencies = 1\n"), &deps, false);
    assert!(matches!(r, Err(DiffError::NotATable(p, loc)) if p == "/ws/a/Cargo.toml" && loc == "dependencies"));
}

#[test]
fn shared_table_is_created_when_missing() {
    let ps = vec![
        package("a", vec![dep("serde", "^1", DependencyKind::Normal)]),
        package("b", vec![dep("serde", "^1", DependencyKind::Normal)]),
    ];
    let (add, remove) = partition_dependencies(&Vec::new(), &ps);
    let root = manifest("/ws/Cargo.toml", "[package]\nname = \"top\"\n");
    let texts = vec![manifest("/ws/a/Cargo.toml", MEMBER), manifest("/ws/b/Cargo.toml", MEMBER)];
    let changes = apply_changes(&add, &remove, &root, &texts, false).unwrap();
    assert!(changes[2].modified.contains("[workspace.dependencies]"));
    assert!(changes[2].modified.contains("serde = \"^1\""));
}

#[test]
fn removal_of_absent_name_keeps_the_root() {
    let root = manifest("/ws/Cargo.toml", "[workspace]\n\n[workspace.dependencies]\nkeep = \"2\"\n");
    let changes = apply_changes(&Vec::new(), &vec!["gone".to_string()], &root, &Vec::new(), false).unwrap();
    assert_eq!(changes[0].modified, changes[0].original);
}
