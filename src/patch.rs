//! Line diffs of edited manifests, assembled into one multi-file patch.
use vstd::prelude::*;
use vstd::string::StringExecFns;
use patcher::{DiffAlgorithm, Patch};

verus! {


/// How many hunks patcher's default line diff finds between `old` and `new`.
pub uninterp spec fn diff_hunk_count(old: Seq<char>, new: Seq<char>) -> nat;

/// The section that patcher writes for the line diff of `old` and `new`,
/// with both file headers naming `name`.
pub uninterp spec fn diff_section_text(name: Seq<char>, old: Seq<char>, new: Seq<char>) -> Seq<char>;

/// `path` relative to `base`, where pathdiff finds one.
pub uninterp spec fn relative_of(path: Seq<char>, base: Seq<char>) -> Option<Seq<char>>;

/// The section of a file with no hunk: its two headers.
pub open spec fn header_text(name: Seq<char>) -> Seq<char> {
    "diff --git a/"@ + name + " b/"@ + name + "\n--- a/"@ + name + "\n+++ b/"@ + name + "\n"@
}

/// Relies on `patcher::Differ::new(old, new).generate()`, on the public
/// `old_file` and `new_file` fields and on `Display` for `Patch`: the
/// section's text and its number of hunks (`chunks.len()`). The default
/// XDiff search hashes lines with FNV, so the result depends on the texts
/// alone. Its k-vectors hold `old + new + 3` diagonals per direction, offset
/// by `new + 1`, which covers every diagonal from `dmin - 1` to `dmax + 1`
/// that the search writes; line indices are checked against the box ends
/// before use, as in libxdiff.
#[verifier::external_body]
fn diff_section(name: &str, old: &str, new: &str) -> (r: (String, usize))
    ensures
        r.0@ == diff_section_text(name@, old@, new@),
        r.1 == diff_hunk_count(old@, new@),
{
    let mut patch = patcher::Differ::new(old, new).generate();
    patch.old_file = name.to_string();
    patch.new_file = name.to_string();
    let hunks = patch.chunks.len();
    (patch.to_string(), hunks)
}

/// Relies on patcher's derived `Default` for `Patch` (no preamble, no
/// chunks) and its `Display`: the two header lines under a `diff --git` line.
#[verifier::external_body]
fn header_section(name: &str) -> (r: String)
    ensures
        r@ == header_text(name@),
{
    let mut patch = Patch::default();
    patch.old_file = name.to_string();
    patch.new_file = name.to_string();
    patch.to_string()
}

/// Relies on `pathdiff::diff_utf8_paths`: `path` relative to `base`, where one exists.
#[verifier::external_body]
fn relative_path(path: &str, base: &str) -> (r: Option<String>)
    ensures
        match r {
            Some(s) => relative_of(path@, base@) == Some(s@),
            None => relative_of(path@, base@) is None,
        },
{
    pathdiff::diff_utf8_paths(path, base).map(|p| p.into_string())
}

/// One file's text before and after the edits.
#[derive(Clone, Debug)]
pub struct FileChange {
    pub path: String,
    pub original: String,
    pub modified: String,
}

/// The patch text, and how many hunks each file's section holds.
#[derive(Clone, Debug)]
pub struct RenderedPatch {
    pub text: String,
    pub hunk_counts: Vec<usize>,
}

/// The hunks of one file's section: none where the text did not change.
pub open spec fn section_hunks(c: FileChange) -> nat {
    if c.original@ == c.modified@ {
        0
    } else {
        diff_hunk_count(c.original@, c.modified@)
    }
}

/// The name in a section's headers: relative to `base` where possible.
pub open spec fn display_name(path: Seq<char>, base: Seq<char>) -> Seq<char> {
    match relative_of(path, base) {
        Some(r) => r,
        None => path,
    }
}

/// A file's section: its headers alone where the text did not change.
pub open spec fn section_of(c: FileChange, base: Seq<char>) -> Seq<char> {
    let name = display_name(c.path@, base);
    if c.original@ == c.modified@ {
        header_text(name)
    } else {
        diff_section_text(name, c.original@, c.modified@)
    }
}

/// The sections in order, each followed by an empty line, as patcher's
/// `MultifilePatch` writes them.
pub open spec fn rendered_text(cs: Seq<FileChange>, base: Seq<char>) -> Seq<char>
    decreases cs.len(),
{
    if cs.len() == 0 {
        Seq::empty()
    } else {
        rendered_text(cs.drop_last(), base) + section_of(cs.last(), base) + "\n"@
    }
}

/// Diffs each change and joins the sections into one patch. Each section's
/// headers name the file relative to `workspace_root`, or by its own path
/// where no relative path exists.
pub fn render_changes(changes: &Vec<FileChange>, workspace_root: &str) -> (r: RenderedPatch)
    ensures
        r.hunk_counts@.len() == changes@.len(),
        forall|k: int|
            0 <= k < changes@.len() ==> r.hunk_counts@[k] == section_hunks(#[trigger] changes@[k]),
        r.text@ == rendered_text(changes@, workspace_root@),
{
    let mut text = String::new();
    let mut hunk_counts: Vec<usize> = Vec::new();
    let mut i: usize = 0;
    assert(changes@.subrange(0, 0) =~= Seq::<FileChange>::empty());
    while i < changes.len()
        invariant
            i <= changes.len(),
            hunk_counts@.len() == i,
            forall|k: int| 0 <= k < i ==> hunk_counts@[k] == section_hunks(#[trigger] changes@[k]),
            text@ == rendered_text(changes@.subrange(0, i as int), workspace_root@),
        decreases changes.len() - i,
    {
        let c = &changes[i];
        let name = match relative_path(c.path.as_str(), workspace_root) {
            Some(rel) => rel,
            None => c.path.clone(),
        };
        let (section, hunks) = if c.original == c.modified {
            (header_section(name.as_str()), 0)
        } else {
            diff_section(name.as_str(), c.original.as_str(), c.modified.as_str())
        };
        assert(changes@.subrange(0, i + 1).drop_last() =~= changes@.subrange(0, i as int));
        assert(changes@.subrange(0, i + 1).last() == *c);
        text.append(section.as_str());
        text.append("\n");
        hunk_counts.push(hunks);
        i = i + 1;
        assert(text@ =~= rendered_text(changes@.subrange(0, i as int), workspace_root@));
    }
    assert(changes@.subrange(0, i as int) =~= changes@);
    RenderedPatch { text, hunk_counts }
}

} // verus!
