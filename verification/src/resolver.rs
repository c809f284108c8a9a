//! Template-root detection inside an extracted archive.
//!
//! A downloaded archive may hold the template tree directly, or nested
//! inside a single wrapping directory.  The caller lists the extraction
//! directory (and its immediate subdirectories) and hands the listings
//! in; the heuristic here decides which directory is the genuine
//! template root.

use vstd::prelude::*;

use crate::engine::bytes_eq;
use crate::engine::contains_template_variables;
use crate::engine::has_placeholder;

verus! {

/// What kind of filesystem object a directory entry is.
#[derive(Clone, Copy, Debug, PartialEq, Eq, Structural)]
pub enum EntryKind {
    Directory,
    File,
}

/// One entry of a directory listing: its final name component, its
/// kind, and — for a file that could be read as text — its content.
pub struct DirEntryInfo {
    pub name: Vec<u8>,
    pub kind: EntryKind,
    pub text: Option<Vec<u8>>,
}

/// An immediate subdirectory of the extraction directory, with its own
/// listing.
pub struct SubdirListing {
    pub name: Vec<u8>,
    pub entries: Vec<DirEntryInfo>,
}

/// Which directory the resolver settles on.
#[derive(Clone, Copy, Debug, PartialEq, Eq, Structural)]
pub enum RootChoice {
    /// The extraction directory itself.
    ExtractionRoot,
    /// The immediate subdirectory with this index.
    Nested(usize),
}

/// `scaffer_init.py`, the fixed name of the per-template initialization
/// hook.  The file is recognized, never executed, and not copied.
pub open spec fn hook_file_name() -> Seq<u8> {
    seq![
        115u8, 99u8, 97u8, 102u8, 102u8, 101u8, 114u8, 95u8, 105u8, 110u8, 105u8, 116u8, 46u8,
        112u8, 121u8,
    ]
}

/// The hook file name as a byte vector.
pub fn hook_file_name_bytes() -> (r: Vec<u8>)
    ensures
        r@ == hook_file_name(),
{
    let mut r: Vec<u8> = Vec::new();
    r.push(115);
    r.push(99);
    r.push(97);
    r.push(102);
    r.push(102);
    r.push(101);
    r.push(114);
    r.push(95);
    r.push(105);
    r.push(110);
    r.push(105);
    r.push(116);
    r.push(46);
    r.push(112);
    r.push(121);
    proof {
        assert(r@ =~= hook_file_name());
    }
    r
}

/// A file entry whose readable text holds a placeholder.
pub open spec fn text_has_placeholder(e: DirEntryInfo) -> bool {
    match e.text {
        Option::Some(t) => has_placeholder(t@),
        Option::None => false,
    }
}

/// The root-detection heuristic: a directory is a genuine template root
/// when it is non-empty and either holds the initialization hook, or an
/// entry name or a readable file content holds a placeholder, or — as a
/// fallback — it holds more than one entry.
pub open spec fn is_template_dir_spec(entries: Seq<DirEntryInfo>) -> bool {
    entries.len() > 0 && ((exists|m: int|
        0 <= m < entries.len() && entries[m].name@ == hook_file_name()) || (exists|m: int|
        0 <= m < entries.len() && has_placeholder(entries[m].name@)) || (exists|m: int|
        0 <= m < entries.len() && entries[m].kind == EntryKind::File && text_has_placeholder(
        entries[m],
    )) || entries.len() > 1)
}

/// Decides whether a directory, given as its listing, is a genuine
/// template root.
pub fn is_template_directory(entries: &Vec<DirEntryInfo>) -> (r: bool)
    ensures
        r == is_template_dir_spec(entries@),
{
    if entries.len() == 0 {
        return false;
    }
    let hook = hook_file_name_bytes();
    let mut m: usize = 0;
    while m < entries.len()
        invariant
            m <= entries.len(),
            hook@ == hook_file_name(),
            forall|q: int| 0 <= q < m ==> entries@[q].name@ != hook_file_name(),
        decreases entries.len() - m,
    {
        if bytes_eq(entries[m].name.as_slice(), hook.as_slice()) {
            return true;
        }
        m += 1;
    }
    let mut m: usize = 0;
    while m < entries.len()
        invariant
            m <= entries.len(),
            forall|q: int| 0 <= q < m ==> !has_placeholder(entries@[q].name@),
        decreases entries.len() - m,
    {
        if contains_template_variables(entries[m].name.as_slice()) {
            return true;
        }
        m += 1;
    }
    let mut m: usize = 0;
    while m < entries.len()
        invariant
            m <= entries.len(),
            forall|q: int|
                0 <= q < m ==> !(entries@[q].kind == EntryKind::File && text_has_placeholder(
                    entries@[q],
                )),
        decreases entries.len() - m,
    {
        if entries[m].kind == EntryKind::File {
            match &entries[m].text {
                Option::Some(t) => {
                    if contains_template_variables(t.as_slice()) {
                        return true;
                    }
                },
                Option::None => {},
            }
        }
        m += 1;
    }
    entries.len() > 1
}

/// The first subdirectory index at or after `m` whose listing satisfies
/// the heuristic, or the number of subdirectories when none does.
pub open spec fn first_template_subdir(subdirs: Seq<SubdirListing>, m: int) -> int
    decreases subdirs.len() - m,
{
    if m < 0 || m >= subdirs.len() {
        subdirs.len() as int
    } else if is_template_dir_spec(subdirs[m].entries@) {
        m
    } else {
        first_template_subdir(subdirs, m + 1)
    }
}

/// Where the template root of an extracted archive lies: the extraction
/// directory itself when it satisfies the heuristic; else the first
/// subdirectory that does; else the first subdirectory at all; else the
/// extraction directory.
pub open spec fn find_root_spec(
    root_entries: Seq<DirEntryInfo>,
    subdirs: Seq<SubdirListing>,
) -> RootChoice {
    if is_template_dir_spec(root_entries) {
        RootChoice::ExtractionRoot
    } else if first_template_subdir(subdirs, 0) < subdirs.len() {
        RootChoice::Nested(first_template_subdir(subdirs, 0) as usize)
    } else if subdirs.len() > 0 {
        RootChoice::Nested(0)
    } else {
        RootChoice::ExtractionRoot
    }
}

/// Finds the template root among the extraction directory (listed in
/// `root_entries`) and its immediate subdirectories (`subdirs`).
pub fn find_template_root(root_entries: &Vec<DirEntryInfo>, subdirs: &Vec<SubdirListing>) -> (r:
    RootChoice)
    ensures
        r == find_root_spec(root_entries@, subdirs@),
{
    if is_template_directory(root_entries) {
        return RootChoice::ExtractionRoot;
    }
    let mut m: usize = 0;
    while m < subdirs.len()
        invariant
            m <= subdirs.len(),
            !is_template_dir_spec(root_entries@),
            first_template_subdir(subdirs@, 0) == first_template_subdir(subdirs@, m as int),
        decreases subdirs.len() - m,
    {
        if is_template_directory(&subdirs[m].entries) {
            proof {
                assert(first_template_subdir(subdirs@, m as int) == m);
            }
            return RootChoice::Nested(m);
        }
        m += 1;
    }
    proof {
        assert(first_template_subdir(subdirs@, m as int) == subdirs@.len());
    }
    if subdirs.len() > 0 {
        RootChoice::Nested(0)
    } else {
        RootChoice::ExtractionRoot
    }
}

/// An archive whose single top-level entry is a directory satisfying
/// the template heuristic — while the extraction directory itself does
/// not — resolves to that nested directory, not to the extraction root.
pub proof fn lemma_nested_template_root(
    root_entries: Seq<DirEntryInfo>,
    subdirs: Seq<SubdirListing>,
)
    requires
        root_entries.len() == 1,
        root_entries[0].kind == EntryKind::Directory,
        root_entries[0].name@ != hook_file_name(),
        !has_placeholder(root_entries[0].name@),
        subdirs.len() >= 1,
        is_template_dir_spec(subdirs[0].entries@),
    ensures
        find_root_spec(root_entries, subdirs) == RootChoice::Nested(0),
{
    assert(!is_template_dir_spec(root_entries)) by {
        assert(forall|m: int|
            0 <= m < root_entries.len() ==> #[trigger] root_entries[m] == root_entries[0]);
        assert(!(root_entries[0].kind == EntryKind::File));
    }
    assert(first_template_subdir(subdirs, 0) == 0);
}

} // verus!
