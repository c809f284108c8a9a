//! The generation pipeline's decision logic.
//!
//! The pipeline resolves a template reference, scans the tree for
//! required variables, and renders every entry under the force and
//! dry-run policies.  All of that is decided here over plain values;
//! the caller walks the filesystem, probes for existing paths, prompts
//! for values and confirmations, and performs the writes that the
//! planned actions call for.

use vstd::prelude::*;

use crate::config::ScafferConfig;
use crate::config::dirs_view;
use crate::config::has_url_key;
use crate::config::url_lookup_spec;
use crate::config::url_merge_spec;
use crate::config::urls_view;
use crate::engine::bytes_eq;
use crate::engine::contains_name;
use crate::engine::copy_range;
use crate::engine::names_contain;
use crate::engine::occurrence_names;
use crate::engine::pairs_view;
use crate::engine::push_bytes;
use crate::resolver::EntryKind;
use crate::resolver::hook_file_name;
use crate::resolver::hook_file_name_bytes;
use crate::template::TemplateProcessor;
use crate::template::sanitize_path_spec;
use crate::engine::substitute_spec;
use crate::utils::SLASH;

verus! {

/// `=`
pub const EQUALS: u8 = 61;

/// The generation pipeline, bound to the project-local configuration
/// tier it was started with.
pub struct TemplateGenerator {
    pub config: ScafferConfig,
}

/// The index of the first `true` flag at or after `m`, or the number of
/// flags when none is set.
pub open spec fn first_hit(flags: Seq<bool>, m: int) -> int
    decreases flags.len() - m,
{
    if m < 0 || m >= flags.len() {
        flags.len() as int
    } else if flags[m] {
        m
    } else {
        first_hit(flags, m + 1)
    }
}

/// The index of the first `=` in `s` at or after `i`, or the length of
/// `s` when there is none.
pub open spec fn first_eq(s: Seq<u8>, i: int) -> int
    decreases s.len() - i,
{
    if i < 0 || i >= s.len() {
        s.len() as int
    } else if s[i] == EQUALS {
        i
    } else {
        first_eq(s, i + 1)
    }
}

/// The (name, value) pairs of the `key=value` arguments from rank `q`
/// on; an argument without `=` is ignored.
pub open spec fn assignment_pairs(args: Seq<Vec<u8>>, q: int) -> Seq<(Seq<u8>, Seq<u8>)>
    decreases args.len() - q,
{
    if q < 0 || q >= args.len() {
        Seq::empty()
    } else {
        (if first_eq(args[q]@, 0) < args[q]@.len() {
            seq![
                (
                    args[q]@.take(first_eq(args[q]@, 0)),
                    args[q]@.skip(first_eq(args[q]@, 0) + 1),
                ),
            ]
        } else {
            Seq::<(Seq<u8>, Seq<u8>)>::empty()
        }) + assignment_pairs(args, q + 1)
    }
}

/// Splits the caller's `key=value` strings at their first `=`, in
/// order; a string without `=` is dropped.
pub fn parse_variable_assignments(args: &Vec<Vec<u8>>) -> (r: Vec<(Vec<u8>, Vec<u8>)>)
    ensures
        pairs_view(r@) == assignment_pairs(args@, 0),
{
    let mut out: Vec<(Vec<u8>, Vec<u8>)> = Vec::new();
    let mut q: usize = 0;
    proof {
        assert(pairs_view(out@) =~= Seq::<(Seq<u8>, Seq<u8>)>::empty());
        assert(pairs_view(out@) + assignment_pairs(args@, 0) =~= assignment_pairs(args@, 0));
    }
    while q < args.len()
        invariant
            q <= args.len(),
            pairs_view(out@) + assignment_pairs(args@, q as int) == assignment_pairs(args@, 0),
        decreases args.len() - q,
    {
        let arg = &args[q];
        let mut e: usize = 0;
        while e < arg.len() && arg[e] != EQUALS
            invariant
                e <= arg.len(),
                arg@ == args@[q as int]@,
                first_eq(arg@, 0) == first_eq(arg@, e as int),
            decreases arg.len() - e,
        {
            e += 1;
        }
        proof {
            assert(first_eq(arg@, e as int) == e);
        }
        let ghost before = out@;
        if e < arg.len() {
            let name = copy_range(arg.as_slice(), 0, e);
            let value = copy_range(arg.as_slice(), e + 1, arg.len());
            proof {
                assert(name@ =~= arg@.take(e as int));
                assert(value@ =~= arg@.skip(e + 1));
            }
            out.push((name, value));
            proof {
                assert(out@ == before.push((name, value)));
                assert(pairs_view(before).len() == before.len());
                assert(pairs_view(out@).len() == out@.len());
                assert forall|ii: int|
                    0 <= ii < pairs_view(out@).len() implies pairs_view(out@)[ii] == (pairs_view(
                    before,
                ) + seq![(arg@.take(e as int), arg@.skip(e + 1))])[ii] by {
                    if ii < before.len() {
                        assert(out@[ii] == before[ii]);
                        assert(pairs_view(out@)[ii] == pairs_view(before)[ii]);
                    } else {
                        assert(out@[ii] == (name, value));
                    }
                }
                assert(pairs_view(out@) =~= pairs_view(before) + seq![
                    (arg@.take(e as int), arg@.skip(e + 1)),
                ]);
            }
        }
        proof {
            let piece = if first_eq(args@[q as int]@, 0) < args@[q as int]@.len() {
                seq![
                    (
                        args@[q as int]@.take(first_eq(args@[q as int]@, 0)),
                        args@[q as int]@.skip(first_eq(args@[q as int]@, 0) + 1),
                    ),
                ]
            } else {
                Seq::<(Seq<u8>, Seq<u8>)>::empty()
            };
            assert(assignment_pairs(args@, q as int) == piece + assignment_pairs(args@, q + 1));
            assert(pairs_view(out@) + assignment_pairs(args@, q + 1) =~= pairs_view(before)
                + assignment_pairs(args@, q as int));
        }
        q += 1;
    }
    proof {
        assert(assignment_pairs(args@, args@.len() as int) =~= Seq::<(Seq<u8>, Seq<u8>)>::empty());
        assert(pairs_view(out@) + Seq::<(Seq<u8>, Seq<u8>)>::empty() =~= pairs_view(out@));
    }
    out
}

/// One walked entry of the template tree, as the caller found it: the
/// path relative to the template root, the entry kind, and — for a file
/// that could be read as text — its content.
pub struct TemplateEntry {
    pub rel_path: Vec<u8>,
    pub kind: EntryKind,
    pub text: Option<Vec<u8>>,
}

/// The canonical names required by one entry: occurrences in its
/// relative path, and in its content when it is a readable file.
pub open spec fn entry_names(e: TemplateEntry) -> Set<Seq<u8>> {
    occurrence_names(e.rel_path@).union(
        if e.kind == EntryKind::File {
            match e.text {
                Option::Some(t) => occurrence_names(t@),
                Option::None => Set::empty(),
            }
        } else {
            Set::empty()
        },
    )
}

/// The canonical names required by a whole template tree.
pub open spec fn scan_names(entries: Seq<TemplateEntry>) -> Set<Seq<u8>> {
    Set::new(
        |n: Seq<u8>| exists|e: int| 0 <= e < entries.len() && entry_names(entries[e]).contains(n),
    )
}

/// No two stored names are equal.
pub open spec fn names_unique(rs: Seq<Vec<u8>>) -> bool {
    forall|m1: int, m2: int| 0 <= m1 < m2 < rs.len() ==> rs[m1]@ != rs[m2]@
}

/// Appends every name of `add` that `out` does not hold yet.
fn merge_names(out: &mut Vec<Vec<u8>>, add: Vec<Vec<u8>>)
    requires
        names_unique(old(out)@),
    ensures
        forall|n: Seq<u8>|
            #[trigger] contains_name(final(out)@, n) <==> contains_name(old(out)@, n)
                || contains_name(add@, n),
        names_unique(final(out)@),
{
    let mut q: usize = 0;
    while q < add.len()
        invariant
            q <= add.len(),
            names_unique(out@),
            forall|n: Seq<u8>|
                #[trigger] contains_name(out@, n) <==> contains_name(old(out)@, n) || (exists|
                    j: int,
                |
                    0 <= j < q && add@[j]@ == n),
        decreases add.len() - q,
    {
        let ghost before = out@;
        let name = copy_range(add[q].as_slice(), 0, add[q].len());
        proof {
            assert(name@ =~= add@[q as int]@);
        }
        let already = names_contain(out, &name);
        if !already {
            out.push(name);
            proof {
                assert(out@[out@.len() - 1]@ == add@[q as int]@);
                assert(forall|m: int| 0 <= m < before.len() ==> out@[m] == #[trigger] before[m]);
                assert forall|m1: int, m2: int|
                    0 <= m1 < m2 < out@.len() implies out@[m1]@ != out@[m2]@ by {
                    if m2 == out@.len() - 1 {
                        assert(contains_name(before, out@[m2]@) == false);
                        assert(before[m1]@ == out@[m1]@);
                    }
                }
            }
        }
        proof {
            assert forall|n: Seq<u8>| #[trigger] contains_name(out@, n) implies contains_name(
                old(out)@,
                n,
            ) || (exists|j: int| 0 <= j < q + 1 && add@[j]@ == n) by {
                let m = choose|m: int| 0 <= m < out@.len() && out@[m]@ == n;
                if m < before.len() {
                    assert(before[m]@ == n);
                    assert(contains_name(before, n));
                } else {
                    assert(add@[q as int]@ == n);
                }
            }
            assert forall|n: Seq<u8>|
                contains_name(old(out)@, n) || (exists|j: int| 0 <= j < q + 1 && add@[j]@
                    == n) implies #[trigger] contains_name(out@, n) by {
                if contains_name(old(out)@, n) || (exists|j: int| 0 <= j < q && add@[j]@ == n) {
                    assert(contains_name(before, n));
                    let m = choose|m: int| 0 <= m < before.len() && before[m]@ == n;
                    assert(out@[m]@ == n);
                } else {
                    let j = choose|j: int| 0 <= j < q + 1 && add@[j]@ == n;
                    assert(j == q);
                    if already {
                        assert(contains_name(before, n));
                        let m = choose|m: int| 0 <= m < before.len() && before[m]@ == n;
                        assert(out@[m]@ == n);
                    } else {
                        assert(out@[out@.len() - 1]@ == n);
                    }
                }
            }
        }
        q += 1;
    }
}

impl TemplateGenerator {
    /// A pipeline over the given project-local configuration tier.
    pub fn new(config: ScafferConfig) -> (r: Self)
        ensures
            r.config == config,
    {
        TemplateGenerator { config }
    }

    /// Resolves a template reference that is not itself a URL, in the
    /// fixed order: the merged named-template URL mapping first (the
    /// mapped value may in turn be a URL to fetch or a path to use);
    /// then the reference as a direct filesystem path; then the
    /// configured template directories, first probe wins.  The caller
    /// reports which candidate paths exist: `direct_exists` for the
    /// reference itself and `dir_exists` for the reference joined to
    /// each directory of [`ScafferConfig::get_template_directories`].
    pub fn find_template(
        &self,
        template_name: &[u8],
        global: &ScafferConfig,
        direct_exists: bool,
        dir_exists: &Vec<bool>,
    ) -> (r: Option<Vec<u8>>)
        requires
            global.wf(),
            dir_exists@.len() == dirs_view(&self.config).len() + dirs_view(global).len(),
        ensures
            ({
                let urls = url_merge_spec(urls_view(global), urls_view(&self.config));
                let dirs = dirs_view(&self.config) + dirs_view(global);
                &&& has_url_key(urls, template_name@) ==> (r matches Some(p) && p@
                    == url_lookup_spec(urls, template_name@))
                &&& !has_url_key(urls, template_name@) && direct_exists ==> (r matches Some(p)
                    && p@ == template_name@)
                &&& !has_url_key(urls, template_name@) && !direct_exists && first_hit(
                    dir_exists@,
                    0,
                ) < dir_exists@.len() ==> (r matches Some(p) && p@ == dirs[first_hit(
                    dir_exists@,
                    0,
                )] + seq![SLASH] + template_name@)
                &&& !has_url_key(urls, template_name@) && !direct_exists && first_hit(
                    dir_exists@,
                    0,
                ) >= dir_exists@.len() ==> r is None
            }),
    {
        let urls = self.config.get_template_urls(global);
        let ghost upairs = pairs_view(urls@);
        let mut m: usize = 0;
        while m < urls.len()
            invariant
                m <= urls.len(),
                upairs == pairs_view(urls@),
                upairs == url_merge_spec(urls_view(global), urls_view(&self.config)),
                forall|q: int| 0 <= q < m ==> upairs[q].0 != template_name@,
            decreases urls.len() - m,
        {
            if bytes_eq(urls[m].0.as_slice(), template_name) {
                proof {
                    assert(upairs[m as int].0 == template_name@);
                    crate::config::lemma_url_lookup_at(upairs, template_name@, m as int);
                }
                let p = copy_range(urls[m].1.as_slice(), 0, urls[m].1.len());
                proof {
                    assert(p@ =~= upairs[m as int].1);
                }
                return Some(p);
            }
            proof {
                assert(upairs[m as int] == (urls@[m as int].0@, urls@[m as int].1@));
            }
            m += 1;
        }
        proof {
            assert(!has_url_key(upairs, template_name@));
        }
        if direct_exists {
            let p = copy_range(template_name, 0, template_name.len());
            proof {
                assert(p@ =~= template_name@);
            }
            return Some(p);
        }
        let dirs = self.config.get_template_directories(global);
        let ghost dviews = crate::template::names_view(dirs@);
        proof {
            assert(dviews.len() == dirs@.len());
        }
        let mut d: usize = 0;
        while d < dirs.len()
            invariant
                d <= dirs.len(),
                !direct_exists,
                !has_url_key(
                    url_merge_spec(urls_view(global), urls_view(&self.config)),
                    template_name@,
                ),
                dviews == crate::template::names_view(dirs@),
                dviews == dirs_view(&self.config) + dirs_view(global),
                dirs@.len() == dir_exists@.len(),
                first_hit(dir_exists@, 0) == first_hit(dir_exists@, d as int),
            decreases dirs.len() - d,
        {
            if dir_exists[d] {
                proof {
                    assert(first_hit(dir_exists@, d as int) == d);
                }
                let mut p = copy_range(dirs[d].as_slice(), 0, dirs[d].len());
                p.push(SLASH);
                push_bytes(&mut p, template_name);
                proof {
                    assert(p@ =~= dviews[d as int] + seq![SLASH] + template_name@);
                }
                return Some(p);
            }
            proof {
                assert(first_hit(dir_exists@, d as int) == first_hit(dir_exists@, d + 1));
            }
            d += 1;
        }
        proof {
            assert(first_hit(dir_exists@, d as int) == dir_exists@.len());
        }
        None
    }

    /// The set of canonical variable names that the template tree
    /// requires, each once, gathered from every entry's relative path
    /// and readable content.
    pub fn scan_template_variables(&self, entries: &Vec<TemplateEntry>) -> (r: Vec<Vec<u8>>)
        ensures
            forall|m: int| 0 <= m < r@.len() ==> scan_names(entries@).contains(#[trigger] r@[m]@),
            forall|n: Seq<u8>| scan_names(entries@).contains(n) ==> contains_name(r@, n),
            names_unique(r@),
    {
        let mut out: Vec<Vec<u8>> = Vec::new();
        let mut e: usize = 0;
        while e < entries.len()
            invariant
                e <= entries.len(),
                names_unique(out@),
                forall|n: Seq<u8>|
                    #[trigger] contains_name(out@, n) ==> exists|j: int|
                        0 <= j < e && entry_names(entries@[j]).contains(n),
                forall|j: int, n: Seq<u8>|
                    0 <= j < e && #[trigger] entry_names(entries@[j]).contains(n) ==> contains_name(
                        out@,
                        n,
                    ),
            decreases entries.len() - e,
        {
            let path_names = crate::engine::detect_occurrences(entries[e].rel_path.as_slice());
            proof {
                assert forall|n: Seq<u8>|
                    occurrence_names(entries@[e as int].rel_path@).contains(n) implies contains_name(
                    path_names@,
                    n,
                ) by {
                    let (f, i) = choose|f: crate::cases::CaseFamily, i: int|
                        crate::engine::is_occurrence(entries@[e as int].rel_path@, f, i) && n
                            == crate::cases::canon(
                            crate::engine::occ_frag(entries@[e as int].rel_path@, f, i),
                        );
                }
            }
            merge_names(&mut out, path_names);
            if entries[e].kind == EntryKind::File {
                match &entries[e].text {
                    Option::Some(t) => {
                        let content_names = crate::engine::detect_occurrences(t.as_slice());
                        proof {
                            assert forall|n: Seq<u8>|
                                occurrence_names(t@).contains(n) implies contains_name(
                                content_names@,
                                n,
                            ) by {
                                let (f, i) = choose|f: crate::cases::CaseFamily, i: int|
                                    crate::engine::is_occurrence(t@, f, i) && n
                                        == crate::cases::canon(crate::engine::occ_frag(t@, f, i));
                            }
                        }
                        merge_names(&mut out, content_names);
                    },
                    Option::None => {},
                }
            }
            proof {
                assert forall|n: Seq<u8>| #[trigger] contains_name(out@, n) implies exists|j: int|
                    0 <= j < e + 1 && entry_names(entries@[j]).contains(n) by {
                }
                assert forall|j: int, n: Seq<u8>|
                    0 <= j < e + 1 && #[trigger] entry_names(entries@[j]).contains(
                        n,
                    ) implies contains_name(out@, n) by {
                }
            }
            e += 1;
        }
        proof {
            assert forall|m: int| 0 <= m < out@.len() implies scan_names(entries@).contains(
                #[trigger] out@[m]@,
            ) by {
                assert(contains_name(out@, out@[m]@));
            }
            assert forall|n: Seq<u8>| scan_names(entries@).contains(n) implies contains_name(
                out@,
                n,
            ) by {
                let j = choose|j: int|
                    0 <= j < entries@.len() && entry_names(entries@[j]).contains(n);
            }
        }
        out
    }
}

/// The decision the pipeline takes for one walked entry.  The `write`
/// flag of an action tells the caller whether to touch the filesystem;
/// it is never set on a dry run.
pub enum EntryAction {
    /// Create the destination directory (report-only when `write` is
    /// off).
    CreateDir { dest: Vec<u8>, write: bool },
    /// The entry is the initialization hook: never copied.
    SkipHook,
    /// The destination exists and is kept.
    SkipExisting { dest: Vec<u8> },
    /// The destination exists; ask the caller to confirm overwriting.
    AskOverwrite { dest: Vec<u8> },
    /// Render the file content and write it to the destination
    /// (report-only when `write` is off).
    WriteFile { dest: Vec<u8>, write: bool },
}

/// The action instructs the caller to mutate the filesystem.
pub open spec fn action_writes(a: EntryAction) -> bool {
    match a {
        EntryAction::CreateDir { dest: _, write } => write,
        EntryAction::WriteFile { dest: _, write } => write,
        EntryAction::SkipHook => false,
        EntryAction::SkipExisting { dest: _ } => false,
        EntryAction::AskOverwrite { dest: _ } => false,
    }
}

/// The path ends in the initialization hook's file name.
pub open spec fn is_hook_entry(p: Seq<u8>) -> bool {
    last_component(p) == hook_file_name()
}

/// The index of the last `/` at or before `k`, or `-1` when there is
/// none.
pub open spec fn last_slash(p: Seq<u8>, k: int) -> int
    decreases k + 1,
{
    if k < 0 {
        -1
    } else if p[k] == SLASH {
        k
    } else {
        last_slash(p, k - 1)
    }
}

/// The final component of a `/`-separated path.
pub open spec fn last_component(p: Seq<u8>) -> Seq<u8> {
    p.skip(last_slash(p, p.len() - 1) + 1)
}

/// The final component of a `/`-separated path.
pub fn last_component_of(p: &[u8]) -> (r: Vec<u8>)
    ensures
        r@ == last_component(p@),
{
    let mut k: usize = p.len();
    while k > 0
        invariant
            k <= p.len(),
            last_slash(p@, p@.len() - 1) == last_slash(p@, k - 1),
        decreases k,
    {
        if p[k - 1] == SLASH {
            proof {
                assert(last_slash(p@, k - 1) == k - 1);
            }
            let r = copy_range(p, k, p.len());
            proof {
                assert(r@ =~= last_component(p@));
            }
            return r;
        }
        proof {
            assert(last_slash(p@, k - 1) == last_slash(p@, k - 2));
        }
        k -= 1;
    }
    proof {
        assert(last_slash(p@, p@.len() - 1) == -1);
    }
    let r = copy_range(p, 0, p.len());
    proof {
        assert(r@ =~= last_component(p@));
    }
    r
}

/// Decides what to do with one walked entry: directories are created,
/// the initialization hook is skipped, an existing destination is kept
/// or queried depending on `force` and `dry_run`, and everything else
/// is rendered and written.  On a dry run no action instructs a write
/// and no confirmation is ever requested; with `force` set an existing
/// destination file is overwritten without a question.
pub fn plan_entry(
    processor: &TemplateProcessor,
    rel_path: &[u8],
    kind: EntryKind,
    dest_exists: bool,
    force: bool,
    dry_run: bool,
) -> (r: EntryAction)
    ensures
        ({
            let dest_spec = sanitize_path_spec(substitute_spec(rel_path@, processor@));
            &&& kind == EntryKind::Directory ==> (r matches EntryAction::CreateDir { dest, write }
                && dest@ == dest_spec && write == !dry_run)
            &&& kind == EntryKind::File && is_hook_entry(rel_path@) ==> r
                == EntryAction::SkipHook
            &&& kind == EntryKind::File && !is_hook_entry(rel_path@) && dest_exists && !force
                && dry_run ==> (r matches EntryAction::SkipExisting { dest } && dest@ == dest_spec)
            &&& kind == EntryKind::File && !is_hook_entry(rel_path@) && dest_exists && !force
                && !dry_run ==> (r matches EntryAction::AskOverwrite { dest } && dest@ == dest_spec)
            &&& kind == EntryKind::File && !is_hook_entry(rel_path@) && (!dest_exists || force)
                ==> (r matches EntryAction::WriteFile { dest, write } && dest@ == dest_spec && write
                == !dry_run)
            &&& dry_run ==> !action_writes(r) && !(r matches EntryAction::AskOverwrite { dest: _ })
            &&& force && kind == EntryKind::File && !is_hook_entry(rel_path@) ==> (r
                matches EntryAction::WriteFile { dest, write } && dest@ == dest_spec)
        }),
{
    let dest = processor.process_path(rel_path);
    match kind {
        EntryKind::Directory => EntryAction::CreateDir { dest, write: !dry_run },
        EntryKind::File => {
            let name = last_component_of(rel_path);
            let hook = hook_file_name_bytes();
            if bytes_eq(name.as_slice(), hook.as_slice()) {
                EntryAction::SkipHook
            } else if dest_exists && !force {
                if dry_run {
                    EntryAction::SkipExisting { dest }
                } else {
                    EntryAction::AskOverwrite { dest }
                }
            } else {
                EntryAction::WriteFile { dest, write: !dry_run }
            }
        },
    }
}

/// Settles a requested overwrite confirmation: acceptance turns into a
/// write, decline keeps the existing file.
pub fn resolve_overwrite(dest: Vec<u8>, confirmed: bool) -> (r: EntryAction)
    ensures
        confirmed ==> (r matches EntryAction::WriteFile { dest: d, write } && d@ == dest@ && write),
        !confirmed ==> (r matches EntryAction::SkipExisting { dest: d } && d@ == dest@),
{
    if confirmed {
        EntryAction::WriteFile { dest, write: true }
    } else {
        EntryAction::SkipExisting { dest }
    }
}

/// The per-run summary: how many files were created and skipped, and
/// whether the run was a dry run.
pub struct GenerationReport {
    pub files_created: u64,
    pub files_skipped: u64,
    pub dry_run: bool,
}

impl GenerationReport {
    /// An empty report.
    pub fn new(dry_run: bool) -> (r: Self)
        ensures
            r.files_created == 0,
            r.files_skipped == 0,
            r.dry_run == dry_run,
    {
        GenerationReport { files_created: 0, files_skipped: 0, dry_run }
    }

    /// Counts one created file.
    pub fn record_created(&mut self)
        requires
            old(self).files_created < u64::MAX,
        ensures
            final(self).files_created == old(self).files_created + 1,
            final(self).files_skipped == old(self).files_skipped,
            final(self).dry_run == old(self).dry_run,
    {
        self.files_created = self.files_created + 1;
    }

    /// Counts one skipped file.
    pub fn record_skipped(&mut self)
        requires
            old(self).files_skipped < u64::MAX,
        ensures
            final(self).files_skipped == old(self).files_skipped + 1,
            final(self).files_created == old(self).files_created,
            final(self).dry_run == old(self).dry_run,
    {
        self.files_skipped = self.files_skipped + 1;
    }
}

} // verus!
