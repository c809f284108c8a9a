use scaffer::config::ScafferConfig;
use scaffer::generator::EntryAction;
use scaffer::generator::GenerationReport;
use scaffer::generator::TemplateEntry;
use scaffer::generator::TemplateGenerator;
use scaffer::generator::parse_variable_assignments;
use scaffer::generator::plan_entry;
use scaffer::generator::resolve_overwrite;
use scaffer::resolver::DirEntryInfo;
use scaffer::resolver::EntryKind;
use scaffer::resolver::RootChoice;
use scaffer::resolver::SubdirListing;
use scaffer::resolver::find_template_root;
use scaffer::resolver::is_template_directory;
use scaffer::template::TemplateProcessor;
use scaffer::utils::is_url;
use scaffer::utils::normalize_path;
use scaffer::utils::sanitize_filename;

fn s(bytes: Vec<u8>) -> String {
    String::from_utf8(bytes).unwrap()
}

#[test]
fn test_sanitize_filename() {
    assert_eq!(s(sanitize_filename(b"my<file>name")), "my_file_name");
    assert_eq!(s(sanitize_filename(b"path/to/file")), "path_to_file");
    assert_eq!(s(sanitize_filename(b"normal_file.txt")), "normal_file.txt");
}

#[test]
fn test_is_url() {
    assert!(is_url(b"https://example.com"));
    assert!(is_url(b"http://localhost:8080"));
    assert!(!is_url(b"file.zip"));
    assert!(!is_url(b"/path/to/file"));
}

#[test]
fn test_normalize_path() {
    assert_eq!(s(normalize_path(b"a\\b\\c.txt")), "a/b/c.txt");
    assert_eq!(s(normalize_path(b"a/b")), "a/b");
}

#[test]
fn test_reserved_characters_sanitized_in_paths() {
    let mut processor = TemplateProcessor::new();
    processor.set_variable(b"project".to_vec(), b"my:app?".to_vec());
    let result = s(processor.process_path(b"src/scf-project.rs"));
    assert!(!result.contains(':'));
    assert!(!result.contains('?'));
    assert_eq!(result, "src/scf-my_app_.rs");
}

#[test]
fn test_dry_run_plans_no_writes() {
    let mut processor = TemplateProcessor::new();
    processor.set_variable(b"project".to_vec(), b"demo".to_vec());
    for kind in [EntryKind::Directory, EntryKind::File] {
        for dest_exists in [false, true] {
            for force in [false, true] {
                let action = plan_entry(&processor, b"src/scf-project.rs", kind, dest_exists, force, true);
                match action {
                    EntryAction::CreateDir { write, .. } => assert!(!write),
                    EntryAction::WriteFile { write, .. } => assert!(!write),
                    EntryAction::AskOverwrite { .. } => {
                        panic!("a dry run must not prompt for confirmation")
                    },
                    EntryAction::SkipHook | EntryAction::SkipExisting { .. } => {},
                }
            }
        }
    }
}

#[test]
fn test_force_overwrites_without_prompt() {
    let processor = TemplateProcessor::new();
    let action = plan_entry(&processor, b"notes.txt", EntryKind::File, true, true, false);
    match action {
        EntryAction::WriteFile { dest, write } => {
            assert_eq!(s(dest), "notes.txt");
            assert!(write);
        },
        _ => panic!("force must bypass the confirmation and overwrite"),
    }
}

#[test]
fn test_existing_file_asks_without_force() {
    let processor = TemplateProcessor::new();
    let action = plan_entry(&processor, b"notes.txt", EntryKind::File, true, false, false);
    assert!(matches!(action, EntryAction::AskOverwrite { .. }));
    assert!(matches!(
        resolve_overwrite(b"notes.txt".to_vec(), false),
        EntryAction::SkipExisting { .. }
    ));
    assert!(matches!(
        resolve_overwrite(b"notes.txt".to_vec(), true),
        EntryAction::WriteFile { write: true, .. }
    ));
}

#[test]
fn test_hook_file_is_skipped() {
    let processor = TemplateProcessor::new();
    let action = plan_entry(&processor, b"sub/scaffer_init.py", EntryKind::File, false, false, false);
    assert!(matches!(action, EntryAction::SkipHook));
}

#[test]
fn test_nested_root_detection() {
    // the archive's single top-level entry is a wrapping directory
    let root_entries = vec![DirEntryInfo {
        name: b"package".to_vec(),
        kind: EntryKind::Directory,
        text: None,
    }];
    let subdirs = vec![SubdirListing {
        name: b"package".to_vec(),
        entries: vec![
            DirEntryInfo {
                name: b"scf-project.rs".to_vec(),
                kind: EntryKind::File,
                text: Some(b"fn main() {}".to_vec()),
            },
        ],
    }];
    assert!(is_template_directory(&subdirs[0].entries));
    assert_eq!(find_template_root(&root_entries, &subdirs), RootChoice::Nested(0));
}

#[test]
fn test_root_detection_prefers_extraction_dir() {
    let root_entries = vec![DirEntryInfo {
        name: b"scaffer_init.py".to_vec(),
        kind: EntryKind::File,
        text: Some(Vec::new()),
    }];
    let subdirs: Vec<SubdirListing> = Vec::new();
    assert_eq!(
        find_template_root(&root_entries, &subdirs),
        RootChoice::ExtractionRoot
    );
}

#[test]
fn test_empty_directory_is_no_template() {
    let entries: Vec<DirEntryInfo> = Vec::new();
    assert!(!is_template_directory(&entries));
}

#[test]
fn test_scan_collects_path_and_content_variables() {
    let generator = TemplateGenerator::new(ScafferConfig::new());
    let entries = vec![
        TemplateEntry {
            rel_path: b"src/ScfProject".to_vec(),
            kind: EntryKind::Directory,
            text: None,
        },
        TemplateEntry {
            rel_path: b"src/ScfProject/main.rs".to_vec(),
            kind: EntryKind::File,
            text: Some(b"let author = scf-author;".to_vec()),
        },
    ];
    let mut names: Vec<String> = generator
        .scan_template_variables(&entries)
        .into_iter()
        .map(s)
        .collect();
    names.sort();
    assert_eq!(names, vec!["author", "project"]);
}

#[test]
fn test_parse_variable_assignments() {
    let args = vec![
        b"name=my-app".to_vec(),
        b"broken".to_vec(),
        b"desc=a=b".to_vec(),
    ];
    let pairs = parse_variable_assignments(&args);
    assert_eq!(pairs.len(), 2);
    assert_eq!(s(pairs[0].0.clone()), "name");
    assert_eq!(s(pairs[0].1.clone()), "my-app");
    assert_eq!(s(pairs[1].0.clone()), "desc");
    assert_eq!(s(pairs[1].1.clone()), "a=b");
}

#[test]
fn test_find_template_resolution_order() {
    let mut local = ScafferConfig::new();
    local.add_template_path(b"local-templates".to_vec());
    let mut global = ScafferConfig::new();
    global.add_template_path(b"global-templates".to_vec());
    global.add_template_url(b"starter".to_vec(), b"https://example.com/starter.zip".to_vec());
    let generator = TemplateGenerator::new(local);

    // a mapped name wins, even over an existing path of the same name
    let mapped = generator.find_template(b"starter", &global, true, &vec![false, false]);
    assert_eq!(mapped.map(s), Some("https://example.com/starter.zip".to_string()));

    // an unmapped reference that exists as a path comes next
    let direct = generator.find_template(b"other", &global, true, &vec![false, false]);
    assert_eq!(direct.map(s), Some("other".to_string()));

    // then the first template directory whose entry exists
    let in_dir = generator.find_template(b"other", &global, false, &vec![false, true]);
    assert_eq!(in_dir.map(s), Some("global-templates/other".to_string()));

    // and nothing else resolves
    let none = generator.find_template(b"other", &global, false, &vec![false, false]);
    assert!(none.is_none());
}

#[test]
fn test_config_merging() {
    let mut local = ScafferConfig::new();
    local.add_template_path(b"a".to_vec());
    local.add_template_url(b"kit".to_vec(), b"https://local/kit.zip".to_vec());
    let mut global = ScafferConfig::new();
    global.add_template_path(b"b".to_vec());
    global.add_template_url(b"kit".to_vec(), b"https://global/kit.zip".to_vec());
    global.add_template_url(b"base".to_vec(), b"https://global/base.zip".to_vec());

    let dirs = local.get_template_directories(&global);
    assert_eq!(dirs, vec![b"a".to_vec(), b"b".to_vec()]);

    let urls = local.get_template_urls(&global);
    let mut pairs: Vec<(String, String)> = urls
        .into_iter()
        .map(|(n, u)| (s(n), s(u)))
        .collect();
    pairs.sort();
    assert_eq!(
        pairs,
        vec![
            ("base".to_string(), "https://global/base.zip".to_string()),
            ("kit".to_string(), "https://local/kit.zip".to_string()),
        ]
    );
}

#[test]
fn test_find_templates_sorted_deduplicated() {
    let mut local = ScafferConfig::new();
    local.add_template_url(b"beta".to_vec(), b"https://x/beta.zip".to_vec());
    let global = ScafferConfig::new();
    let listings = vec![b"delta".to_vec(), b"alpha".to_vec(), b"beta".to_vec()];
    let names: Vec<String> = local
        .find_templates(&global, &listings)
        .into_iter()
        .map(s)
        .collect();
    assert_eq!(names, vec!["alpha", "beta", "delta"]);
}

#[test]
fn test_generation_report_counts() {
    let mut report = GenerationReport::new(false);
    report.record_created();
    report.record_created();
    report.record_skipped();
    assert_eq!(report.files_created, 2);
    assert_eq!(report.files_skipped, 1);
    assert!(!report.dry_run);
}

#[test]
fn test_add_template_url_overwrites() {
    let mut config = ScafferConfig::new();
    config.add_template_url(b"kit".to_vec(), b"https://one".to_vec());
    config.add_template_url(b"kit".to_vec(), b"https://two".to_vec());
    let urls = config.get_template_urls(&ScafferConfig::new());
    assert_eq!(urls.len(), 1);
    assert_eq!(s(urls[0].1.clone()), "https://two");
}
