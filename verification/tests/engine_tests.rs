use scaffer::cases::CaseFamily;
use scaffer::cases::canonicalize;
use scaffer::cases::render;
use scaffer::cases::render_fragment;
use scaffer::engine::contains_template_variables;
use scaffer::engine::replace_all;
use scaffer::template::TemplateProcessor;

fn s(bytes: Vec<u8>) -> String {
    String::from_utf8(bytes).unwrap()
}

#[test]
fn test_variable_extraction() {
    let processor = TemplateProcessor::new();
    let text = r#"
            ScfMyProject vs ScfOtherVar in pascalcase.
            Lower kebab scf-my-project scf-other-var
            Lower snake scf_my_project scf_other_var
            Lower dotted scf.my.project scf.other.var
            Lower flat scfmyproject scfothervar
            Upper dotted SCF.MY.PROJECT SCF.OTHER.VAR
            Upper kebab SCF-MY-PROJECT SCF-OTHER-VAR
            Upper snake SCF_MY_PROJECT SCF_OTHER_VAR
            Upper flat SCFMYPROJECT SCFOTHERVAR
        "#;

    let variables = processor.extract_variables(text.as_bytes());
    let mut vars: Vec<String> = variables.into_iter().map(s).collect();
    vars.sort();

    let expected = vec![
        "my-project",
        "my.project",
        "myproject",
        "other-var",
        "other.var",
        "othervar",
    ];
    assert_eq!(vars, expected);
}

#[test]
fn test_variable_replacement() {
    let mut processor = TemplateProcessor::new();
    processor.set_variable(b"my-project".to_vec(), b"hello-world".to_vec());

    let text = "ScfMyProject and scf-my-project and SCF_MY_PROJECT";
    let result = s(processor.process_text(text.as_bytes()));

    assert!(result.contains("ScfHelloWorld"));
    assert!(result.contains("scf-hello-world"));
    assert!(result.contains("SCF_HELLO_WORLD"));
}

#[test]
fn test_path_processing() {
    let mut processor = TemplateProcessor::new();
    processor.set_variable(b"project".to_vec(), b"my-app".to_vec());

    let path = "src/ScfProject/scf-project.rs";
    let result = s(processor.process_path(path.as_bytes()));

    assert_eq!(result, "src/ScfMyApp/scf-my-app.rs");
}

#[test]
fn test_contains_template_variables() {
    assert!(contains_template_variables(b"ScfMyProject"));
    assert!(contains_template_variables(b"scf-my-project"));
    assert!(contains_template_variables(b"SCF_MY_PROJECT"));
    assert!(contains_template_variables(b"scf.my.project"));
    assert!(!contains_template_variables(b"regular text"));
    assert!(!contains_template_variables(b"scaffold"));
}

#[test]
fn test_canonicalize_non_collapse() {
    assert_eq!(s(canonicalize(b"my.project")), "my.project");
    assert_eq!(s(canonicalize(b"myproject")), "myproject");
    assert_eq!(s(canonicalize(b"my-project")), "my-project");
}

#[test]
fn test_canonicalize_boundaries() {
    assert_eq!(s(canonicalize(b"MyProject")), "my-project");
    assert_eq!(s(canonicalize(b"my_project")), "my-project");
    assert_eq!(s(canonicalize(b"MY_PROJECT")), "my-project");
    assert_eq!(s(canonicalize(b"MY.PROJECT")), "my.project");
    assert_eq!(s(canonicalize(b"MYPROJECT")), "myproject");
}

#[test]
fn test_render_families() {
    let n: &[u8] = b"hello-world";
    assert_eq!(s(render(n, CaseFamily::PascalBranded)), "ScfHelloWorld");
    assert_eq!(s(render(n, CaseFamily::UpperSnakeBranded)), "SCF_HELLO_WORLD");
    assert_eq!(s(render(n, CaseFamily::UpperKebabBranded)), "SCF-HELLO-WORLD");
    assert_eq!(s(render(n, CaseFamily::UpperDotBranded)), "SCF.HELLO.WORLD");
    assert_eq!(s(render(n, CaseFamily::LowerSnakeBranded)), "scf_hello_world");
    assert_eq!(s(render(n, CaseFamily::LowerKebabBranded)), "scf-hello-world");
    assert_eq!(s(render(n, CaseFamily::LowerDotBranded)), "scf.hello.world");
    assert_eq!(s(render(n, CaseFamily::LowerFlatBranded)), "scfhelloworld");
    assert_eq!(s(render(n, CaseFamily::UpperFlatBranded)), "SCFHELLOWORLD");
}

#[test]
fn test_roundtrip_without_hyphen() {
    let families = [
        CaseFamily::PascalBranded,
        CaseFamily::UpperSnakeBranded,
        CaseFamily::UpperKebabBranded,
        CaseFamily::UpperDotBranded,
        CaseFamily::LowerSnakeBranded,
        CaseFamily::LowerKebabBranded,
        CaseFamily::LowerDotBranded,
        CaseFamily::LowerFlatBranded,
        CaseFamily::UpperFlatBranded,
    ];
    for name in [&b"myproject"[..], &b"my.project"[..]] {
        for f in families {
            let rendered = render_fragment(name, f);
            assert_eq!(canonicalize(&rendered), name.to_vec());
        }
    }
}

#[test]
fn test_roundtrip_with_hyphen() {
    // snake, kebab and Pascal re-express the hyphen and round-trip exactly
    for f in [
        CaseFamily::PascalBranded,
        CaseFamily::UpperSnakeBranded,
        CaseFamily::UpperKebabBranded,
        CaseFamily::LowerSnakeBranded,
        CaseFamily::LowerKebabBranded,
    ] {
        let rendered = render_fragment(b"my-project", f);
        assert_eq!(canonicalize(&rendered), b"my-project".to_vec());
    }
    // dot and flat renderings lose the hyphen by design
    assert_eq!(
        canonicalize(&render_fragment(b"my-project", CaseFamily::LowerDotBranded)),
        b"my.project".to_vec()
    );
    assert_eq!(
        canonicalize(&render_fragment(b"my-project", CaseFamily::LowerFlatBranded)),
        b"myproject".to_vec()
    );
}

#[test]
fn test_word_boundaries_respected() {
    // a placeholder glued to word bytes is not an occurrence
    assert!(!contains_template_variables(b"xscf-foo"));
    assert!(!contains_template_variables(b"myscfthing2x_"));
    assert!(contains_template_variables(b"(scf-foo)"));
}

#[test]
fn test_replace_all_bounded() {
    let r = replace_all(b"scf-a and xscf-a", b"scf-a", b"ok");
    assert_eq!(r, b"ok and xscf-a".to_vec());
}

#[test]
fn test_missing_variables() {
    let mut processor = TemplateProcessor::new();
    processor.set_variable(b"known".to_vec(), b"v".to_vec());
    let required = vec![b"known".to_vec(), b"absent".to_vec(), b"gone".to_vec()];
    let missing = processor.get_missing_variables(&required);
    assert_eq!(missing, vec![b"absent".to_vec(), b"gone".to_vec()]);
}

#[test]
fn test_last_value_wins() {
    let mut processor = TemplateProcessor::new();
    processor.set_variable(b"MyProject".to_vec(), b"first".to_vec());
    processor.set_variable(b"my_project".to_vec(), b"second".to_vec());
    let result = s(processor.process_text(b"scf-my-project"));
    assert_eq!(result, "scf-second");
}
