use laplace_lsp::analysis::{analyze, Analysis, ImportStatement, QualifiedCall};
use laplace_lsp::completion::{
    completion_scope, general_completions, package_completions, package_prefix, CompletionItemKind,
    CompletionScope, FunctionDoc, BLOCK_KEYWORDS,
};
use laplace_lsp::dialect::Dialect;
use laplace_lsp::mask::CodeMask;
use laplace_lsp::position::Position;
use laplace_lsp::session::{
    after_wait, call_at_position, goto_definition, hover_text, latest_change,
    DiagnosticsStep, EditCounter, InputStep, LeadingWhitespace, DIAGNOSTICS_DEBOUNCE_MILLIS,
};
use laplace_lsp::workspace::{LockedPackage, Lockfile, PackageFile};

fn at(line: u32, character: u32) -> Position {
    Position { line, character }
}

/// Reads all of `input` through the filter.
fn read_to_end(input: &[u8]) -> Vec<u8> {
    let mut filter = LeadingWhitespace::new();
    let mut out = Vec::new();
    let mut rest = input.iter().copied();
    loop {
        match filter.step(rest.next()) {
            InputStep::ReadOn => assert!(filter.is_skipping()),
            InputStep::Deliver(b) => {
                assert!(!filter.is_skipping());
                out.push(b);
            }
            InputStep::End => return out,
        }
    }
}

#[test]
fn skips_leading_whitespace() {
    let out = read_to_end(b"\r\n\r\nContent-Length: 2\r\n\r\n{}");
    assert_eq!(out, b"Content-Length: 2\r\n\r\n{}");
}

#[test]
fn passes_through_when_no_leading_whitespace() {
    let out = read_to_end(b"Content-Length: 2\r\n\r\n{}");
    assert_eq!(out, b"Content-Length: 2\r\n\r\n{}");
}

#[test]
fn handles_eof_with_only_whitespace() {
    let out = read_to_end(b"\r\n\r\n");
    assert_eq!(out, b"");
}

#[test]
fn the_end_of_the_input_ends_the_skipping() {
    let mut filter = LeadingWhitespace::new();
    assert!(filter.is_skipping());
    assert_eq!(filter.step(None), InputStep::End);
    assert!(!filter.is_skipping());
    assert_eq!(filter.step(Some(b' ')), InputStep::Deliver(b' '));
}

#[test]
fn an_edit_supersedes_the_ones_before() {
    let mut counter = EditCounter::new();
    assert_eq!(counter.count(), 0);
    let first = counter.edit();
    assert!(counter.is_current(first));
    let second = counter.edit();
    assert_eq!((first, second), (1, 2));
    assert!(!counter.is_current(first));
    assert!(counter.is_current(second));
    assert_eq!(after_wait(&counter, first, true), DiagnosticsStep::Superseded);
    assert_eq!(after_wait(&counter, first, false), DiagnosticsStep::Superseded);
    assert_eq!(after_wait(&counter, second, false), DiagnosticsStep::Closed);
    assert_eq!(after_wait(&counter, second, true), DiagnosticsStep::Compute);
    assert_eq!(DIAGNOSTICS_DEBOUNCE_MILLIS, 350);
}

#[test]
fn the_last_change_is_the_text() {
    assert_eq!(latest_change(&vec!["a".to_string(), "b".to_string()]), Some("b"));
    assert_eq!(latest_change(&vec![]), None);
}

#[test]
fn the_call_under_the_cursor_is_found() {
    let source = "model {\n  p::f(q::g(1));\n}\n";
    let call = |package: &str, func: &str, start: usize| QualifiedCall {
        package: package.to_string(),
        func: func.to_string(),
        range: start..start + 4,
    };
    let calls = vec![call("p", "f", 10), call("q", "g", 15)];
    assert_eq!(call_at_position(source, &calls, at(1, 1)), None);
    assert_eq!(call_at_position(source, &calls, at(1, 2)), Some(0));
    assert_eq!(call_at_position(source, &calls, at(1, 5)), Some(0));
    assert_eq!(call_at_position(source, &calls, at(1, 6)), None);
    assert_eq!(call_at_position(source, &calls, at(1, 7)), Some(1));
}

#[test]
fn documentation_is_shown_as_a_code_block() {
    assert_eq!(hover_text("gps::rbf_cov(x)\n"), "```\ngps::rbf_cov(x)\n```");
}

#[test]
fn a_definition_is_shown_where_the_name_stands() {
    let source = "// \u{1f600}\n/* \u{1f600} */ real rbf_cov(real x) {\n}\n";
    let files = vec![PackageFile {
        name: "gps.stan".to_string(),
        source: Some(source.to_string()),
        functions: Some(vec!["rbf_cov".to_string()]),
    }];
    let (k, range) = goto_definition(&files, "rbf_cov").unwrap();
    assert_eq!(k, 0);
    assert_eq!(range.start, at(1, 14));
    assert_eq!(range.end, at(1, 21));
    assert!(goto_definition(&files, "f").is_none());
}

#[test]
fn the_package_asked_for_stands_before_the_last_colons() {
    assert_eq!(package_prefix("real y = gps::"), Some("gps".to_string()));
    assert_eq!(package_prefix("gps::rbf_c"), Some("gps".to_string()));
    assert_eq!(package_prefix("a::b::c"), Some("b".to_string()));
    assert_eq!(package_prefix("gps::rbf(x"), None);
    assert_eq!(package_prefix("gps:"), None);
    assert_eq!(package_prefix("x = ::f"), None);
    assert_eq!(package_prefix("gps:::"), None);
    assert_eq!(package_prefix(""), None);
    // Letters and numbers outside ASCII count as well, other signs do not.
    assert_eq!(package_prefix("+\u{e9}\u{663}::\u{fc}"), Some("\u{e9}\u{663}".to_string()));
    assert_eq!(package_prefix("\u{2212}x::"), Some("x".to_string()));
    assert_eq!(package_prefix("gps::\u{2212}"), None);
}

#[test]
fn what_is_completed_depends_on_the_text_before_the_cursor() {
    let source = "model {\n  y = gps::rb\n}\n";
    match completion_scope(source, at(1, 11)) {
        CompletionScope::Package(name) => assert_eq!(name, "gps"),
        CompletionScope::General => panic!("expected a package"),
    }
    assert!(matches!(completion_scope(source, at(1, 10)), CompletionScope::General));
    assert!(matches!(completion_scope(source, at(2, 0)), CompletionScope::General));
}

fn small_analysis() -> Analysis {
    let source = "data {\n  real x;\n}\n";
    let mut closing = vec![None; source.len()];
    closing[5] = source.find('}');
    let mask = CodeMask::from_parts(source, vec![true; source.len()], closing).unwrap();
    let imports = vec![ImportStatement { name: "gps".to_string(), version: None }];
    analyze(source, &mask, &vec!["f".to_string()], &vec!["g".to_string()], vec![], imports)
}

#[test]
fn variables_functions_keywords_and_libraries_are_offered() {
    let items = general_completions(&small_analysis(), Dialect::Laplace);
    let labels: Vec<&str> = items.iter().map(|i| i.label.as_str()).collect();
    let mut expected = vec!["x", "f", "g"];
    expected.extend(BLOCK_KEYWORDS);
    expected.push("gps::");
    assert_eq!(labels, expected);
    assert_eq!(
        BLOCK_KEYWORDS,
        [
            "data",
            "parameters",
            "transformed data",
            "transformed parameters",
            "model",
            "generated quantities",
            "functions",
            "library",
        ]
    );

    assert_eq!(items[0].kind, CompletionItemKind::Variable);
    assert_eq!(items[0].detail, None);
    assert_eq!(items[1].kind, CompletionItemKind::Function);
    assert_eq!(items[1].detail.as_deref(), Some("user-defined"));
    assert_eq!(items[3].kind, CompletionItemKind::Keyword);
    let library = items.last().unwrap();
    assert_eq!(library.kind, CompletionItemKind::Module);
    assert_eq!(library.insert_text.as_deref(), Some("gps::"));
    assert_eq!(library.detail.as_deref(), Some("imported library"));
    assert_eq!(library.documentation, None);
}

#[test]
fn a_library_file_is_offered_the_keywords_that_are_legal_there() {
    let items = general_completions(&small_analysis(), Dialect::Library);
    let labels: Vec<&str> = items.iter().map(|i| i.label.as_str()).collect();
    assert_eq!(labels, vec!["x", "f", "g", "functions", "library", "gps::"]);
}

#[test]
fn the_functions_of_a_locked_package_are_offered() {
    let lock = Lockfile {
        packages: vec![LockedPackage { name: "gps".to_string(), version: "1.0.0".to_string() }],
    };
    let pair = |name: &str, ty: &str| (name.to_string(), ty.to_string());
    let docs = Some(vec![
        FunctionDoc {
            name: "rbf_cov".to_string(),
            params: vec![pair("x", "vector"), pair("alpha", "real")],
            return_type: "matrix".to_string(),
            brief: Some("A covariance.".to_string()),
        },
        FunctionDoc {
            name: "seed".to_string(),
            params: vec![],
            return_type: "int".to_string(),
            brief: None,
        },
    ]);
    let items = package_completions(&lock, "gps", &docs);
    assert_eq!(items.len(), 2);
    assert_eq!(items[0].label, "rbf_cov");
    assert_eq!(items[0].kind, CompletionItemKind::Function);
    assert_eq!(items[0].detail.as_deref(), Some("(x: vector, alpha: real) -> matrix"));
    assert_eq!(items[0].documentation.as_deref(), Some("A covariance."));
    assert_eq!(items[1].detail.as_deref(), Some("() -> int"));
    assert_eq!(items[1].documentation, None);
    assert_eq!(items[1].insert_text, None);

    assert!(package_completions(&lock, "other", &docs).is_empty());
    assert!(package_completions(&lock, "gps", &None).is_empty());
}
