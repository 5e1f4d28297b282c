use laplace_lsp::analysis::ImportStatement;
use laplace_lsp::blocks::{BlockKind, TopLevelBlock};
use laplace_lsp::diagnostics::{Diagnostic, LibraryBlock, Severity};
use laplace_lsp::dialect::Dialect;
use laplace_lsp::library::{
    blocks_are_library_shaped, ranges_are_usable, wrap_library_source, WrappedLibrary,
};
use laplace_lsp::mask::CodeMask;
use laplace_lsp::position::{line_starts, LspRange, Position};
use laplace_lsp::stanc::{
    checked_stanc_diagnostics_for_uri, compute_stanc_diagnostics, compute_stanc_diagnostics_for_path,
    compute_stanc_diagnostics_for_uri, find_on_path, generated_offset, locate_stanc,
    newest_cmdstan_stanc, package_fallback, packages_to_load, run_is_usable, stanc_output,
    stanc_program, to_lsp_diagnostic, CmdstanEntry, LocatedReport, PackageLines, StancProgram,
    StancReport, StancRun,
};
use laplace_lsp::versions::{find_version_order, version_may_precede, Precedence};
use laplace_lsp::workspace::{FileCandidate, LockedPackage, Lockfile};

fn at(line: u32, character: u32) -> Position {
    Position { line, character }
}

/// Everything but line comments is code.
fn mask_of(source: &str) -> CodeMask {
    let bytes = source.as_bytes();
    let mut code = vec![true; bytes.len()];
    let mut in_comment = false;
    for i in 0..bytes.len() {
        if bytes[i] == b'\n' {
            in_comment = false;
        } else if bytes[i..].starts_with(b"//") {
            in_comment = true;
        }
        code[i] = !in_comment;
    }
    CodeMask::from_parts(source, code, vec![None; bytes.len()]).unwrap()
}

fn import(name: &str) -> ImportStatement {
    ImportStatement { name: name.to_string(), version: None }
}

/// The block that the keyword `keyword` opens.
fn block(source: &str, kind: BlockKind, keyword: &str) -> TopLevelBlock {
    let start = source.find(&format!("{} {{", keyword)).unwrap();
    let open = start + source[start..].find('{').unwrap();
    let mut depth = 0;
    for (i, b) in source.bytes().enumerate().skip(open) {
        if b == b'{' {
            depth += 1;
        } else if b == b'}' {
            depth -= 1;
            if depth == 0 {
                return TopLevelBlock { kind, byte_range: start..i + 1, body_range: open + 1..i };
            }
        }
    }
    panic!("the block does not end")
}

fn library(source: &str, imports: Vec<ImportStatement>) -> LibraryBlock {
    LibraryBlock { byte_range: block(source, BlockKind::Library, "library").byte_range, imports }
}

fn gps_lock() -> Lockfile {
    Lockfile {
        packages: vec![LockedPackage { name: "gps".to_string(), version: "1.0.0".to_string() }],
    }
}

fn no_lock() -> Lockfile {
    Lockfile { packages: vec![] }
}

fn report(severity: Severity, line: usize, column_start: usize, column_end: usize, message: &str) -> StancReport {
    StancReport { severity, line, column_start, column_end, message: message.to_string() }
}

/// A run on a file without imports: what the compiler generates is the
/// program as it is, so its source map leads from an offset to itself.
fn plain_run(source: &str, compiled: &str, reports: Option<Vec<StancReport>>) -> StancRun {
    let starts = line_starts(compiled);
    let located = |report: StancReport| LocatedReport {
        compiled_offset: generated_offset(&starts, &report),
        report,
    };
    StancRun {
        mask: mask_of(source),
        compiled_block: Ok(None),
        original_block: Ok(None),
        loaded: vec![],
        packages: Some(vec![]),
        reports: reports.map(|all| all.into_iter().map(located).collect()),
    }
}

#[test]
fn no_diagnostics_when_stanc_succeeds() {
    let source = "data {\n  int N;\n}\nmodel {\n}\n";
    assert!(stanc_output(true, "", "").is_none());
    let run = plain_run(source, source, None);
    let diags = compute_stanc_diagnostics(source, Dialect::Laplace, &vec![], &no_lock(), &run);
    assert!(diags.is_empty());
}

#[test]
fn a_stanc_error_is_relocated_onto_the_original_source() {
    let source = "data {\n  vector[1] x;\n}\nmodel {\n  real y = x[1]\n  y ~ normal(0, 1);\n}\n";
    let run = plain_run(source, source, Some(vec![report(Severity::Error, 5, 2, 3, "Ill-formed expression.\n")]));
    assert!(run_is_usable(source, Dialect::Laplace, &vec![], &run));
    let diags = compute_stanc_diagnostics(source, Dialect::Laplace, &vec![], &no_lock(), &run);

    assert_eq!(diags.len(), 1);
    let d = &diags[0];
    assert_eq!(d.severity, Severity::Error);
    assert_eq!(d.source, "stanc");
    assert!(d.message.starts_with("Ill-formed expression."));
    assert_eq!(d.range.start.line, 4);
    assert_eq!(d.range, LspRange { start: at(4, 2), end: at(4, 3) });
}

#[test]
fn a_warning_gets_warning_severity() {
    let source = "data {\n  int N;\n}\nmodel {\n}\n";
    let run = plain_run(source, source, Some(vec![report(Severity::Warning, 1, 0, 4, "Something deprecated.\n")]));
    let diags = compute_stanc_diagnostics(source, Dialect::Laplace, &vec![], &no_lock(), &run);
    assert_eq!(diags.len(), 1);
    assert_eq!(diags[0].severity, Severity::Warning);
}

#[test]
fn error_inside_a_spliced_package_falls_back_to_the_import_statement() {
    let source = "library {\n  import gps\n}\nmodel {\n  real y = gps::rbf_cov([1.0], 1.0, 1.0)[1, 1];\n}\n";
    let pkg_line: usize = 2;
    let message = "Something wrong in the package's own code.\n";
    let run = StancRun {
        mask: mask_of(source),
        compiled_block: Ok(Some(library(source, vec![import("gps")]))),
        original_block: Ok(Some(library(source, vec![import("gps")]))),
        loaded: vec![true],
        packages: Some(vec![PackageLines { package: "gps".to_string(), first: pkg_line, last: 4 }]),
        reports: Some(vec![LocatedReport {
            report: report(Severity::Error, pkg_line, 0, 1, message),
            compiled_offset: None,
        }]),
    };
    assert!(run_is_usable(source, Dialect::Laplace, &vec![], &run));
    let diags = compute_stanc_diagnostics(source, Dialect::Laplace, &vec![], &gps_lock(), &run);

    assert_eq!(diags.len(), 1);
    let d = &diags[0];
    assert!(d.message.contains("in imported package `gps`"));
    assert!(d.range.start.line > 0 || d.range.start.character > 0);
    assert_eq!(d.message, format!("in imported package `gps`: {}", message));
    assert_eq!(d.range, LspRange { start: at(1, 2), end: at(1, 12) });
}

#[test]
fn no_diagnostics_when_imports_dont_resolve() {
    let source = "library {\n  import gps\n}\nmodel {\n}\n";
    let run = StancRun {
        mask: mask_of(source),
        compiled_block: Ok(Some(library(source, vec![import("gps")]))),
        original_block: Ok(Some(library(source, vec![import("gps")]))),
        loaded: vec![false],
        packages: None,
        reports: None,
    };
    let diags = compute_stanc_diagnostics(source, Dialect::Laplace, &vec![], &no_lock(), &run);
    assert!(diags.is_empty());
    assert!(packages_to_load(&no_lock(), &vec![import("gps")]).is_none());
}

#[test]
fn a_library_of_bare_definitions_is_wrapped_into_a_stan_program() {
    let source = "library {\n  import gps\n}\n\nreal f(real x) {\n  return x;\n}\n";
    let blocks = vec![block(source, BlockKind::Library, "library")];
    let wrapped = wrap_library_source(source, &blocks).unwrap();

    assert!(wrapped.text.contains("library {\n  import gps\n}"));
    assert!(wrapped.text.contains("functions {"));
    let body_at = wrapped.text.find("real f(real x)").unwrap();
    assert!(wrapped.text[..body_at].contains("functions {"));
    assert!(wrapped.text.trim_end().ends_with('}'));
    assert_eq!(
        wrapped.text,
        "library {\n  import gps\n}\nfunctions {\n\n\nreal f(real x) {\n  return x;\n}\n\n}\n"
    );
}

#[test]
fn an_existing_functions_wrapper_is_unwrapped_rather_than_nested() {
    let source = "functions {\n  real f(real x) {\n    return x;\n  }\n}\n";
    let blocks = vec![block(source, BlockKind::Functions, "functions")];
    let wrapped = wrap_library_source(source, &blocks).unwrap();
    assert_eq!(wrapped.text.matches("functions {").count(), 1);
}

#[test]
fn wrapping_maps_every_copied_byte_back_to_where_it_came_from() {
    let source = "library {\n  import gps\n}\n\nreal f(real x) {\n  return x;\n}\n";
    let blocks = vec![block(source, BlockKind::Library, "library")];
    let wrapped = wrap_library_source(source, &blocks).unwrap();

    for (range, _) in &wrapped.segments {
        for offset in range.clone() {
            let original = wrapped.map(offset).expect("a copied byte maps back");
            assert_eq!(
                wrapped.text.as_bytes()[offset],
                source.as_bytes()[original],
                "offset {offset} mapped to {original}"
            );
        }
    }

    let functions_kw = wrapped.text.find("functions {").unwrap();
    assert_eq!(wrapped.map(functions_kw), None);
}

#[test]
fn a_forbidden_block_produces_no_stanc_diagnostics() {
    let source = "model {\n  y ~ normal(0, 1);\n}\n";
    let blocks = vec![block(source, BlockKind::Model, "model")];
    assert!(wrap_library_source(source, &blocks).is_none());

    let run = plain_run(source, source, Some(vec![report(Severity::Error, 1, 0, 1, "should never run")]));
    let diags = compute_stanc_diagnostics(source, Dialect::Library, &blocks, &no_lock(), &run);
    assert!(diags.is_empty());
}

#[test]
fn a_stanc_error_in_a_library_is_relocated_onto_the_original_source() {
    let source = "real f(real x) {\n  return x\n}\n";
    let program = stanc_program(source, Dialect::Library, &vec![]).unwrap();
    let run = plain_run(
        source,
        program.text(source),
        Some(vec![report(Severity::Error, 3, 2, 3, "Ill-formed statement.\n")]),
    );
    assert!(run_is_usable(source, Dialect::Library, &vec![], &run));
    let diags = compute_stanc_diagnostics(source, Dialect::Library, &vec![], &no_lock(), &run);

    assert_eq!(diags.len(), 1);
    let d = &diags[0];
    assert!(d.message.starts_with("Ill-formed statement."));
    assert_eq!(d.range.start.line, 1);
    assert_eq!(d.range.start.character, 2);
}

#[test]
fn wrapping_gathers_what_stands_around_the_blocks() {
    let source = "real a() {}\nlibrary { import p }\nfunctions { real b() {} }\nreal c() {}";
    let blocks = vec![
        block(source, BlockKind::Library, "library"),
        block(source, BlockKind::Functions, "functions"),
    ];
    assert!(ranges_are_usable(source, &blocks));
    assert!(blocks_are_library_shaped(&blocks));
    let wrapped = wrap_library_source(source, &blocks).unwrap();
    assert_eq!(
        wrapped.text,
        "library { import p }\nfunctions {\nreal a() {}\n\n real b() {} \nreal c() {}\n}\n"
    );
    // Nothing of the definitions is lost: each byte of them is mapped to once.
    let mut origins: Vec<usize> = (0..wrapped.text.len()).filter_map(|i| wrapped.map(i)).collect();
    origins.sort();
    let bookends: Vec<usize> = (0..source.len()).filter(|i| !origins.contains(i)).collect();
    let dropped: String = bookends.iter().map(|i| &source[*i..*i + 1]).collect();
    assert_eq!(dropped, "functions {}");
    let mut distinct = origins.clone();
    distinct.dedup();
    assert_eq!(distinct, origins);
    assert_eq!(wrapped.map(wrapped.text.len()), None);
    assert_eq!(wrapped.map(usize::MAX), None);
}

#[test]
fn empty_ranges_are_not_copied() {
    let mut wrapped = WrappedLibrary { text: String::new(), segments: vec![] };
    wrapped.copy("abc", 2..2);
    assert!(wrapped.segments.is_empty());
    wrapped.copy("abc", 1..3);
    assert_eq!(wrapped.text, "bc");
    assert_eq!(wrapped.segments, vec![(0..2, 1)]);
}

#[test]
fn blocks_that_do_not_fit_the_text_are_noticed() {
    let outside = TopLevelBlock { kind: BlockKind::Library, byte_range: 0..99, body_range: 1..98 };
    assert!(!ranges_are_usable("library { }", &vec![outside]));
    let forbidden = TopLevelBlock { kind: BlockKind::Data, byte_range: 0..4, body_range: 1..3 };
    assert!(!blocks_are_library_shaped(&vec![forbidden]));
}

#[test]
fn a_project_file_is_checked_as_it_is() {
    let program = stanc_program("model { }", Dialect::Laplace, &vec![]).unwrap();
    assert!(matches!(program, StancProgram::AsIs));
    assert_eq!(program.text("model { }"), "model { }");
    assert_eq!(program.map(Some(3)), Some(3));
    assert_eq!(program.map(None), None);
}

#[test]
fn reports_name_lines_from_one() {
    let starts = line_starts("ab\ncd\n");
    assert_eq!(generated_offset(&starts, &report(Severity::Error, 2, 1, 2, "")), Some(4));
    assert_eq!(generated_offset(&starts, &report(Severity::Error, 0, 1, 2, "")), Some(1));
    assert_eq!(generated_offset(&starts, &report(Severity::Error, 4, 0, 1, "")), None);
}

#[test]
fn a_report_is_at_least_one_byte_wide_and_ends_in_the_file() {
    let source = "ab\ncd";
    let starts = line_starts(source);
    let shown = |offset: Option<usize>, r: StancReport| -> Diagnostic {
        to_lsp_diagnostic(source, &mask_of(source), &starts, &vec![], &None, offset, &r)
    };
    let d = shown(Some(3), report(Severity::Error, 2, 4, 4, "m"));
    assert_eq!(d.range, LspRange { start: at(1, 0), end: at(1, 1) });
    let d = shown(Some(3), report(Severity::Error, 2, 0, 50, "m"));
    assert_eq!(d.range, LspRange { start: at(1, 0), end: at(1, 2) });
    // Nowhere to point at: the start of the file.
    let d = shown(None, report(Severity::Error, 2, 0, 1, "m"));
    assert_eq!(d.range, LspRange { start: at(0, 0), end: at(0, 0) });
    assert_eq!(d.message, "m");
}

#[test]
fn the_package_of_a_line_is_the_first_that_has_it() {
    let source = "library { import a import b }";
    let block = Some(library(source, vec![import("a"), import("b")]));
    let lines = |package: &str, first: usize, last: usize| PackageLines { package: package.to_string(), first, last };
    let mask = mask_of(source);
    let packages = vec![lines("a", 1, 3), lines("b", 3, 5), lines("c", 6, 6)];
    assert_eq!(package_fallback(source, &mask, &packages, &block, 3), Some((10..18, "a")));
    assert_eq!(package_fallback(source, &mask, &packages, &block, 5), Some((19..27, "b")));
    assert_eq!(package_fallback(source, &mask, &packages, &block, 6), None);
    assert_eq!(package_fallback(source, &mask, &packages, &block, 7), None);
    assert_eq!(package_fallback(source, &mask, &packages, &None, 1), None);
}

#[test]
fn every_import_must_be_locked_and_loaded() {
    let lock = Lockfile {
        packages: vec![
            LockedPackage { name: "a".to_string(), version: "1".to_string() },
            LockedPackage { name: "b".to_string(), version: "2".to_string() },
        ],
    };
    assert_eq!(packages_to_load(&lock, &vec![import("b"), import("a")]), Some(vec![1, 0]));
    assert_eq!(packages_to_load(&lock, &vec![import("b"), import("c")]), None);
    assert_eq!(packages_to_load(&lock, &vec![]), Some(vec![]));

    let source = "library { import a }";
    let run = |loaded: bool, generated: bool, broken: bool| StancRun {
        mask: mask_of(source),
        compiled_block: if broken { Err("m".to_string()) } else { Ok(Some(library(source, vec![import("a")]))) },
        original_block: Ok(Some(library(source, vec![import("a")]))),
        loaded: vec![loaded],
        packages: if generated { Some(vec![]) } else { None },
        reports: Some(vec![LocatedReport {
            report: report(Severity::Error, 1, 0, 1, "m"),
            compiled_offset: Some(0),
        }]),
    };
    let count = |r: StancRun| compute_stanc_diagnostics(source, Dialect::Laplace, &vec![], &lock, &r).len();
    assert_eq!(count(run(true, true, false)), 1);
    assert_eq!(count(run(false, true, false)), 0);
    assert_eq!(count(run(true, false, false)), 0);
    assert_eq!(count(run(true, true, true)), 0);
}

#[test]
fn documents_are_checked_if_they_are_files_and_stanc_is_there() {
    let source = "model { } // \u{e9}";
    let run = plain_run(source, source, Some(vec![report(Severity::Error, 1, 0, 1, "m")]));
    let stanc = Some("/usr/bin/stanc".to_string());
    let lock = no_lock();
    let count = |stanc: &Option<String>, uri: &str| {
        compute_stanc_diagnostics_for_uri(stanc, uri, source, &vec![], &lock, &run).len()
    };
    assert_eq!(count(&stanc, "file:///m/a.laplace"), 1);
    assert_eq!(count(&stanc, "untitled:a.laplace"), 0);
    assert_eq!(count(&None, "file:///m/a.laplace"), 0);
    let path = Some("/m/a.laplace".to_string());
    assert_eq!(compute_stanc_diagnostics_for_path(&stanc, &path, source, &vec![], &lock, &run).len(), 1);
    let checked = checked_stanc_diagnostics_for_uri(&stanc, "file:///m/a.laplace", source, &vec![], &lock, &run);
    assert_eq!(checked.unwrap().len(), 1);
    // In the middle of a character.
    let misplaced = StancRun {
        reports: Some(vec![LocatedReport {
            report: report(Severity::Error, 1, 0, 1, "m"),
            compiled_offset: Some(14),
        }]),
        ..plain_run(source, source, None)
    };
    let checked =
        checked_stanc_diagnostics_for_uri(&stanc, "file:///m/a.laplace", source, &vec![], &lock, &misplaced);
    assert!(checked.is_none());
    let other_mask = plain_run("another text", source, None);
    assert!(!run_is_usable(source, Dialect::Laplace, &vec![], &other_mask));
}

#[test]
fn the_output_of_a_failed_run_is_its_first_stream_that_says_something() {
    assert_eq!(stanc_output(false, "error", "out"), Some("error"));
    assert_eq!(stanc_output(false, " \n\t", "out"), Some("out"));
    // Whitespace outside ASCII says nothing either.
    assert_eq!(stanc_output(false, "\u{2003}\u{a0}", "out"), Some("out"));
    assert_eq!(stanc_output(false, "\u{200b}", "out"), Some("\u{200b}"));
    assert_eq!(stanc_output(false, "", ""), Some(""));
    assert_eq!(stanc_output(true, "warning", "out"), None);
}

fn candidate(path: &str, is_file: bool) -> FileCandidate {
    FileCandidate { path: path.to_string(), is_file }
}

fn cmdstan(name: &str, is_dir: bool, has_stanc: bool) -> CmdstanEntry {
    CmdstanEntry {
        name: name.to_string(),
        is_dir,
        stanc: candidate(&format!("{}/bin/stanc", name), has_stanc),
    }
}

#[test]
fn the_newest_installation_is_taken() {
    let entries = vec![
        cmdstan("cmdstan-2.33.1", true, true),
        cmdstan("cmdstan-2.35.0", true, true),
        cmdstan("cmdstan-2.34.0", true, true),
        cmdstan("cmdstan-9.9.9", false, true),
        cmdstan("other", true, true),
    ];
    assert_eq!(newest_cmdstan_stanc(&entries), Some("cmdstan-2.35.0/bin/stanc"));
    // Numbers count as numbers.
    let entries = vec![cmdstan("cmdstan-2.9.0", true, true), cmdstan("cmdstan-2.33.0", true, true)];
    assert_eq!(newest_cmdstan_stanc(&entries), Some("cmdstan-2.33.0/bin/stanc"));
    let entries = vec![cmdstan("cmdstan-2.33.10", true, true), cmdstan("cmdstan-2.33.9", true, true)];
    assert_eq!(newest_cmdstan_stanc(&entries), Some("cmdstan-2.33.10/bin/stanc"));
    // No older one in its place.
    let entries = vec![cmdstan("cmdstan-2.33.1", true, true), cmdstan("cmdstan-2.35.0", true, false)];
    assert_eq!(newest_cmdstan_stanc(&entries), None);
    assert_eq!(newest_cmdstan_stanc(&vec![]), None);
}

#[test]
fn stanc_is_looked_for_in_three_places() {
    let on_path = vec![candidate("/a/stanc", false), candidate("/b/stanc", true)];
    let installed = vec![cmdstan("cmdstan-2.35.0", true, true)];
    assert_eq!(find_on_path(&on_path), Some("/b/stanc"));
    let configured = Some(candidate("/c/stanc", true));
    assert_eq!(locate_stanc(&configured, &on_path, &installed), Some("/c/stanc"));
    let configured = Some(candidate("/c/stanc", false));
    assert_eq!(locate_stanc(&configured, &on_path, &installed), Some("/b/stanc"));
    assert_eq!(locate_stanc(&None, &vec![], &installed), Some("cmdstan-2.35.0/bin/stanc"));
    assert_eq!(locate_stanc(&None, &vec![], &vec![]), None);
}

#[test]
fn versions_are_ordered_by_their_numbers() {
    let ascending = [
        "cmdstan-",
        "cmdstan-2",
        "cmdstan-2.9.0",
        "cmdstan-2.33",
        "cmdstan-2.33-rc1",
        "cmdstan-2.33.0",
        "cmdstan-2.33.0-rc2",
        "cmdstan-2.33.0-rc10",
        "cmdstan-2.100",
        "cmdstan-10.0",
        "cmdstan-99999999999999999999999999999999999999999",
        "cmdstan-100000000000000000000000000000000000000000",
        "cmdstan-nightly",
    ];
    for (i, a) in ascending.iter().enumerate() {
        for (j, b) in ascending.iter().enumerate() {
            let expected = if i < j {
                Precedence::Before
            } else if i == j {
                Precedence::Same
            } else {
                Precedence::After
            };
            assert_eq!(find_version_order(a, b), expected, "{} {}", a, b);
            assert_eq!(version_may_precede(a, b), i <= j);
        }
    }
    // Leading zeros do not count, but they keep two names apart.
    assert_eq!(find_version_order("2.033", "2.33"), Precedence::Same);
    assert!(version_may_precede("2.033", "2.33") && !version_may_precede("2.33", "2.033"));
}
