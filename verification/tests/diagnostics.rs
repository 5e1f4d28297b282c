use laplace_lsp::analysis::{ImportStatement, QualifiedCall};
use laplace_lsp::blocks::{BlockKind, TopLevelBlock};
use laplace_lsp::diagnostics::{
    checked_diagnostics_for_uri, codegen_error_range, compilation_is_usable, compute_diagnostics,
    compute_diagnostics_for_path, compute_diagnostics_for_uri, diagnostic, find_import,
    forbidden_block_diagnostics, import_range, library_is_usable, span_is_usable, to_lsp_range,
    unresolved_diagnostics,
    CodegenError, CodegenFailure, Compilation, Diagnostic, LibraryBlock, PackageStatus, Severity,
};
use laplace_lsp::dialect::Dialect;
use laplace_lsp::mask::CodeMask;
use laplace_lsp::position::{line_starts, LspRange, Position};
use laplace_lsp::workspace::{LockedPackage, Lockfile};

fn at(line: u32, character: u32) -> Position {
    Position { line, character }
}

/// Everything but line comments is code.
fn mask_of(source: &str) -> CodeMask {
    let bytes = source.as_bytes();
    let mut code = vec![true; bytes.len()];
    let mut in_comment = false;
    for i in 0..bytes.len() {
        if bytes[i] == b'\n' {
            in_comment = false;
        } else if bytes[i..].starts_with(b"//") {
            in_comment = true;
        }
        code[i] = !in_comment;
    }
    CodeMask::from_parts(source, code, vec![None; bytes.len()]).unwrap()
}

fn import(name: &str, version: Option<&str>) -> ImportStatement {
    ImportStatement { name: name.to_string(), version: version.map(|v| v.to_string()) }
}

/// The block that the keyword `keyword` opens.
fn block(source: &str, kind: BlockKind, keyword: &str) -> TopLevelBlock {
    let start = source.find(&format!("{} {{", keyword)).unwrap();
    let open = start + source[start..].find('{').unwrap();
    let mut depth = 0;
    for (i, b) in source.bytes().enumerate().skip(open) {
        if b == b'{' {
            depth += 1;
        } else if b == b'}' {
            depth -= 1;
            if depth == 0 {
                return TopLevelBlock { kind, byte_range: start..i + 1, body_range: open + 1..i };
            }
        }
    }
    panic!("the block does not end")
}

fn library(source: &str, imports: Vec<ImportStatement>) -> LibraryBlock {
    LibraryBlock { byte_range: block(source, BlockKind::Library, "library").byte_range, imports }
}

fn compilation(source: &str, imports: Vec<ImportStatement>) -> Compilation {
    let library_block = if source.contains("library {") { Some(library(source, imports)) } else { None };
    Compilation {
        mask: mask_of(source),
        blocks: vec![],
        library_block: Ok(library_block),
        calls: vec![],
        failure: None,
    }
}

fn failing(compiled: Compilation, error: CodegenError, message: &str) -> Compilation {
    Compilation { failure: Some(CodegenFailure { error, message: message.to_string() }), ..compiled }
}

fn gps_lock() -> Lockfile {
    Lockfile {
        packages: vec![LockedPackage { name: "gps".to_string(), version: "1.0.0".to_string() }],
    }
}

fn no_lock() -> Lockfile {
    Lockfile { packages: vec![] }
}

#[test]
fn clean_file_with_installed_package_has_no_diagnostics() {
    let source = "library {\n  import gps\n}\nmodel {\n  real y = gps::rbf_cov([1.0], 1.0, 1.0)[1, 1];\n}\n";
    let compiled = compilation(source, vec![import("gps", None)]);
    assert!(compilation_is_usable(source, Dialect::Laplace, &compiled));
    let diags =
        compute_diagnostics(source, Dialect::Laplace, &compiled, &gps_lock(), &vec![PackageStatus::Loaded]);
    assert!(diags.is_empty());
}

#[test]
fn import_missing_from_lockfile_is_flagged() {
    let source = "library {\n  import gps\n}\nmodel {\n}\n";
    let compiled = compilation(source, vec![import("gps", None)]);
    let compiled = failing(
        compiled,
        CodegenError::MissingImport { package: "gps".to_string() },
        "`gps` is imported but not installed",
    );
    let diags =
        compute_diagnostics(source, Dialect::Laplace, &compiled, &no_lock(), &vec![PackageStatus::NotInstalled]);
    assert_eq!(diags.len(), 1);
    assert!(diags[0].message.contains("laplace add gps"));
    assert_eq!(
        diags[0].message,
        "`gps` is imported but not recorded in laplace.lock -- run `laplace add gps`"
    );
    assert_eq!(diags[0].range, LspRange { start: at(1, 2), end: at(1, 12) });
    assert_eq!(diags[0].severity, Severity::Error);
    assert_eq!(diags[0].source, "laplace");
}

#[test]
fn locked_but_not_installed_is_flagged() {
    let source = "library {\n  import gps\n}\nmodel {\n}\n";
    let compiled = failing(
        compilation(source, vec![import("gps", None)]),
        CodegenError::MissingImport { package: "gps".to_string() },
        "`gps` is imported but not installed",
    );
    let diags = compute_diagnostics(
        source,
        Dialect::Laplace,
        &compiled,
        &gps_lock(),
        &vec![PackageStatus::NotInstalled],
    );
    assert_eq!(diags.len(), 1);
    assert!(diags[0].message.contains("laplace install"));
    assert_eq!(diags[0].message, "`gps@1.0.0` is locked but not installed -- run `laplace install`");
}

#[test]
fn pinned_version_mismatch_against_lockfile_is_flagged() {
    let source = "library {\n  import gps@2.0.0\n}\nmodel {\n}\n";
    let compiled = compilation(source, vec![import("gps", Some("2.0.0"))]);
    let diags =
        compute_diagnostics(source, Dialect::Laplace, &compiled, &gps_lock(), &vec![PackageStatus::Loaded]);
    assert_eq!(diags.len(), 1);
    assert!(diags[0].message.contains("pinned to 2.0.0"));
    assert!(diags[0].message.contains("laplace.lock has 1.0.0"));
    assert_eq!(
        diags[0].message,
        "`gps` is pinned to 2.0.0 here, but laplace.lock has 1.0.0 -- run `laplace update gps`"
    );
}

#[test]
fn unresolved_pkg_func_call_is_flagged() {
    let source = "library {\n  import gps\n}\nmodel {\n  real y = gps::matern_cov(1.0);\n}\n";
    let start = source.find("gps::matern_cov").unwrap();
    let mut compiled = failing(
        compilation(source, vec![import("gps", None)]),
        CodegenError::FunctionNotExported { package: "gps".to_string(), func: "matern_cov".to_string() },
        "`matern_cov` is not in `gps`'s exports",
    );
    compiled.calls.push(QualifiedCall {
        package: "gps".to_string(),
        func: "matern_cov".to_string(),
        range: start..start + 15,
    });
    let diags =
        compute_diagnostics(source, Dialect::Laplace, &compiled, &gps_lock(), &vec![PackageStatus::Loaded]);
    assert_eq!(diags.len(), 1);
    assert!(diags[0].message.contains("matern_cov"));
    assert!(diags[0].message.contains("not in `gps`'s exports"));
    assert_eq!(diags[0].range, LspRange { start: at(4, 11), end: at(4, 26) });
}

#[test]
fn call_to_an_unimported_package_is_flagged() {
    let source = "model {\n  real y = other::helper(1.0);\n}\n";
    let start = source.find("other::helper").unwrap();
    let mut compiled = failing(
        compilation(source, vec![]),
        CodegenError::UnknownPackageReference { package: "other".to_string(), func: "helper".to_string() },
        "`other` was not imported",
    );
    compiled.calls.push(QualifiedCall {
        package: "other".to_string(),
        func: "helper".to_string(),
        range: start..start + 13,
    });
    let diags = compute_diagnostics(source, Dialect::Laplace, &compiled, &no_lock(), &vec![]);
    assert_eq!(diags.len(), 1);
    assert!(diags[0].message.contains("was not imported"));
    assert_eq!(diags[0].range.start, at(1, 11));
}

#[test]
fn a_library_of_functions_and_imports_alone_is_clean() {
    let source = "library {\n  import gps\n}\n\nmatrix k(vector x) {\n  return gps::rbf_cov(x, 1.0, 1.0);\n}\n";
    let mut compiled = compilation(source, vec![import("gps", None)]);
    compiled.blocks = vec![block(source, BlockKind::Library, "library")];
    let diags =
        compute_diagnostics(source, Dialect::Library, &compiled, &gps_lock(), &vec![PackageStatus::Loaded]);
    assert!(diags.is_empty());
}

#[test]
fn a_model_shaped_block_in_a_library_is_flagged() {
    let source = "real f(real x) {\n  return x;\n}\n\nmodel {\n  y ~ normal(0, 1);\n}\n";
    let mut compiled = compilation(source, vec![]);
    compiled.blocks = vec![block(source, BlockKind::Model, "model")];
    let diags = compute_diagnostics(source, Dialect::Library, &compiled, &no_lock(), &vec![]);

    assert_eq!(diags.len(), 1);
    assert!(diags[0].message.contains("cannot contain a `model` block"));
    assert_eq!(diags[0].range.start.line, 4);
    assert_eq!(diags[0].range.start.character, 0);
    assert_eq!(diags[0].range.end.character, 5);
    assert_eq!(
        diags[0].message,
        "a `.laplacelib` file cannot contain a `model` block -- a library provides functions to a \
         model, it is not a model itself (move this into the `.laplace` file that uses the library)"
    );
}

#[test]
fn every_forbidden_block_is_reported_not_only_the_first() {
    let source = "data {\n  int N;\n}\nparameters {\n  real mu;\n}\n";
    let mut compiled = compilation(source, vec![]);
    compiled.blocks = vec![
        block(source, BlockKind::Data, "data"),
        block(source, BlockKind::Parameters, "parameters"),
    ];
    let diags = compute_diagnostics(source, Dialect::Library, &compiled, &no_lock(), &vec![]);

    assert_eq!(diags.len(), 2);
    assert!(diags[0].message.contains("`data` block"));
    assert!(diags[1].message.contains("`parameters` block"));
}

#[test]
fn functions_and_library_blocks_are_allowed_in_a_library() {
    let source = "library {\n  import gps\n}\nfunctions {\n  matrix k(vector x) {\n    return gps::rbf_cov(x, 1.0, 1.0);\n  }\n}\n";
    let mut compiled = compilation(source, vec![import("gps", None)]);
    compiled.blocks = vec![
        block(source, BlockKind::Library, "library"),
        block(source, BlockKind::Functions, "functions"),
    ];
    let diags =
        compute_diagnostics(source, Dialect::Library, &compiled, &gps_lock(), &vec![PackageStatus::Loaded]);
    assert!(diags.is_empty());
}

#[test]
fn the_same_blocks_are_fine_in_a_laplace_file() {
    let source = "data {\n  int N;\n}\nmodel {\n}\n";
    let mut compiled = compilation(source, vec![]);
    compiled.blocks = vec![
        block(source, BlockKind::Data, "data"),
        block(source, BlockKind::Model, "model"),
    ];
    assert!(compute_diagnostics(source, Dialect::Laplace, &compiled, &no_lock(), &vec![]).is_empty());
}

#[test]
fn a_library_still_gets_the_ordinary_import_checks() {
    let source = "library {\n  import gps\n}\nreal f(real x) {\n  return x;\n}\n";
    let mut compiled = compilation(source, vec![import("gps", None)]);
    compiled.blocks = vec![block(source, BlockKind::Library, "library")];
    let diags =
        compute_diagnostics(source, Dialect::Library, &compiled, &no_lock(), &vec![PackageStatus::NotInstalled]);
    assert_eq!(diags.len(), 1);
    assert!(diags[0].message.contains("laplace add gps"));
}

#[test]
fn a_broken_library_block_is_all_that_is_reported() {
    let source = "library {\n  oops\n}\n";
    let compiled = Compilation {
        mask: mask_of(source),
        blocks: vec![],
        library_block: Err("expected `import`".to_string()),
        calls: vec![],
        failure: None,
    };
    let diags = compute_diagnostics(source, Dialect::Laplace, &compiled, &no_lock(), &vec![]);
    assert_eq!(diags.len(), 1);
    assert_eq!(diags[0].message, "expected `import`");
    assert_eq!(diags[0].range, LspRange { start: at(0, 0), end: at(0, 0) });
}

#[test]
fn a_package_that_cannot_be_loaded_is_reported_with_its_reason() {
    let source = "library {\n  import gps\n}\n";
    let compiled = compilation(source, vec![import("gps", None)]);
    let broken = vec![PackageStatus::Broken("no laplace.toml".to_string())];
    let diags = compute_diagnostics(source, Dialect::Laplace, &compiled, &gps_lock(), &broken);
    assert_eq!(diags.len(), 1);
    assert_eq!(diags[0].message, "no laplace.toml");
}

#[test]
fn a_missing_import_that_nothing_explains_is_reported() {
    let source = "library {\n  import gps\n}\n";
    let compiled = failing(
        compilation(source, vec![import("gps", None)]),
        CodegenError::MissingImport { package: "other".to_string() },
        "`other` is missing",
    );
    let diags =
        compute_diagnostics(source, Dialect::Laplace, &compiled, &no_lock(), &vec![PackageStatus::NotInstalled]);
    assert_eq!(diags.len(), 2);
    assert_eq!(diags[1].message, "`other` is missing");
    assert_eq!(diags[1].range, LspRange { start: at(0, 0), end: at(0, 0) });
}

#[test]
fn every_failure_of_the_compiler_has_its_place() {
    let source = "library {\n  import a\n  import b\n}\nmodel { p::f(1); }\n";
    let block = Some(library(source, vec![import("a", None), import("b", None)]));
    let start = source.find("p::f").unwrap();
    let calls = vec![QualifiedCall { package: "p".to_string(), func: "f".to_string(), range: start..start + 4 }];
    let mask = mask_of(source);
    let place = |error: CodegenError| codegen_error_range(source, &mask, &block, &calls, &error);
    let a = 12..20;
    let b = 23..31;
    assert_eq!(&source[a.clone()], "import a");
    let s = |text: &str| text.to_string();
    assert_eq!(place(CodegenError::MissingImport { package: s("a") }), a);
    assert_eq!(place(CodegenError::ExportedFunctionMissing { package: s("b") }), b);
    assert_eq!(place(CodegenError::MissingDependency { package: s("b") }), b);
    assert_eq!(place(CodegenError::UndeclaredPackageReference { in_package: s("a") }), a);
    assert_eq!(place(CodegenError::FunctionNotExported { package: s("p"), func: s("f") }), start..start + 4);
    assert_eq!(place(CodegenError::UnknownPackageReference { package: s("p"), func: s("g") }), 0..0);
    assert_eq!(
        place(CodegenError::DuplicateMangledName { first_package: s("a"), second_package: s("b") }),
        a
    );
    // Whichever comes first in the file, not in the objection.
    assert_eq!(
        place(CodegenError::DuplicateMangledName { first_package: s("b"), second_package: s("a") }),
        a
    );
    assert_eq!(
        place(CodegenError::PrivateFunctionCollision { first_package: s("b"), second_package: s("y") }),
        b
    );
    assert_eq!(
        place(CodegenError::PrivateFunctionCollision { first_package: s("x"), second_package: s("b") }),
        b
    );
    assert_eq!(
        place(CodegenError::FunctionFileCollision { first_package: s("x"), second_package: s("y") }),
        0..0
    );
    assert_eq!(find_import(source, &mask, &block, "b"), Some(b));
    assert_eq!(find_import(source, &mask, &block, "c"), None);
    assert_eq!(find_import(source, &mask, &None, "a"), None);
}

#[test]
fn an_import_is_shown_where_its_statement_stands() {
    let range = |source: &str, name: &str| {
        import_range(source, &mask_of(source), &library(source, vec![import(name, None)]), name)
    };
    assert_eq!(range("library { import gps }", "gps"), 10..20);
    // As whole words only.
    assert_eq!(range("library { import gpsx import gps }", "gps"), 22..32);
    assert_eq!(range("library { import gpsx import gps }", "gpsx"), 10..21);
    assert_eq!(range("library {\n  import gps2\n  import gps\n}\n", "gps"), 26..36);
    assert_eq!(range("library { reimport gps import gps@1.0 }", "gps"), 23..33);
    // Whatever stands between the words.
    assert_eq!(range("model { }\nlibrary { import  gps }\n", "gps"), 20..31);
    assert_eq!(range("library { import // the\n  gps }", "gps"), 10..29);
    // Not in a comment.
    assert_eq!(range("library {\n  // import gps\n  import gps\n}\n", "gps"), 28..38);
    // Not behind the block, and not without a gap: all of the block.
    assert_eq!(range("library { } import gps", "gps"), 0..11);
    assert_eq!(range("library { importgps }", "gps"), 0..21);
}

#[test]
fn ranges_are_clamped_to_the_text() {
    let source = "ab\ncd";
    let starts = line_starts(source);
    assert!(span_is_usable(source.as_bytes(), &(3..99)));
    assert_eq!(to_lsp_range(source, &starts, 3..99), LspRange { start: at(1, 0), end: at(1, 2) });
    let d = diagnostic(source, &starts, 0..1, "text".to_string());
    assert_eq!(d.range, LspRange { start: at(0, 0), end: at(0, 1) });
    assert_eq!((d.severity, d.source.as_str(), d.message.as_str()), (Severity::Error, "laplace", "text"));
    assert!(!span_is_usable("\u{e9}".as_bytes(), &(1..2)));
}

#[test]
fn what_does_not_fit_the_text_is_noticed() {
    let source = "library { import gps }";
    let fits = library(source, vec![import("gps", None)]);
    assert!(library_is_usable(source, &fits));
    let outside = LibraryBlock { byte_range: 0..99, imports: vec![] };
    assert!(!library_is_usable(source, &outside));
    let mut compiled = compilation(source, vec![]);
    assert!(compilation_is_usable(source, Dialect::Laplace, &compiled));
    compiled.library_block = Ok(Some(outside));
    assert!(!compilation_is_usable(source, Dialect::Laplace, &compiled));
    let mut compiled = compilation(source, vec![]);
    compiled.mask = mask_of("another text");
    assert!(!compilation_is_usable(source, Dialect::Laplace, &compiled));
    let starts = line_starts(source);
    assert!(forbidden_block_diagnostics(source, &starts, &vec![]).is_empty());
}

#[test]
fn a_document_that_is_no_file_has_no_diagnostics() {
    let source = "model {\n}\n";
    let mut compiled = failing(
        compilation(source, vec![]),
        CodegenError::UnknownPackageReference { package: "p".to_string(), func: "f".to_string() },
        "wrong",
    );
    compiled.blocks = vec![block(source, BlockKind::Model, "model")];
    let lock = Some(no_lock());
    let run = |uri: &str| -> Vec<Diagnostic> {
        let checked = checked_diagnostics_for_uri(uri, source, &compiled, &lock, &vec![]).unwrap();
        let diags = compute_diagnostics_for_uri(uri, source, &compiled, &lock, &vec![]);
        assert_eq!(checked.len(), diags.len());
        diags
    };
    assert!(run("untitled:Untitled-1").is_empty());
    assert_eq!(run("file:///m/a.laplace").len(), 1);
    // The percent-encoded end of the extension counts: a library.
    assert_eq!(run("file:///m/a.laplaceli%62").len(), 2);
    let path = Some("/m/a.laplacelib".to_string());
    assert_eq!(compute_diagnostics_for_path(&path, source, &compiled, &lock, &vec![]).len(), 2);
    assert!(compute_diagnostics_for_path(&None, source, &compiled, &lock, &vec![]).is_empty());
    // One status too many.
    let extra = vec![PackageStatus::Loaded];
    assert!(checked_diagnostics_for_uri("file:///m/a.laplace", source, &compiled, &lock, &extra).is_none());
}

#[test]
fn without_a_lockfile_imports_are_not_flagged() {
    let source = "library {\n  import gps\n}\nmodel {\n}\n";
    let uri = "file:///m/a.laplace";
    let compiled = failing(
        compilation(source, vec![import("gps", Some("1.0.0"))]),
        CodegenError::MissingImport { package: "gps".to_string() },
        "`gps` is imported but not installed",
    );
    assert!(compute_diagnostics_for_uri(uri, source, &compiled, &None, &vec![]).is_empty());
    assert!(checked_diagnostics_for_uri(uri, source, &compiled, &None, &vec![]).unwrap().is_empty());
    // A lockfile that records nothing is another matter.
    let missing = vec![PackageStatus::NotInstalled];
    assert_eq!(compute_diagnostics_for_uri(uri, source, &compiled, &Some(no_lock()), &missing).len(), 1);
    assert!(checked_diagnostics_for_uri(uri, source, &compiled, &Some(no_lock()), &vec![]).is_none());
}

#[test]
fn without_a_lockfile_everything_else_is_still_flagged() {
    let source = "library {\n  import gps\n}\nmodel {\n}\n";
    let other = |error: CodegenError| -> Vec<Diagnostic> {
        let compiled = failing(compilation(source, vec![import("gps", None)]), error, "wrong");
        unresolved_diagnostics(source, Dialect::Laplace, &compiled)
    };
    let diags = other(CodegenError::MissingImport { package: "p".to_string() });
    assert_eq!(diags.len(), 1);
    assert_eq!(diags[0].message, "wrong");
    let diags = other(CodegenError::UnknownPackageReference { package: "p".to_string(), func: "f".to_string() });
    assert_eq!(diags.len(), 1);

    let mut compiled = compilation(source, vec![import("gps", None)]);
    compiled.blocks = vec![block(source, BlockKind::Model, "model")];
    assert_eq!(unresolved_diagnostics(source, Dialect::Library, &compiled).len(), 1);
    assert!(unresolved_diagnostics(source, Dialect::Laplace, &compiled).is_empty());
    compiled.library_block = Err("expected `import`".to_string());
    assert_eq!(unresolved_diagnostics(source, Dialect::Laplace, &compiled)[0].message, "expected `import`");
}
