use laplace_lsp::blocks::BlockKind;
use laplace_lsp::dialect::{file_extension, Dialect, LAPLACELIB_EXTENSION};
use laplace_lsp::workspace::{
    defines_function, find_function_definition, find_function_header_offset, find_locked,
    find_lockfile, name_may_precede, package_sources, FileCandidate, LockedPackage, Lockfile,
    PackageFile,
};

fn found(functions: &[&str]) -> Option<Vec<String>> {
    Some(functions.iter().map(|f| f.to_string()).collect())
}

fn file(name: &str, source: &str, functions: Option<Vec<String>>) -> PackageFile {
    PackageFile { name: name.to_string(), source: Some(source.to_string()), functions }
}

fn candidate(path: &str, is_file: bool) -> FileCandidate {
    FileCandidate { path: path.to_string(), is_file }
}

fn locked(name: &str, version: &str) -> LockedPackage {
    LockedPackage { name: name.to_string(), version: version.to_string() }
}

#[test]
fn dialect_comes_from_the_file_extension() {
    assert_eq!(Dialect::for_path("/m/model.laplace"), Dialect::Laplace);
    assert_eq!(Dialect::for_path("/m/stats.laplacelib"), Dialect::Library);
}

#[test]
fn an_unknown_or_missing_extension_is_treated_as_the_project_dialect() {
    assert_eq!(Dialect::for_path("/m/notes.txt"), Dialect::Laplace);
    assert_eq!(Dialect::for_path("/m/README"), Dialect::Laplace);
}

#[test]
fn the_dialect_of_a_document_is_that_of_its_file() {
    assert_eq!(Dialect::for_uri("file:///m/stats.laplacelib"), Dialect::Library);
    assert_eq!(Dialect::for_uri("file:///m/model.laplace"), Dialect::Laplace);
    // The URI is decoded: `%62` is a `b`, and a query is no part of the path.
    assert_eq!(Dialect::for_uri("file:///m/stats.laplaceli%62"), Dialect::Library);
    assert_eq!(Dialect::for_uri("file:///m/stats.laplacelib?v=2"), Dialect::Library);
    // Not the URI of a file, or no URI.
    assert_eq!(Dialect::for_uri("untitled:stats.laplacelib"), Dialect::Laplace);
    assert_eq!(Dialect::for_uri("https://host/stats.laplacelib"), Dialect::Laplace);
    assert_eq!(Dialect::for_uri("stats.laplacelib"), Dialect::Laplace);
    assert_eq!(Dialect::for_file_path(&None), Dialect::Laplace);
    assert_eq!(Dialect::for_file_path(&Some("a.laplacelib".to_string())), Dialect::Library);
}

#[test]
fn extensions_are_those_of_the_last_component() {
    assert_eq!(file_extension("/m/a.b/c.stan"), Some("stan"));
    assert_eq!(file_extension("/m/a.b/c"), None);
    assert_eq!(file_extension("a.tar.gz"), Some("gz"));
    assert_eq!(file_extension("a."), Some(""));
    assert_eq!(file_extension(".laplacelib"), None);
    assert_eq!(file_extension("/m/.."), None);
    assert_eq!(file_extension("/m/a.stan/"), Some("stan"));
    assert_eq!(file_extension("/m/a.stan/."), Some("stan"));
    assert_eq!(file_extension(""), None);
    for path in ["/m/a.b/c.stan", "a.", ".x", "..", "a..", "a/../b.c", "/", ".", "x/.", "\u{e9}.\u{e9}"] {
        let expected = std::path::Path::new(path).extension().map(|e| e.to_str().unwrap());
        assert_eq!(file_extension(path), expected, "{}", path);
    }
}

#[test]
fn a_library_has_functions_and_library_blocks_only() {
    for kind in [BlockKind::Data, BlockKind::Model, BlockKind::GeneratedQuantities] {
        assert!(!Dialect::Library.allows_block(kind));
        assert!(Dialect::Laplace.allows_block(kind));
    }
    assert!(Dialect::Library.allows_block(BlockKind::Functions));
    assert!(Dialect::Library.allows_block(BlockKind::Library));
    assert!(Dialect::Library.is_library() && !Dialect::Laplace.is_library());
    assert_eq!(LAPLACELIB_EXTENSION, "laplacelib");
}

#[test]
fn a_plain_stan_package_files_definitions_are_found() {
    let file = file("gps.stan", "real f(real x) {\n  return x;\n}\n", found(&["f"]));
    assert!(defines_function(&file.functions, "f"));
    assert!(!defines_function(&file.functions, "g"));
}

#[test]
fn definitions_inside_a_laplacelib_functions_wrapper_are_found() {
    let source = "library {\n  import other\n}\n\nfunctions {\n  real f(real x) {\n    return x;\n  }\n}\n";
    let file = file("lib.laplacelib", source, found(&["f"]));
    assert!(defines_function(&file.functions, "f"));
    assert!(!defines_function(&file.functions, "g"));
}

#[test]
fn bare_definitions_in_a_laplacelib_are_found_too() {
    let source = "library {\n  import other\n}\n\nreal f(real x) {\n  return x;\n}\n";
    let file = file("lib.laplacelib", source, found(&["f"]));
    assert!(defines_function(&file.functions, "f"));
}

#[test]
fn a_rejected_laplacelib_defines_nothing() {
    assert!(!defines_function(&None, "f"));
}

#[test]
fn go_to_definition_points_into_the_laplacelib_file_itself() {
    let source = "library {\n  import other\n}\n\nfunctions {\n  real f(real x) {\n    return x;\n  }\n}\n";
    let files = vec![file("lib.laplacelib", source, found(&["f"]))];

    let (k, offset) = find_function_definition(&files, "f").unwrap();
    assert_eq!(files[k].name, "lib.laplacelib");
    assert_eq!(&source[offset..offset + 1], "f");
    assert!(source[..offset].ends_with("real "));
}

#[test]
fn a_definition_is_taken_from_the_first_file_that_has_one() {
    let unreadable = PackageFile { name: "a.stan".to_string(), source: None, functions: found(&["f"]) };
    let files = vec![
        unreadable,
        file("b.stan", "real g() { return f(); }", found(&["g"])),
        file("c.stan", "real f ()", found(&["f"])),
        file("d.stan", "real gf() real f()", found(&["gf", "f"])),
        file("e.stan", "real f()", found(&["f"])),
    ];
    // Passed over: what cannot be read, what only calls it, and a header that
    // is not written `f(`.
    assert_eq!(find_function_definition(&files, "f"), Some((3, 15)));
    assert_eq!(find_function_definition(&files, "h"), None);
    assert_eq!(find_function_definition(&vec![], "f"), None);
}

#[test]
fn headers_are_whole_words() {
    assert_eq!(find_function_header_offset("real af(x) + f(y)", "f"), Some(13));
    assert_eq!(find_function_header_offset("f(x)", "f"), Some(0));
    assert_eq!(find_function_header_offset("f", "f"), None);
    assert_eq!(find_function_header_offset("ff(", "f"), None);
    assert_eq!(find_function_header_offset("", ""), None);
    assert_eq!(find_function_header_offset("a (", ""), Some(2));
}

#[test]
fn the_nearest_lockfile_is_taken() {
    let candidates = vec![
        candidate("/a/b/laplace.lock", false),
        candidate("/a/laplace.lock", true),
        candidate("/laplace.lock", true),
    ];
    assert_eq!(find_lockfile(&candidates), Some("/a/laplace.lock"));
    assert_eq!(find_lockfile(&vec![candidate("/laplace.lock", false)]), None);
    assert_eq!(find_lockfile(&vec![]), None);
}

#[test]
fn the_first_locked_package_of_a_name_is_taken() {
    let lock = Lockfile { packages: vec![locked("a", "1"), locked("b", "2"), locked("b", "3")] };
    assert_eq!(find_locked(&lock, "b"), Some(1));
    assert_eq!(find_locked(&lock, "c"), None);
}

#[test]
fn package_sources_come_in_the_order_of_their_names() {
    let names: Vec<String> = ["z.stan", "laplace.toml", "a.laplacelib", "B.stan", "docs.json", ".stan", "a.stan"]
        .iter()
        .map(|n| n.to_string())
        .collect();
    assert_eq!(package_sources(&names), vec!["B.stan", "a.laplacelib", "a.stan", "z.stan"]);
    assert!(name_may_precede("a", "ab") && !name_may_precede("ab", "a"));
    assert!(name_may_precede("a", "a"));
    assert!(name_may_precede("z", "\u{e9}"));
}
