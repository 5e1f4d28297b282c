use laplace_lsp::analysis::{
    analyze, blank_out_blocks, functions_body, role_for_block, Analysis, ImportStatement, NameSet,
    QualifiedCall, Role, SymbolTable, TOKEN_BUILTIN_FUNCTION, TOKEN_DATA, TOKEN_GENERATED_QUANTITY,
    TOKEN_LIBRARY_FUNCTION, TOKEN_LOCAL, TOKEN_PARAMETER, TOKEN_TRANSFORMED_PARAMETER, TOKEN_TYPES,
    TOKEN_USER_FUNCTION,
};
use laplace_lsp::blocks::{
    find_keyword_start, find_top_level_blocks, match_phrase, skip_real_ws, Block, BlockKind,
};
use laplace_lsp::builtins::{is_builtin, is_in_list, STAN_BUILTINS};
use laplace_lsp::declarations::{
    declared_name, is_type_keyword, scan_declarations, skip_balanced, skip_ident, skip_ws,
    split_top_level_statements, visible_text,
};
use laplace_lsp::mask::CodeMask;
use laplace_lsp::sort::sort_by_key;
use laplace_lsp::tokens::{calls_are_usable, collect_tokens, RawToken};

const GPS_MODEL: &str = r#"library {
  import gps
}

data {
  int<lower=1> N;
  vector[N] x;
  vector[N] y;
}

transformed data {
  real x_mean = mean(x);
}

parameters {
  real<lower=0> alpha;
  real<lower=0> rho;
  real<lower=0> sigma;
}

transformed parameters {
  matrix[N, N] K = gps::rbf_cov(x, alpha, rho);
}

model {
  alpha ~ normal(0, 1);
  rho ~ normal(0, 1);
  sigma ~ normal(0, 1);
  y ~ multi_normal(rep_vector(0, N), K);
}

generated quantities {
  array[N] real y_rep;
  for (n in 1:N) {
    y_rep[n] = normal_rng(alpha, sigma);
  }
}
"#;

/// Everything but line comments is code; braces close as they nest in it.
fn mask_of(source: &str) -> CodeMask {
    let bytes = source.as_bytes();
    let mut code = vec![true; bytes.len()];
    let mut in_comment = false;
    for i in 0..bytes.len() {
        if bytes[i] == b'\n' {
            in_comment = false;
        } else if bytes[i..].starts_with(b"//") {
            in_comment = true;
        }
        code[i] = !in_comment;
    }
    let mut closing = vec![None; bytes.len()];
    let mut open = Vec::new();
    for i in 0..bytes.len() {
        if code[i] && bytes[i] == b'{' {
            open.push(i);
        } else if code[i] && bytes[i] == b'}' {
            if let Some(at) = open.pop() {
                closing[at] = Some(i);
            }
        }
    }
    CodeMask::from_parts(source, code, closing).unwrap()
}

fn names(list: &[&str]) -> Vec<String> {
    list.iter().map(|n| n.to_string()).collect()
}

fn call(source: &str, package: &str, func: &str) -> QualifiedCall {
    let text = format!("{}::{}", package, func);
    let start = source.find(text.as_str()).unwrap();
    QualifiedCall {
        package: package.to_string(),
        func: func.to_string(),
        range: start..start + text.len(),
    }
}

fn import(name: &str) -> ImportStatement {
    ImportStatement { name: name.to_string(), version: None }
}

fn analyze_gps_model() -> Analysis {
    analyze(
        GPS_MODEL,
        &mask_of(GPS_MODEL),
        &names(&[]),
        &names(&[]),
        vec![call(GPS_MODEL, "gps", "rbf_cov")],
        vec![import("gps")],
    )
}

#[test]
fn declares_names_with_the_right_role_per_block() {
    let analysis = analyze_gps_model();
    assert_eq!(analysis.symbol_roles.get("N"), Some(&Role::Data));
    assert_eq!(analysis.symbol_roles.get("x"), Some(&Role::Data));
    assert_eq!(analysis.symbol_roles.get("y"), Some(&Role::Data));
    assert_eq!(analysis.symbol_roles.get("x_mean"), Some(&Role::Local));
    assert_eq!(analysis.symbol_roles.get("alpha"), Some(&Role::Parameter));
    assert_eq!(analysis.symbol_roles.get("rho"), Some(&Role::Parameter));
    assert_eq!(
        analysis.symbol_roles.get("K"),
        Some(&Role::TransformedParameter)
    );
    assert_eq!(
        analysis.symbol_roles.get("y_rep"),
        Some(&Role::GeneratedQuantity)
    );
}

#[test]
fn model_block_contributes_no_declarations() {
    let analysis = analyze_gps_model();
    assert!(!analysis.symbol_roles.contains_key("n"));
}

#[test]
fn library_call_is_recorded_and_classified_separately_from_roles() {
    let analysis = analyze_gps_model();
    assert_eq!(analysis.library_calls.len(), 1);
    assert_eq!(analysis.library_calls[0].package, "gps");
    assert_eq!(analysis.library_calls[0].func, "rbf_cov");
}

#[test]
fn imports_are_extracted() {
    let analysis = analyze_gps_model();
    assert_eq!(analysis.imports.len(), 1);
    assert_eq!(analysis.imports[0].name, "gps");
}

#[test]
fn tokens_tag_usages_inside_model_block_not_just_declarations() {
    let analysis = analyze_gps_model();
    let tokens = collect_tokens(GPS_MODEL, &mask_of(GPS_MODEL), &analysis);

    let alpha_occurrences = GPS_MODEL.matches("alpha").count();
    let alpha_tokens = tokens
        .iter()
        .filter(|t| &GPS_MODEL[t.start..t.end] == "alpha" && t.token_type == TOKEN_PARAMETER)
        .count();
    assert_eq!(alpha_tokens, alpha_occurrences);
}

#[test]
fn builtin_and_user_and_library_functions_are_classified_distinctly() {
    let source = r#"library {
  import gps
}
functions {
  real helper(real x) {
    return x * 2;
  }
}
model {
  real y = gps::rbf_cov(1.0, 2.0, 3.0)[1, 1];
  real z = helper(1.0);
  real w = normal_rng(0, 1);
}
"#;
    let mask = mask_of(source);
    let analysis = analyze(
        source,
        &mask,
        &names(&["helper"]),
        &names(&[]),
        vec![call(source, "gps", "rbf_cov")],
        vec![import("gps")],
    );
    let tokens = collect_tokens(source, &mask, &analysis);

    assert!(tokens
        .iter()
        .any(|t| &source[t.start..t.end] == "gps::rbf_cov" && t.token_type == TOKEN_LIBRARY_FUNCTION));
    assert!(tokens
        .iter()
        .any(|t| &source[t.start..t.end] == "helper" && t.token_type == TOKEN_USER_FUNCTION));
    assert!(tokens
        .iter()
        .any(|t| &source[t.start..t.end] == "normal_rng" && t.token_type == TOKEN_BUILTIN_FUNCTION));
}

#[test]
fn declared_name_handles_constraints_dims_and_old_style_array_syntax() {
    assert_eq!(declared_name("int<lower=1> N"), Some("N".to_string()));
    assert_eq!(declared_name("vector[N] x"), Some("x".to_string()));
    assert_eq!(declared_name("array[N] real x"), Some("x".to_string()));
    assert_eq!(declared_name("matrix[N, N] K"), Some("K".to_string()));
    assert_eq!(declared_name("real x[3]"), Some("x".to_string()));
    assert_eq!(
        declared_name("real<lower=0, upper=1> theta = 0.5"),
        Some("theta".to_string())
    );
    assert_eq!(declared_name("mu = alpha + beta"), None);
    assert_eq!(declared_name("for (n in 1:N)"), None);
}

#[test]
fn statements_after_a_for_loop_are_still_split_correctly() {
    let body = "vector[N] y_rep;\nfor (n in 1:N) {\n  y_rep[n] = 1;\n}\nreal z;\n";
    let mask = mask_of(body);
    let found = scan_declarations(body, &mask, 0..body.len());
    assert_eq!(found, vec!["y_rep".to_string(), "z".to_string()]);
}

#[test]
fn bare_top_level_function_definitions_are_user_functions() {
    let source = "library {\n  import gps\n}\n\nreal f(real x) {\n  return x;\n}\n\nvector g(vector x) {\n  return x;\n}\n";
    let mask = mask_of(source);
    // What is left of the file once its blocks are blanked is where bare
    // definitions are looked for.
    let blocks = find_top_level_blocks(source, &mask);
    let between = blank_out_blocks(source, &blocks);
    assert!(between.contains("real f(real x) {") && between.contains("vector g(vector x) {"));
    assert!(!between.contains("library"));

    let analysis = analyze(source, &mask, &names(&[]), &names(&["f", "g"]), vec![], vec![import("gps")]);
    assert!(analysis.user_functions.contains("f"));
    assert!(analysis.user_functions.contains("g"));
    assert!(!analysis.user_functions.contains("library"));
}

#[test]
fn bare_and_wrapped_definitions_are_both_found_in_one_file() {
    let source = "functions {\n  real inner(real x) {\n    return x;\n  }\n}\n\nreal outer(real x) {\n  return inner(x);\n}\n";
    let mask = mask_of(source);
    let blocks = find_top_level_blocks(source, &mask);
    let wrapped = functions_body(source, &blocks).unwrap();
    assert!(wrapped.contains("real inner(real x)") && !wrapped.contains("outer"));
    let between = blank_out_blocks(source, &blocks);
    assert!(between.contains("real outer(real x)") && !between.contains("real inner"));

    let analysis = analyze(source, &mask, &names(&["inner"]), &names(&["outer"]), vec![], vec![]);
    assert!(analysis.user_functions.contains("inner"));
    assert!(analysis.user_functions.contains("outer"));
}

#[test]
fn a_laplace_file_gains_no_spurious_user_functions_from_its_blocks() {
    let source = "data {\n  int N;\n}\nparameters {\n  real mu;\n}\nmodel {\n  for (n in 1:N) {\n    mu ~ normal(0, 1);\n  }\n}\n";
    let mask = mask_of(source);
    let blocks = find_top_level_blocks(source, &mask);
    // Nothing stands between the blocks, so nothing is found there.
    assert!(blank_out_blocks(source, &blocks).trim().is_empty());
    assert!(functions_body(source, &blocks).is_none());

    let analysis = analyze(source, &mask, &names(&[]), &names(&[]), vec![], vec![]);
    assert!(
        analysis.user_functions.is_empty(),
        "expected no user functions"
    );
}

#[test]
fn blocks_are_found_in_order_with_their_braces() {
    let blocks = find_top_level_blocks(GPS_MODEL, &mask_of(GPS_MODEL));
    let kinds: Vec<BlockKind> = blocks.iter().map(|b| b.kind).collect();
    assert_eq!(
        kinds,
        vec![
            BlockKind::Library,
            BlockKind::Data,
            BlockKind::TransformedData,
            BlockKind::Parameters,
            BlockKind::TransformedParameters,
            BlockKind::Model,
            BlockKind::GeneratedQuantities,
        ]
    );
    for block in &blocks {
        assert_eq!(&GPS_MODEL[block.open_brace..block.open_brace + 1], "{");
        assert_eq!(&GPS_MODEL[block.close_brace..block.close_brace + 1], "}");
    }
    for pair in blocks.windows(2) {
        assert!(pair[0].close_brace < pair[1].open_brace);
    }
}

#[test]
fn keywords_in_comments_and_in_longer_words_open_no_block() {
    let source = "// data { }\nmydata { }\ndata_x { }\nmodel {\n  data { }\n}\n";
    let blocks = find_top_level_blocks(source, &mask_of(source));
    assert_eq!(blocks.len(), 1);
    assert_eq!(blocks[0].kind, BlockKind::Model);
}

#[test]
fn a_block_without_a_closing_brace_is_none() {
    let source = "data {\n  int N;\n";
    assert!(find_top_level_blocks(source, &mask_of(source)).is_empty());
}

#[test]
fn phrases_need_whole_words_and_whitespace_between_them() {
    let source = "transformed \n data x";
    let mask = mask_of(source);
    assert_eq!(match_phrase(source, &mask, 0, &vec!["transformed", "data"]), Some(18));
    assert_eq!(match_phrase(source, &mask, 0, &vec!["transformed"]), Some(11));
    assert_eq!(match_phrase(source, &mask, 0, &vec!["trans"]), None);
    assert_eq!(match_phrase(source, &mask, 1, &vec!["ransformed"]), None);
    assert_eq!(match_phrase(source, &mask, 14, &vec!["data", "y"]), None);
    assert_eq!(match_phrase(source, &mask, 14, &vec!["data", "x"]), Some(20));
    assert_eq!(match_phrase(source, &mask, 18, &vec!["data"]), None);
    assert_eq!(skip_real_ws(source, &mask, 11), 14);
    assert_eq!(skip_real_ws(source, &mask, 20), 20);
}

#[test]
fn every_block_has_its_role() {
    assert_eq!(role_for_block(BlockKind::Data), Some(Role::Data));
    assert_eq!(role_for_block(BlockKind::Parameters), Some(Role::Parameter));
    assert_eq!(role_for_block(BlockKind::TransformedData), Some(Role::Local));
    assert_eq!(
        role_for_block(BlockKind::TransformedParameters),
        Some(Role::TransformedParameter)
    );
    assert_eq!(
        role_for_block(BlockKind::GeneratedQuantities),
        Some(Role::GeneratedQuantity)
    );
    assert_eq!(role_for_block(BlockKind::Functions), None);
    assert_eq!(role_for_block(BlockKind::Model), None);
    assert_eq!(role_for_block(BlockKind::Library), None);
}

#[test]
fn block_keywords_are_spelled_with_single_spaces() {
    assert_eq!(BlockKind::GeneratedQuantities.keyword(), "generated quantities");
    assert_eq!(BlockKind::TransformedData.keyword(), "transformed data");
    assert_eq!(BlockKind::Model.keyword(), "model");
}

#[test]
fn the_legend_names_every_token_type() {
    assert_eq!(TOKEN_TYPES[TOKEN_DATA as usize], "laplaceData");
    assert_eq!(TOKEN_TYPES[TOKEN_PARAMETER as usize], "laplaceParameter");
    assert_eq!(
        TOKEN_TYPES[TOKEN_TRANSFORMED_PARAMETER as usize],
        "laplaceTransformedParameter"
    );
    assert_eq!(
        TOKEN_TYPES[TOKEN_GENERATED_QUANTITY as usize],
        "laplaceGeneratedQuantity"
    );
    assert_eq!(TOKEN_TYPES[TOKEN_LOCAL as usize], "laplaceLocal");
    assert_eq!(TOKEN_TYPES[TOKEN_BUILTIN_FUNCTION as usize], "laplaceBuiltinFunction");
    assert_eq!(TOKEN_TYPES[TOKEN_LIBRARY_FUNCTION as usize], "laplaceLibraryFunction");
    assert_eq!(TOKEN_TYPES[TOKEN_USER_FUNCTION as usize], "laplaceUserFunction");
    assert_eq!(Role::GeneratedQuantity.token_type(), TOKEN_GENERATED_QUANTITY);
    assert_eq!(Role::Local.token_type(), TOKEN_LOCAL);
}

#[test]
fn statements_end_at_semicolons_and_closing_braces() {
    let source = "a = f(1; 2); { b; } c)";
    let mask = mask_of(source);
    let parts: Vec<&str> = split_top_level_statements(source, &mask, 0..source.len())
        .into_iter()
        .map(|r| &source[r])
        .collect();
    // The `;` inside brackets belong to statements, the one outside does not.
    assert_eq!(parts, vec!["a = f(1; 2)", " { b; }", " c)"]);
}

#[test]
fn an_extra_closing_brace_ends_a_statement_too() {
    let source = "x } y;";
    let mask = mask_of(source);
    let parts: Vec<&str> = split_top_level_statements(source, &mask, 0..source.len())
        .into_iter()
        .map(|r| &source[r])
        .collect();
    assert_eq!(parts, vec!["x }", " y"]);
}

#[test]
fn comments_are_blanked_in_the_visible_text() {
    let source = "real x; // \u{e9}\nreal y";
    let mask = mask_of(source);
    assert_eq!(visible_text(source, &mask, 0..source.len()), "real x;      \nreal y");
}

#[test]
fn bytes_of_code_outside_ascii_are_seen_one_by_one() {
    let source = "\u{e9}";
    let mask = mask_of(source);
    assert_eq!(visible_text(source, &mask, 0..2), "\u{c3}\u{a9}");
}

#[test]
fn the_helpers_of_the_declaration_scanner() {
    assert_eq!(skip_ws(b" \t\r\n\x0cx", 0), 5);
    assert_eq!(skip_ws(b"x", 3), 3);
    assert_eq!(skip_ident(b"ab_9 c", 0), 4);
    assert_eq!(skip_balanced(b"[a[b]]c", 0, b'[', b']'), Some(6));
    assert_eq!(skip_balanced(b"[a[b]", 0, b'[', b']'), None);
    assert!(is_type_keyword("cholesky_factor_corr"));
    assert!(!is_type_keyword("reals"));
}

#[test]
fn unfinished_declarations_declare_nothing() {
    assert_eq!(declared_name(""), None);
    assert_eq!(declared_name("real"), None);
    assert_eq!(declared_name("real<lower=0 x"), None);
    assert_eq!(declared_name("array[N real x"), None);
    assert_eq!(declared_name("real = 3"), None);
    assert_eq!(declared_name("  real  int x"), Some("x".to_string()));
}

#[test]
fn the_first_declaration_of_a_name_decides() {
    let mut table = SymbolTable::new();
    table.declare("x", Role::Data);
    table.declare("x", Role::Parameter);
    table.declare("y", Role::Local);
    assert_eq!(table.len(), 2);
    assert_eq!(table.get("x"), Some(&Role::Data));
    assert_eq!(table.name(0), "x");
    assert_eq!(table.name(1), "y");
    assert_eq!(table.get("z"), None);
}

#[test]
fn a_name_is_in_a_set_once() {
    let mut set = NameSet::new();
    assert!(set.is_empty());
    set.insert("f");
    set.insert("g");
    set.insert("f");
    assert_eq!(set.len(), 2);
    assert_eq!(set.name(0), "f");
    assert_eq!(set.name(1), "g");
    assert!(set.contains("g") && !set.contains("h"));
}

#[test]
fn blanking_keeps_offsets() {
    let source = "// \u{e9}\nfoo model { x } bar\nreal f";
    let blocks = find_top_level_blocks(source, &mask_of(source));
    let blanked = blank_out_blocks(source, &blocks);
    assert_eq!(blanked.len(), source.len());
    // Blanked from the keyword to the closing brace.
    assert_eq!(blanked, format!("// \u{e9}\nfoo {} bar\nreal f", " ".repeat(11)));
    assert_eq!(blanked.find("real f"), source.find("real f"));
}

#[test]
fn keyword_braces_and_body_are_blanked_wherever_the_brace_stands() {
    let source = "model\n{}";
    let blocks = vec![Block { kind: BlockKind::Model, open_brace: 6, close_brace: 7 }];
    assert_eq!(find_top_level_blocks(source, &mask_of(source)), blocks);
    assert_eq!(find_keyword_start(source, &blocks[0]), 0);
    assert_eq!(blank_out_blocks(source, &blocks), " ".repeat(8));

    let source = "x transformed\n \t data\n\n{ } y";
    let blocks = find_top_level_blocks(source, &mask_of(source));
    assert_eq!(blocks[0].kind, BlockKind::TransformedData);
    assert_eq!(find_keyword_start(source, &blocks[0]), 2);
    assert_eq!(blank_out_blocks(source, &blocks), format!("x {} y", " ".repeat(source.len() - 4)));

    // Without its keyword a brace begins the block.
    let brace = Block { kind: BlockKind::Data, open_brace: 6, close_brace: 7 };
    assert_eq!(find_keyword_start("model {}", &brace), 6);
}

#[test]
fn a_definition_before_a_block_on_the_same_line_is_left() {
    let source = "real f(real x) { return x; } model { }";
    let mask = mask_of(source);
    let blocks = find_top_level_blocks(source, &mask);
    assert_eq!(blank_out_blocks(source, &blocks), format!("real f(real x) {{ return x; }} {}", " ".repeat(9)));
    let analysis = analyze(source, &mask, &names(&[]), &names(&["f"]), vec![], vec![]);
    assert_eq!(analysis.user_functions.len(), 1);
    assert!(analysis.user_functions.contains("f"));
}

#[test]
fn builtins_are_looked_up_by_their_whole_name() {
    assert!(is_builtin("normal_lpdf"));
    assert!(is_builtin("gp_exp_quad_cov"));
    assert!(is_builtin("multi_normal_lpdf"));
    assert!(!is_builtin("normal_lpd"));
    assert!(!is_builtin("ormal_lpdf"));
    assert!(!is_builtin(""));
    let names: Vec<&str> = STAN_BUILTINS.split_ascii_whitespace().collect();
    assert!(names.iter().all(|name| is_builtin(name)));
    assert!(!is_builtin(&format!("{} {}", names[0], names[1])));
    assert!(is_in_list("a b", "b") && is_in_list("a", "a") && !is_in_list("ab", "b"));
}

#[test]
fn calls_and_names_are_told_apart() {
    let source = "data {\n  real mean;\n  real f;\n}\nmodel {\n  mean (f);\n  f(mean);\n  g(1);\n}\n";
    let mask = mask_of(source);
    let analysis = analyze(source, &mask, &names(&["f"]), &names(&[]), vec![], vec![]);
    let tokens = collect_tokens(source, &mask, &analysis);
    let tagged: Vec<(&str, u32)> = tokens
        .iter()
        .map(|t| (&source[t.start..t.end], t.token_type))
        .collect();
    assert_eq!(
        tagged,
        vec![
            ("mean", TOKEN_DATA),
            ("f", TOKEN_DATA),
            ("mean", TOKEN_BUILTIN_FUNCTION),
            ("f", TOKEN_DATA),
            ("f", TOKEN_USER_FUNCTION),
            ("mean", TOKEN_DATA),
        ]
    );
}

#[test]
fn a_function_of_the_file_hides_a_builtin() {
    let source = "model {\n  mean(1);\n}\n";
    let mask = mask_of(source);
    let analysis = analyze(source, &mask, &names(&["mean"]), &names(&[]), vec![], vec![]);
    let tokens = collect_tokens(source, &mask, &analysis);
    assert_eq!(tokens.len(), 1);
    assert_eq!(tokens[0].token_type, TOKEN_USER_FUNCTION);
}

#[test]
fn the_parts_of_a_library_call_get_no_token_of_their_own() {
    let source = "data {\n  real gps;\n}\nmodel {\n  gps::mean(gps);\n}\n";
    let mask = mask_of(source);
    let calls = vec![call(source, "gps", "mean")];
    assert!(calls_are_usable(source, &calls));
    let analysis = analyze(source, &mask, &names(&[]), &names(&[]), calls, vec![import("gps")]);
    let tokens = collect_tokens(source, &mask, &analysis);
    let tagged: Vec<(&str, u32)> = tokens
        .iter()
        .map(|t| (&source[t.start..t.end], t.token_type))
        .collect();
    assert_eq!(
        tagged,
        vec![
            ("gps", TOKEN_DATA),
            ("gps::mean", TOKEN_LIBRARY_FUNCTION),
            ("gps", TOKEN_DATA),
        ]
    );
}

#[test]
fn a_call_outside_the_text_is_not_usable() {
    let outside = QualifiedCall { package: "p".to_string(), func: "f".to_string(), range: 0..9 };
    assert!(!calls_are_usable("p::f(1)", &vec![outside]));
    let inside_a_character =
        QualifiedCall { package: "p".to_string(), func: "f".to_string(), range: 1..2 };
    assert!(!calls_are_usable("\u{e9}", &vec![inside_a_character]));
}

#[test]
fn tokens_are_sorted_and_equal_ones_stay_in_order() {
    let token = |start: usize, end: usize, token_type: u32| RawToken { start, end, token_type };
    let sorted = sort_by_key(&vec![
        token(5, 6, 0),
        token(1, 9, 1),
        token(1, 2, 2),
        token(5, 6, 3),
        token(0, 1, 4),
    ]);
    let types: Vec<u32> = sorted.iter().map(|t| t.token_type).collect();
    assert_eq!(types, vec![4, 2, 1, 0, 3]);
}

#[test]
fn a_mask_must_fit_its_text() {
    assert!(CodeMask::from_parts("{}", vec![true, true], vec![Some(1), None]).is_some());
    assert!(CodeMask::from_parts("{}", vec![true], vec![Some(1), None]).is_none());
    assert!(CodeMask::from_parts("{}", vec![true, true], vec![Some(1)]).is_none());
    assert!(CodeMask::from_parts("{}", vec![true, true], vec![Some(2), None]).is_none());
    assert!(CodeMask::from_parts("{{}", vec![true; 3], vec![Some(1), None, None]).is_none());
    assert!(CodeMask::from_parts("}}", vec![true, true], vec![None, Some(1)]).is_none());
    let mask = CodeMask::from_parts("{}", vec![true, false], vec![Some(1), None]).unwrap();
    assert!(mask.belongs_to("{}") && !mask.belongs_to("{") && !mask.belongs_to("{{"));
    assert!(mask.is_real(0) && !mask.is_real(1));
    assert!(mask.all_real(0, 1) && !mask.all_real(0, 2));
    assert_eq!(mask.match_closing_brace(0), Some(1));
    assert_eq!(mask.match_closing_brace(1), None);
}
