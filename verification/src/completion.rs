//! Completion: what can be offered at a position, from the symbol tables of
//! the file and, behind `pkg::`, from the documentation of the package.

use crate::analysis::{Analysis, ImportStatement, NameSet, Role, SymbolTable};
use crate::blocks::BlockKind;
use crate::declarations::string_view;
use crate::dialect::Dialect;
use crate::position::{Position, offset_at, position_to_offset};
use crate::text::{
    concat, join_parts, lemma_boundary, lemma_concat_four, substring, text_between, views,
};
use crate::workspace::{Lockfile, find_locked, law_locked_index, locked_index};
use vstd::prelude::*;
use vstd::string::*;
use vstd::utf8::*;

verus! {

/// The block keywords, in the order in which they are offered.
pub const BLOCK_KEYWORDS: [&'static str; 8] = [
    "data",
    "parameters",
    "transformed data",
    "transformed parameters",
    "model",
    "generated quantities",
    "functions",
    "library",
];

/// What kind of thing is offered.
#[derive(Debug, Clone, Copy, PartialEq, Eq, Structural)]
pub enum CompletionItemKind {
    Variable,
    Function,
    Keyword,
    Module,
}

/// Something that is offered.
#[derive(Debug)]
pub struct CompletionItem {
    pub label: String,
    pub kind: CompletionItemKind,
    pub detail: Option<String>,
    pub insert_text: Option<String>,
    pub documentation: Option<String>,
}

/// What an offer says.
pub struct CompletionView {
    pub label: Seq<char>,
    pub kind: CompletionItemKind,
    pub detail: Option<Seq<char>>,
    pub insert_text: Option<Seq<char>>,
    pub documentation: Option<Seq<char>>,
}

impl View for CompletionItem {
    type V = CompletionView;

    open spec fn view(&self) -> CompletionView {
        CompletionView {
            label: self.label@,
            kind: self.kind,
            detail: string_view(self.detail),
            insert_text: string_view(self.insert_text),
            documentation: string_view(self.documentation),
        }
    }
}

/// What a list of offers says.
pub open spec fn item_views(items: Seq<CompletionItem>) -> Seq<CompletionView> {
    Seq::new(items.len(), |i: int| items[i]@)
}

// ---------------------------------------------------------------------------
// Anywhere
// ---------------------------------------------------------------------------

/// The offer of something by its name alone.
pub open spec fn plain_view(label: Seq<char>, kind: CompletionItemKind) -> CompletionView {
    CompletionView { label, kind, detail: None, insert_text: None, documentation: None }
}

/// The offer of a variable.
pub open spec fn variable_view(name: Seq<char>) -> CompletionView {
    plain_view(name, CompletionItemKind::Variable)
}

/// The offer of a function that the file defines.
pub open spec fn user_function_view(name: Seq<char>) -> CompletionView {
    CompletionView {
        label: name,
        kind: CompletionItemKind::Function,
        detail: Some("user-defined"@),
        insert_text: None,
        documentation: None,
    }
}

/// The offer of a block keyword.
pub open spec fn keyword_view(keyword: Seq<char>) -> CompletionView {
    plain_view(keyword, CompletionItemKind::Keyword)
}

/// The offer of an imported library: `name::`.
pub open spec fn library_view(name: Seq<char>) -> CompletionView {
    CompletionView {
        label: name + "::"@,
        kind: CompletionItemKind::Module,
        detail: Some("imported library"@),
        insert_text: Some(name + "::"@),
        documentation: None,
    }
}

/// The variables of a file.
pub open spec fn variable_views(symbols: Seq<(Seq<char>, Role)>) -> Seq<CompletionView> {
    Seq::new(symbols.len(), |i: int| variable_view(symbols[i].0))
}

/// The functions that a file defines.
pub open spec fn user_function_views(names: Seq<Seq<char>>) -> Seq<CompletionView> {
    Seq::new(names.len(), |i: int| user_function_view(names[i]))
}

/// The block keywords of a dialect: a library may only contain `functions`
/// and `library` blocks.
pub open spec fn keyword_views(dialect: Dialect) -> Seq<CompletionView> {
    match dialect {
        Dialect::Laplace => Seq::new(
            BLOCK_KEYWORDS@.len(),
            |i: int| keyword_view(BLOCK_KEYWORDS@[i]@),
        ),
        Dialect::Library => seq![keyword_view("functions"@), keyword_view("library"@)],
    }
}

/// The libraries that a file imports.
pub open spec fn library_views(imports: Seq<ImportStatement>) -> Seq<CompletionView> {
    Seq::new(imports.len(), |i: int| library_view(imports[i].name@))
}

/// What is offered anywhere: variables, functions, block keywords, libraries.
pub open spec fn general_views(analysis: &Analysis, dialect: Dialect) -> Seq<CompletionView> {
    variable_views(analysis.symbol_roles@) + user_function_views(analysis.user_functions@)
        + keyword_views(dialect) + library_views(analysis.imports@)
}

fn plain_item(label: &str, kind: CompletionItemKind) -> (r: CompletionItem)
    ensures
        r@ == plain_view(label@, kind),
{
    CompletionItem {
        label: label.to_owned(),
        kind,
        detail: None,
        insert_text: None,
        documentation: None,
    }
}

fn push_item(items: &mut Vec<CompletionItem>, item: CompletionItem)
    ensures
        item_views(final(items)@) == item_views(old(items)@).push(item@),
{
    items.push(item);
    assert(item_views(items@) =~= item_views(old(items)@).push(item@));
}

fn push_variables(items: &mut Vec<CompletionItem>, symbols: &SymbolTable)
    ensures
        item_views(final(items)@) == item_views(old(items)@) + variable_views(symbols@),
{
    let ghost before = item_views(items@);
    let ghost all = variable_views(symbols@);
    let mut k: usize = 0;
    assert(before + all.subrange(0, 0) =~= before);
    while k < symbols.len()
        invariant
            all == variable_views(symbols@),
            k <= symbols@.len(),
            item_views(items@) == before + all.subrange(0, k as int),
        decreases symbols@.len() - k,
    {
        push_item(items, plain_item(symbols.name(k), CompletionItemKind::Variable));
        assert(item_views(items@) =~= before + all.subrange(0, k + 1));
        k += 1;
    }
    assert(all.subrange(0, k as int) =~= all);
}

fn push_user_functions(items: &mut Vec<CompletionItem>, names: &NameSet)
    ensures
        item_views(final(items)@) == item_views(old(items)@) + user_function_views(names@),
{
    let ghost before = item_views(items@);
    let ghost all = user_function_views(names@);
    let mut k: usize = 0;
    assert(before + all.subrange(0, 0) =~= before);
    while k < names.len()
        invariant
            all == user_function_views(names@),
            k <= names@.len(),
            item_views(items@) == before + all.subrange(0, k as int),
        decreases names@.len() - k,
    {
        let mut item = plain_item(names.name(k), CompletionItemKind::Function);
        item.detail = Some("user-defined".to_owned());
        push_item(items, item);
        assert(item_views(items@) =~= before + all.subrange(0, k + 1));
        k += 1;
    }
    assert(all.subrange(0, k as int) =~= all);
}

fn push_keywords(items: &mut Vec<CompletionItem>, dialect: Dialect)
    ensures
        item_views(final(items)@) == item_views(old(items)@) + keyword_views(dialect),
{
    let ghost before = item_views(items@);
    let ghost all = keyword_views(dialect);
    if dialect.is_library() {
        push_item(items, plain_item("functions", CompletionItemKind::Keyword));
        push_item(items, plain_item("library", CompletionItemKind::Keyword));
        assert(item_views(items@) =~= before + all);
        return;
    }
    let keywords = BLOCK_KEYWORDS;
    let mut k: usize = 0;
    assert(before + all.subrange(0, 0) =~= before);
    while k < keywords.len()
        invariant
            keywords == BLOCK_KEYWORDS,
            dialect == Dialect::Laplace,
            all == keyword_views(dialect),
            k <= keywords@.len(),
            item_views(items@) == before + all.subrange(0, k as int),
        decreases keywords.len() - k,
    {
        push_item(items, plain_item(keywords[k], CompletionItemKind::Keyword));
        assert(item_views(items@) =~= before + all.subrange(0, k + 1));
        k += 1;
    }
    assert(all.subrange(0, k as int) =~= all);
}

fn push_libraries(items: &mut Vec<CompletionItem>, imports: &Vec<ImportStatement>)
    ensures
        item_views(final(items)@) == item_views(old(items)@) + library_views(imports@),
{
    let ghost before = item_views(items@);
    let ghost all = library_views(imports@);
    let mut k: usize = 0;
    assert(before + all.subrange(0, 0) =~= before);
    while k < imports.len()
        invariant
            all == library_views(imports@),
            k <= imports@.len(),
            item_views(items@) == before + all.subrange(0, k as int),
        decreases imports.len() - k,
    {
        let mut label = imports[k].name.clone();
        label.append("::");
        let insert_text = Some(label.clone());
        push_item(
            items,
            CompletionItem {
                label,
                kind: CompletionItemKind::Module,
                detail: Some("imported library".to_owned()),
                insert_text,
                documentation: None,
            },
        );
        assert(item_views(items@) =~= before + all.subrange(0, k + 1));
        k += 1;
    }
    assert(all.subrange(0, k as int) =~= all);
}

/// What is offered anywhere in a file: the variables in scope, the functions
/// that it defines, the block keywords of its dialect, and `pkg::` for every
/// library that it imports.
pub fn general_completions(analysis: &Analysis, dialect: Dialect) -> (r: Vec<CompletionItem>)
    ensures
        item_views(r@) == general_views(analysis, dialect),
{
    let mut items: Vec<CompletionItem> = Vec::new();
    push_variables(&mut items, &analysis.symbol_roles);
    push_user_functions(&mut items, &analysis.user_functions);
    push_keywords(&mut items, dialect);
    push_libraries(&mut items, &analysis.imports);
    assert(item_views(items@) =~= general_views(analysis, dialect));
    items
}

/// Every variable in scope, every function that the file defines and every
/// library that it imports is offered.
pub proof fn law_everything_in_scope_is_offered(analysis: &Analysis, dialect: Dialect)
    ensures
        ({
            let offered = general_views(analysis, dialect);
            &&& forall|i: int|
                0 <= i < analysis.symbol_roles@.len() ==> offered.contains(
                    variable_view((#[trigger] analysis.symbol_roles@[i]).0),
                )
            &&& forall|i: int|
                0 <= i < analysis.user_functions@.len() ==> offered.contains(
                    user_function_view(#[trigger] analysis.user_functions@[i]),
                )
            &&& forall|i: int|
                0 <= i < analysis.imports@.len() ==> offered.contains(
                    library_view((#[trigger] analysis.imports@[i]).name@),
                )
        }),
{
    let offered = general_views(analysis, dialect);
    let variables = analysis.symbol_roles@.len() as int;
    let functions = analysis.user_functions@.len() as int;
    let keywords = keyword_views(dialect).len() as int;
    assert forall|i: int| 0 <= i < variables implies offered.contains(
        variable_view((#[trigger] analysis.symbol_roles@[i]).0),
    ) by {
        assert(offered[i] == variable_view(analysis.symbol_roles@[i].0));
    }
    assert forall|i: int| 0 <= i < functions implies offered.contains(
        user_function_view(#[trigger] analysis.user_functions@[i]),
    ) by {
        assert(offered[variables + i] == user_function_view(analysis.user_functions@[i]));
    }
    assert forall|i: int| 0 <= i < analysis.imports@.len() implies offered.contains(
        library_view((#[trigger] analysis.imports@[i]).name@),
    ) by {
        assert(offered[variables + functions + keywords + i] == library_view(
            analysis.imports@[i].name@,
        ));
    }
}

/// A keyword is offered exactly if a block that it opens is legal.
pub proof fn law_keywords_are_legal(dialect: Dialect, kind: BlockKind)
    ensures
        keyword_views(dialect).contains(keyword_view(kind.keyword_text())) <==> dialect.permits(
            kind,
        ),
{
    reveal_strlit("functions");
    reveal_strlit("data");
    reveal_strlit("transformed data");
    reveal_strlit("parameters");
    reveal_strlit("transformed parameters");
    reveal_strlit("model");
    reveal_strlit("generated quantities");
    reveal_strlit("library");
    let views = keyword_views(dialect);
    let view = keyword_view(kind.keyword_text());
    match dialect {
        Dialect::Laplace => {
            let k: int = match kind {
                BlockKind::Data => 0,
                BlockKind::Parameters => 1,
                BlockKind::TransformedData => 2,
                BlockKind::TransformedParameters => 3,
                BlockKind::Model => 4,
                BlockKind::GeneratedQuantities => 5,
                BlockKind::Functions => 6,
                BlockKind::Library => 7,
            };
            assert(views[k] == view);
        },
        Dialect::Library => {
            if kind == BlockKind::Functions {
                assert(views[0] == view);
            } else if kind == BlockKind::Library {
                assert(views[1] == view);
            } else {
                let text = kind.keyword_text();
                assert(text[0] != 'f' && text[0] != 'l');
                assert("functions"@[0] == 'f');
                assert("library"@[0] == 'l');
            }
        },
    }
}

// ---------------------------------------------------------------------------
// Behind `pkg::`
// ---------------------------------------------------------------------------

/// The documentation of a function of a package.
#[derive(Debug)]
pub struct FunctionDoc {
    pub name: String,
    /// The parameters: the name and the type of each.
    pub params: Vec<(String, String)>,
    pub return_type: String,
    pub brief: Option<String>,
}

/// The first `n` parameters, each as `name: type`, separated by commas.
pub open spec fn params_text(params: Seq<(String, String)>, n: int) -> Seq<char>
    decreases n,
{
    if n <= 0 {
        seq![]
    } else {
        let param = params[n - 1].0@ + ": "@ + params[n - 1].1@;
        if n == 1 {
            param
        } else {
            params_text(params, n - 1) + ", "@ + param
        }
    }
}

/// The offer of a function of a package, with its signature and what its
/// documentation says in brief.
pub open spec fn documented_view(doc: FunctionDoc) -> CompletionView {
    CompletionView {
        label: doc.name@,
        kind: CompletionItemKind::Function,
        detail: Some(
            concat(
                seq![
                    "("@,
                    params_text(doc.params@, doc.params@.len() as int),
                    ") -> "@,
                    doc.return_type@,
                ],
            ),
        ),
        insert_text: None,
        documentation: string_view(doc.brief),
    }
}

/// The functions of a package, if it is locked and its documentation could be
/// read.
pub open spec fn package_views(
    lock: Lockfile,
    package: Seq<char>,
    docs: Option<Vec<FunctionDoc>>,
) -> Seq<CompletionView> {
    match docs {
        Some(docs) => if locked_index(lock.packages@, package, 0) is Some {
            Seq::new(docs@.len(), |i: int| documented_view(docs@[i]))
        } else {
            seq![]
        },
        None => seq![],
    }
}

/// Nothing is offered of a package that is not locked, such as every package
/// where there is no lockfile; of a locked one, every documented function.
pub proof fn law_only_locked_packages_are_offered(
    lock: Lockfile,
    package: Seq<char>,
    docs: Vec<FunctionDoc>,
)
    ensures
        (forall|k: int|
            0 <= k < lock.packages@.len() ==> (#[trigger] lock.packages@[k]).name@ != package)
            ==> package_views(lock, package, Some(docs)) == Seq::<CompletionView>::empty(),
        (exists|k: int|
            0 <= k < lock.packages@.len() && (#[trigger] lock.packages@[k]).name@ == package)
            ==> package_views(lock, package, Some(docs)).len() == docs@.len(),
{
    law_locked_index(lock.packages@, package, 0);
}

fn render_params(params: &Vec<(String, String)>) -> (r: String)
    ensures
        r@ == params_text(params@, params@.len() as int),
{
    let mut s = String::new();
    let mut k: usize = 0;
    while k < params.len()
        invariant
            k <= params@.len(),
            s@ == params_text(params@, k as int),
        decreases params.len() - k,
    {
        let ghost before = s@;
        if k > 0 {
            s.append(", ");
        }
        s.append(params[k].0.as_str());
        s.append(": ");
        s.append(params[k].1.as_str());
        assert(s@ =~= params_text(params@, k + 1));
        k += 1;
    }
    s
}

fn documented_item(doc: &FunctionDoc) -> (r: CompletionItem)
    ensures
        r@ == documented_view(*doc),
{
    let params = render_params(&doc.params);
    let parts = vec!["(", params.as_str(), ") -> ", doc.return_type.as_str()];
    let detail = join_parts(&parts);
    assert(views(parts@) =~= seq![
        "("@,
        params_text(doc.params@, doc.params@.len() as int),
        ") -> "@,
        doc.return_type@,
    ]);
    let documentation = match &doc.brief {
        Some(brief) => Some(brief.clone()),
        None => None,
    };
    CompletionItem {
        label: doc.name.clone(),
        kind: CompletionItemKind::Function,
        detail: Some(detail),
        insert_text: None,
        documentation,
    }
}

/// What is offered behind `package::`: the exported functions of the package,
/// as the documentation installed with it lists them. `docs` is `None` if it
/// could not be read.
pub fn package_completions(lock: &Lockfile, package: &str, docs: &Option<Vec<FunctionDoc>>) -> (r:
    Vec<CompletionItem>)
    ensures
        item_views(r@) == package_views(*lock, package@, *docs),
{
    let mut items: Vec<CompletionItem> = Vec::new();
    assert(item_views(items@) =~= Seq::<CompletionView>::empty());
    if find_locked(lock, package).is_none() {
        return items;
    }
    if let Some(docs) = docs {
        let ghost all = Seq::new(docs@.len(), |i: int| documented_view(docs@[i]));
        let mut k: usize = 0;
        while k < docs.len()
            invariant
                all == Seq::new(docs@.len(), |i: int| documented_view(docs@[i])),
                k <= docs@.len(),
                item_views(items@) == all.subrange(0, k as int),
            decreases docs.len() - k,
        {
            push_item(&mut items, documented_item(&docs[k]));
            assert(item_views(items@) =~= all.subrange(0, k + 1));
            k += 1;
        }
        assert(all.subrange(0, k as int) =~= all);
    }
    items
}

// ---------------------------------------------------------------------------
// Which of the two
// ---------------------------------------------------------------------------

/// A character that Unicode counts as a letter or a number.
pub uninterp spec fn is_letter_or_number(c: char) -> bool;

/// `char::is_alphanumeric` depends on the character alone: it says whether
/// Unicode counts it as alphabetic or numeric. The contract names the answer;
/// of ASCII characters it gives it: the letters and the digits.
pub assume_specification[ char::is_alphanumeric ](c: char) -> (r: bool)
    ensures
        r == is_letter_or_number(c),
        (c as u32) < 0x80 ==> r == ('a' <= c <= 'z' || 'A' <= c <= 'Z' || '0' <= c <= '9'),
;

/// A character of a name: a letter, a number or `_`.
pub open spec fn is_name_char(c: char) -> bool {
    is_letter_or_number(c) || c == '_'
}

/// All characters are characters of a name.
pub open spec fn all_name_chars(text: Seq<char>) -> bool {
    forall|i: int| 0 <= i < text.len() ==> is_name_char(#[trigger] text[i])
}

/// The last `::` in the first `n` characters.
pub open spec fn last_colons(text: Seq<char>, n: int) -> Option<int>
    decreases n,
{
    if n < 2 {
        None
    } else if text[n - 2] == ':' && text[n - 1] == ':' {
        Some(n - 2)
    } else {
        last_colons(text, n - 1)
    }
}

/// Where the name that ends at `n` starts.
pub open spec fn name_start(text: Seq<char>, n: int) -> int
    decreases n,
{
    if n > 0 && is_name_char(text[n - 1]) {
        name_start(text, n - 1)
    } else {
        n
    }
}

/// The package whose functions are asked for by text that ends in
/// `<name>::<partial name>`.
pub open spec fn package_asked(text: Seq<char>) -> Option<Seq<char>> {
    match last_colons(text, text.len() as int) {
        Some(at) => {
            let start = name_start(text, at);
            if start < at && all_name_chars(text.subrange(at + 2, text.len() as int)) {
                Some(text.subrange(start, at))
            } else {
                None
            }
        },
        None => None,
    }
}

fn chars_of(text: &str) -> (r: Vec<char>)
    ensures
        r@ == text@,
{
    let mut out: Vec<char> = Vec::new();
    for c in it: text.chars()
        invariant
            it.seq() == text@,
            out@ == text@.subrange(0, it.index() as int),
    {
        out.push(c);
        assert(out@ =~= text@.subrange(0, it.index() + 1));
    }
    assert(out@ =~= text@);
    out
}

fn string_of(chars: &Vec<char>, start: usize, end: usize) -> (r: String)
    requires
        start <= end <= chars@.len(),
    ensures
        r@ == chars@.subrange(start as int, end as int),
{
    let mut s = String::new();
    let mut k: usize = start;
    while k < end
        invariant
            start <= k <= end <= chars@.len(),
            s@ == chars@.subrange(start as int, k as int),
        decreases end - k,
    {
        s.push(chars[k]);
        assert(s@ =~= chars@.subrange(start as int, k + 1));
        k += 1;
    }
    s
}

fn is_name_character(c: char) -> (r: bool)
    ensures
        r == is_name_char(c),
{
    c.is_alphanumeric() || c == '_'
}

/// If `prefix`, the text before the cursor, ends in `<name>::<partial name>`,
/// the name: that of the package to complete from.
pub fn package_prefix(prefix: &str) -> (r: Option<String>)
    ensures
        string_view(r) == package_asked(prefix@),
{
    let chars = chars_of(prefix);
    let length = chars.len();
    let mut n: usize = length;
    while n >= 2 && !(chars[n - 2] == ':' && chars[n - 1] == ':')
        invariant
            chars@ == prefix@,
            n <= length == chars@.len(),
            last_colons(chars@, length as int) == last_colons(chars@, n as int),
        decreases n,
    {
        n -= 1;
    }
    if n < 2 {
        return None;
    }
    let at = n - 2;
    let ghost partial = chars@.subrange(at + 2, length as int);
    let mut k: usize = n;
    while k < length
        invariant
            chars@ == prefix@,
            at + 2 == n,
            n <= k <= length == chars@.len(),
            last_colons(chars@, length as int) == Some(at as int),
            partial == chars@.subrange(at + 2, length as int),
            forall|i: int| 0 <= i < k - n ==> is_name_char(#[trigger] partial[i]),
        decreases length - k,
    {
        if !is_name_character(chars[k]) {
            assert(partial[k - n] == chars@[k as int]);
            assert(!all_name_chars(partial));
            return None;
        }
        k += 1;
    }
    assert(all_name_chars(partial));
    let mut start: usize = at;
    while start > 0 && is_name_character(chars[start - 1])
        invariant
            start <= at < chars@.len(),
            name_start(chars@, at as int) == name_start(chars@, start as int),
        decreases start,
    {
        start -= 1;
    }
    if start == at {
        return None;
    }
    Some(string_of(&chars, start, at))
}

/// Typing `name::`, and a partial name behind it, asks for the functions of
/// the package `name`, whatever stands before.
pub proof fn law_qualified_name_asks_for_its_package(
    before: Seq<char>,
    name: Seq<char>,
    partial: Seq<char>,
)
    requires
        name.len() > 0,
        all_name_chars(name),
        all_name_chars(partial),
        !partial.contains(':'),
        before.len() > 0 ==> !is_name_char(before.last()),
    ensures
        package_asked(before + name + "::"@ + partial) == Some(name),
{
    reveal_strlit("::");
    let text = before + name + "::"@ + partial;
    let start = before.len() as int;
    let at = start + name.len();
    assert forall|i: int| at + 2 <= i < text.len() implies text[i] != ':' by {
        assert(text[i] == partial[i - at - 2]);
    }
    lemma_last_colons(text, at, text.len() as int);
    assert forall|i: int| start <= i < at implies is_name_char(#[trigger] text[i]) by {
        assert(text[i] == name[i - start]);
    }
    if start > 0 {
        assert(text[start - 1] == before.last());
    }
    lemma_name_start(text, start, at);
    assert(text.subrange(start, at) =~= name);
    assert(text.subrange(at + 2, text.len() as int) =~= partial);
}

proof fn lemma_last_colons(text: Seq<char>, at: int, n: int)
    requires
        0 <= at,
        at + 2 <= n <= text.len(),
        text[at] == ':',
        text[at + 1] == ':',
        forall|i: int| at + 2 <= i < text.len() ==> text[i] != ':',
    ensures
        last_colons(text, n) == Some(at),
    decreases n,
{
    if n > at + 2 {
        lemma_last_colons(text, at, n - 1);
    }
}

proof fn lemma_name_start(text: Seq<char>, start: int, n: int)
    requires
        0 <= start <= n <= text.len(),
        forall|i: int| start <= i < n ==> is_name_char(#[trigger] text[i]),
        start > 0 ==> !is_name_char(text[start - 1]),
    ensures
        name_start(text, n) == start,
    decreases n,
{
    if n > start {
        lemma_name_start(text, start, n - 1);
    }
}

/// What completion at a position is about.
#[derive(Debug)]
pub enum CompletionScope {
    /// The functions of this package.
    Package(String),
    /// Everything else.
    General,
}

/// What completion at the position `position` of `source` is about.
pub fn completion_scope(source: &str, position: Position) -> (r: CompletionScope)
    ensures
        ({
            let bytes = encode_utf8(source@);
            match package_asked(text_between(bytes, 0, offset_at(bytes, position))) {
                Some(package) => r matches CompletionScope::Package(name) && name@ == package,
                None => r is General,
            }
        }),
{
    let offset = position_to_offset(source, position);
    proof {
        encode_utf8_valid_utf8(source@);
        lemma_boundary(encode_utf8(source@), 0);
    }
    match package_prefix(substring(source, 0, offset)) {
        Some(package) => CompletionScope::Package(package),
        None => CompletionScope::General,
    }
}

/// The text ends in `<name>::<partial>`: name characters in both, at least one
/// of them in the name, and none right before it.
pub open spec fn ends_in_qualified_name(
    text: Seq<char>,
    before: Seq<char>,
    name: Seq<char>,
    partial: Seq<char>,
) -> bool {
    &&& text == before + name + seq![':', ':'] + partial
    &&& name.len() > 0
    &&& forall|i: int|
        0 <= i < name.len() ==> is_letter_or_number(#[trigger] name[i]) || name[i] == '_'
    &&& forall|i: int|
        0 <= i < partial.len() ==> is_letter_or_number(#[trigger] partial[i]) || partial[i] == '_'
    &&& before.len() > 0 ==> !is_letter_or_number(before.last()) && before.last() != '_'
}

/// A package is asked for only if the text ends in its name, `::` and nothing
/// but name characters: text behind a finished call asks for none.
pub proof fn law_only_a_qualified_name_asks_for_a_package(text: Seq<char>)
    ensures
        package_asked(text) matches Some(name) ==> exists|before: Seq<char>, partial: Seq<char>|
            #[trigger] ends_in_qualified_name(text, before, name, partial),
{
    let n = text.len() as int;
    lemma_last_colons_found(text, n);
    if let Some(name) = package_asked(text) {
        let at = last_colons(text, n)->0;
        lemma_name_start_found(text, at);
        let start = name_start(text, at);
        let before = text.subrange(0, start);
        let partial = text.subrange(at + 2, n);
        assert(text =~= before + name + seq![':', ':'] + partial);
        assert forall|i: int| 0 <= i < name.len() implies is_letter_or_number(#[trigger] name[i])
            || name[i] == '_' by {
            assert(is_name_char(text[start + i]));
        }
        assert forall|i: int| 0 <= i < partial.len() implies is_letter_or_number(
            #[trigger] partial[i],
        ) || partial[i] == '_' by {
            assert(is_name_char(partial[i]));
        }
        assert(ends_in_qualified_name(text, before, name, partial));
    }
}

/// A text that ends in a qualified name asks for exactly that package. The
/// partial name has no colon of its own.
pub proof fn law_a_qualified_name_asks_for_its_package(
    text: Seq<char>,
    before: Seq<char>,
    name: Seq<char>,
    partial: Seq<char>,
)
    requires
        ends_in_qualified_name(text, before, name, partial),
        !partial.contains(':'),
    ensures
        package_asked(text) == Some(name),
{
    reveal_strlit("::");
    assert("::"@ =~= seq![':', ':']);
    law_qualified_name_asks_for_its_package(before, name, partial);
}

proof fn lemma_last_colons_found(text: Seq<char>, n: int)
    requires
        0 <= n <= text.len(),
    ensures
        last_colons(text, n) matches Some(at) ==> 0 <= at && at + 2 <= n && text[at] == ':'
            && text[at + 1] == ':',
    decreases n,
{
    if n >= 2 {
        lemma_last_colons_found(text, n - 1);
    }
}

proof fn lemma_name_start_found(text: Seq<char>, n: int)
    requires
        0 <= n <= text.len(),
    ensures
        0 <= name_start(text, n) <= n,
        forall|i: int| name_start(text, n) <= i < n ==> is_name_char(#[trigger] text[i]),
        name_start(text, n) > 0 ==> !is_name_char(text[name_start(text, n) - 1]),
    decreases n,
{
    if n > 0 && is_name_char(text[n - 1]) {
        lemma_name_start_found(text, n - 1);
    }
}

/// What is offered says what it is: a variable and a block keyword by its name
/// alone, a function of the file as user-defined, and a library by its name
/// with `::`, which is also what is inserted. They come in this order, each
/// kind in the order of the file, and nothing else is offered.
pub proof fn law_what_is_offered(analysis: &Analysis, dialect: Dialect, i: int)
    ensures
        ({
            let offered = general_views(analysis, dialect);
            let variables = analysis.symbol_roles@.len() as int;
            let functions = analysis.user_functions@.len() as int;
            let keywords: int = match dialect {
                Dialect::Laplace => 8,
                Dialect::Library => 2,
            };
            let libraries = analysis.imports@.len() as int;
            &&& offered.len() == variables + functions + keywords + libraries
            &&& 0 <= i < variables ==> {
                let offer = offered[i];
                &&& offer.label == analysis.symbol_roles@[i].0
                &&& offer.kind == CompletionItemKind::Variable
                &&& offer.detail is None
                &&& offer.insert_text is None
                &&& offer.documentation is None
            }
            &&& 0 <= i < functions ==> {
                let offer = offered[variables + i];
                &&& offer.label == analysis.user_functions@[i]
                &&& offer.kind == CompletionItemKind::Function
                &&& offer.detail == Some("user-defined"@)
                &&& offer.insert_text is None
                &&& offer.documentation is None
            }
            &&& 0 <= i < keywords ==> {
                let offer = offered[variables + functions + i];
                &&& exists|kind: BlockKind|
                    dialect.permits(kind) && offer.label == #[trigger] kind.keyword_text()
                &&& offer.kind == CompletionItemKind::Keyword
                &&& offer.detail is None
                &&& offer.insert_text is None
                &&& offer.documentation is None
            }
            &&& 0 <= i < libraries ==> {
                let offer = offered[variables + functions + keywords + i];
                &&& offer.label == analysis.imports@[i].name@ + "::"@
                &&& offer.kind == CompletionItemKind::Module
                &&& offer.detail == Some("imported library"@)
                &&& offer.insert_text == Some(offer.label)
                &&& offer.documentation is None
            }
        }),
{
    let variables = analysis.symbol_roles@.len() as int;
    let functions = analysis.user_functions@.len() as int;
    let words = keyword_views(dialect);
    let offered = general_views(analysis, dialect);
    assert(BLOCK_KEYWORDS@.len() == 8);
    if 0 <= i < words.len() {
        assert(offered[variables + functions + i] == words[i]);
        let kind = if dialect == Dialect::Library {
            if i == 0 {
                BlockKind::Functions
            } else {
                BlockKind::Library
            }
        } else if i == 0 {
            BlockKind::Data
        } else if i == 1 {
            BlockKind::Parameters
        } else if i == 2 {
            BlockKind::TransformedData
        } else if i == 3 {
            BlockKind::TransformedParameters
        } else if i == 4 {
            BlockKind::Model
        } else if i == 5 {
            BlockKind::GeneratedQuantities
        } else if i == 6 {
            BlockKind::Functions
        } else {
            BlockKind::Library
        };
        assert(words[i].label == kind.keyword_text());
    }
}

/// Behind `package::` the `i`-th offer is the `i`-th documented function of a
/// locked package: its name, its parameters and its return type, and what its
/// own documentation says in brief.
pub proof fn law_documented_functions_are_offered(
    lock: Lockfile,
    package: Seq<char>,
    docs: Vec<FunctionDoc>,
    i: int,
    k: int,
)
    requires
        0 <= k < lock.packages@.len(),
        lock.packages@[k].name@ == package,
        0 <= i < docs@.len(),
    ensures
        ({
            let offered = package_views(lock, package, Some(docs));
            let doc = docs@[i];
            &&& offered.len() == docs@.len()
            &&& offered[i].label == doc.name@
            &&& offered[i].kind == CompletionItemKind::Function
            &&& offered[i].detail == Some(
                "("@ + params_text(doc.params@, doc.params@.len() as int) + ") -> "@
                    + doc.return_type@,
            )
            &&& offered[i].insert_text is None
            &&& match doc.brief {
                Some(brief) => offered[i].documentation == Some(brief@),
                None => offered[i].documentation is None,
            }
        }),
{
    let doc = docs@[i];
    law_locked_index(lock.packages@, package, 0);
    lemma_concat_four(
        "("@,
        params_text(doc.params@, doc.params@.len() as int),
        ") -> "@,
        doc.return_type@,
    );
}

/// The parameters of a signature: none give no text, the first one is
/// `name: type`, and each further one comes behind a comma.
pub proof fn law_parameters(params: Seq<(String, String)>, param: (String, String))
    ensures
        ({
            let n = params.len() as int;
            let more = params.push(param);
            let shown = param.0@ + ": "@ + param.1@;
            &&& params_text(seq![], 0) == Seq::<char>::empty()
            &&& params_text(more, n + 1) == (if n == 0 {
                shown
            } else {
                params_text(params, n) + ", "@ + shown
            })
        }),
{
    lemma_params_prefix(params, params.push(param), params.len() as int);
}

proof fn lemma_params_prefix(a: Seq<(String, String)>, b: Seq<(String, String)>, n: int)
    requires
        n <= a.len(),
        n <= b.len(),
        forall|k: int| 0 <= k < n ==> #[trigger] a[k] == b[k],
    ensures
        params_text(a, n) == params_text(b, n),
    decreases n,
{
    if n > 0 {
        assert(a[n - 1] == b[n - 1]);
        lemma_params_prefix(a, b, n - 1);
    }
}

/// Nothing is offered of a package whose documentation could not be read.
pub proof fn law_no_documentation_no_offers(lock: Lockfile, package: Seq<char>)
    ensures
        package_views(lock, package, None).len() == 0,
{
}

} // verus!
