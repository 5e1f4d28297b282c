//! Live diagnostics of a project file: imports that do not resolve, pins that
//! do not match the lockfile, blocks that a library may not contain, and what
//! the compiler objects to.
//!
//! Checking types and statements takes `stanc`, which may not be installed;
//! that is the business of the module `stanc`. What is here needs nothing but
//! the compiler's findings and the lockfile.

use crate::analysis::{ImportStatement, QualifiedCall};
use crate::blocks::{
    BlockKind, TopLevelBlock, is_word, is_word_at, law_one_word_per_offset, law_what_a_word_is,
    word_at, word_is_written,
};
use crate::declarations::string_view;
use crate::dialect::{Dialect, dialect_of_path, extension_of, uri_file_path, uri_to_file_path};
use crate::mask::CodeMask;
use crate::position::{LspRange, line_starts, line_starts_of, offset_to_position, position_at};
use crate::text::{
    concat, contains_name, is_ascii_whitespace, is_boundary, is_space_byte, join_parts,
    lemma_boundary, lemma_concat_five, lemma_concat_nine, lemma_concat_three,
    lemma_occurrence_boundaries, lemma_same_bytes, offset_view, on_boundary, str_eq, texts, views,
};
use crate::tokens::{calls_are_usable, calls_fit, library_tokens, token_fits};
use crate::workspace::{LockedPackage, Lockfile, find_locked, law_locked_index, locked_index};
use std::ops::Range;
use vstd::prelude::*;
use vstd::string::*;
use vstd::utf8::*;

verus! {

/// How serious a diagnostic is.
#[derive(Debug, Clone, Copy, PartialEq, Eq, Structural)]
pub enum Severity {
    Error,
    Warning,
}

/// A diagnostic as the client shows it.
#[derive(Debug)]
pub struct Diagnostic {
    pub range: LspRange,
    pub severity: Severity,
    pub source: String,
    pub message: String,
}

/// What a diagnostic says.
pub struct DiagnosticView {
    pub range: LspRange,
    pub severity: Severity,
    pub source: Seq<char>,
    pub message: Seq<char>,
}

impl View for Diagnostic {
    type V = DiagnosticView;

    open spec fn view(&self) -> DiagnosticView {
        DiagnosticView {
            range: self.range,
            severity: self.severity,
            source: self.source@,
            message: self.message@,
        }
    }
}

/// What a list of diagnostics says.
pub open spec fn diagnostic_views(diagnostics: Seq<Diagnostic>) -> Seq<DiagnosticView> {
    Seq::new(diagnostics.len(), |i: int| diagnostics[i]@)
}

/// The `library { }` block of a file.
#[derive(Debug)]
pub struct LibraryBlock {
    pub byte_range: Range<usize>,
    pub imports: Vec<ImportStatement>,
}

/// What became of the package that an import asks for.
#[derive(Debug)]
pub enum PackageStatus {
    /// Its directory is not there.
    NotInstalled,
    /// Its directory is there, but the package cannot be loaded.
    Broken(String),
    /// It was loaded.
    Loaded,
}

/// What the compiler can object to, as far as it decides where the objection
/// is shown.
#[derive(Debug)]
pub enum CodegenError {
    MissingImport { package: String },
    ExportedFunctionMissing { package: String },
    MissingDependency { package: String },
    UndeclaredPackageReference { in_package: String },
    FunctionNotExported { package: String, func: String },
    UnknownPackageReference { package: String, func: String },
    DuplicateMangledName { first_package: String, second_package: String },
    PrivateFunctionCollision { first_package: String, second_package: String },
    FunctionFileCollision { first_package: String, second_package: String },
}

/// An objection of the compiler and its words.
#[derive(Debug)]
pub struct CodegenFailure {
    pub error: CodegenError,
    pub message: String,
}

/// What the compiler has found in a file.
#[derive(Debug)]
pub struct Compilation {
    /// Which bytes of the file are code.
    pub mask: CodeMask,
    /// The top-level blocks.
    pub blocks: Vec<TopLevelBlock>,
    /// The `library { }` block, or the words in which it was rejected.
    pub library_block: Result<Option<LibraryBlock>, String>,
    /// The `package::func` calls.
    pub calls: Vec<QualifiedCall>,
    /// The objection to the program as a whole, given the packages that were
    /// loaded.
    pub failure: Option<CodegenFailure>,
}

// ---------------------------------------------------------------------------
// Ranges
// ---------------------------------------------------------------------------

/// An offset that is kept inside the text.
pub open spec fn clamped(bytes: Seq<u8>, offset: int) -> int {
    if offset < bytes.len() {
        offset
    } else {
        bytes.len() as int
    }
}

/// The text can be cut at both ends of the span, once they are kept inside
/// the text.
pub open spec fn span_fits(bytes: Seq<u8>, span: (int, int)) -> bool {
    on_boundary(bytes, clamped(bytes, span.0)) && on_boundary(bytes, clamped(bytes, span.1))
}

/// The two ends of a range.
pub open spec fn span_of(range: Range<usize>) -> (int, int) {
    (range.start as int, range.end as int)
}

/// Whether the text `bytes` can be cut at both ends of `range`, once they are
/// kept inside it.
pub fn span_is_usable(bytes: &[u8], range: &Range<usize>) -> (r: bool)
    ensures
        r == span_fits(bytes@, span_of(*range)),
{
    let length = bytes.len();
    (range.start >= length || is_boundary(bytes, range.start)) && (range.end >= length
        || is_boundary(bytes, range.end))
}

/// Where a span of the text is shown.
pub open spec fn shown_range(bytes: Seq<u8>, span: (int, int)) -> LspRange {
    LspRange {
        start: position_at(bytes, clamped(bytes, span.0)),
        end: position_at(bytes, clamped(bytes, span.1)),
    }
}

/// Where the span `range` of `source` is shown.
pub fn to_lsp_range(source: &str, starts: &[usize], range: Range<usize>) -> (r: LspRange)
    requires
        starts@ == line_starts_of(encode_utf8(source@)),
        span_fits(encode_utf8(source@), span_of(range)),
    ensures
        r == shown_range(encode_utf8(source@), span_of(range)),
{
    let length = source.as_bytes().len();
    let start = if range.start < length {
        range.start
    } else {
        length
    };
    let end = if range.end < length {
        range.end
    } else {
        length
    };
    LspRange {
        start: offset_to_position(source, starts, start),
        end: offset_to_position(source, starts, end),
    }
}

/// An error of this module at a span of the text.
pub open spec fn laplace_error(bytes: Seq<u8>, span: (int, int), message: Seq<char>) -> DiagnosticView {
    DiagnosticView {
        range: shown_range(bytes, span),
        severity: Severity::Error,
        source: "laplace"@,
        message,
    }
}

/// An error at the span `range` of `source`.
pub fn diagnostic(source: &str, starts: &[usize], range: Range<usize>, message: String) -> (r:
    Diagnostic)
    requires
        starts@ == line_starts_of(encode_utf8(source@)),
        span_fits(encode_utf8(source@), span_of(range)),
    ensures
        r@ == laplace_error(encode_utf8(source@), span_of(range), message@),
{
    Diagnostic {
        range: to_lsp_range(source, starts, range),
        severity: Severity::Error,
        source: "laplace".to_owned(),
        message,
    }
}

// ---------------------------------------------------------------------------
// Imports
// ---------------------------------------------------------------------------

/// The `library { }` block lies in the text, and the text can be cut at its
/// ends.
pub open spec fn library_fits(bytes: Seq<u8>, block: LibraryBlock) -> bool {
    &&& block.byte_range.start <= block.byte_range.end
    &&& on_boundary(bytes, block.byte_range.start as int)
    &&& on_boundary(bytes, block.byte_range.end as int)
}

/// The first offset from `i` on that is code and not whitespace.
pub open spec fn gap_end(bytes: Seq<u8>, mask: &CodeMask, i: int) -> int
    decreases bytes.len() - i,
{
    if 0 <= i < bytes.len() && (!mask.code(i) || is_space_byte(bytes[i])) {
        gap_end(bytes, mask, i + 1)
    } else {
        i
    }
}

/// Where the statement `import <name>` that stands at `i` ends: both words are
/// whole words of code, with whitespace or comments between them.
pub open spec fn import_end(bytes: Seq<u8>, mask: &CodeMask, i: int, name: Seq<char>) -> Option<
    int,
> {
    let keyword = encode_utf8("import"@);
    let word = encode_utf8(name);
    let after = i + keyword.len();
    let at = gap_end(bytes, mask, after);
    if word.len() > 0 && word_at(bytes, mask, i, keyword) && after < at && word_at(
        bytes,
        mask,
        at,
        word,
    ) {
        Some(at + word.len())
    } else {
        None
    }
}

/// The first statement `import <name>` between `i` and `end`.
pub open spec fn import_statement(
    bytes: Seq<u8>,
    mask: &CodeMask,
    i: int,
    end: int,
    name: Seq<char>,
) -> Option<(int, int)>
    decreases end - i,
{
    if i < 0 || i >= end {
        None
    } else {
        match import_end(bytes, mask, i, name) {
            Some(stop) => if stop <= end {
                Some((i, stop))
            } else {
                import_statement(bytes, mask, i + 1, end, name)
            },
            None => import_statement(bytes, mask, i + 1, end, name),
        }
    }
}

/// What is found is a statement `import <name>` between `from` and `end`, and
/// none starts before it; if nothing is found, there is none.
pub proof fn law_import_statement(
    bytes: Seq<u8>,
    mask: &CodeMask,
    from: int,
    end: int,
    name: Seq<char>,
)
    requires
        0 <= from,
    ensures
        match import_statement(bytes, mask, from, end, name) {
            Some((i, stop)) => {
                &&& from <= i < stop <= end
                &&& import_end(bytes, mask, i, name) == Some(stop)
                &&& forall|j: int|
                    from <= j < i ==> (#[trigger] import_end(bytes, mask, j, name) matches Some(e)
                        ==> e > end)
            },
            None => forall|j: int|
                from <= j < end ==> (#[trigger] import_end(bytes, mask, j, name) matches Some(e)
                    ==> e > end),
        },
    decreases end - from,
{
    if from < end {
        lemma_gap_end(bytes, mask, from + encode_utf8("import"@).len());
        law_import_statement(bytes, mask, from + 1, end, name);
    }
}

proof fn lemma_gap_end(bytes: Seq<u8>, mask: &CodeMask, i: int)
    ensures
        i <= gap_end(bytes, mask, i),
    decreases bytes.len() - i,
{
    if 0 <= i < bytes.len() && (!mask.code(i) || is_space_byte(bytes[i])) {
        lemma_gap_end(bytes, mask, i + 1);
    }
}

/// Where the import of `name` stands: at the first statement `import <name>`
/// of the block, or else the whole block.
pub open spec fn import_span(
    bytes: Seq<u8>,
    mask: &CodeMask,
    block: LibraryBlock,
    name: Seq<char>,
) -> (int, int) {
    match import_statement(
        bytes,
        mask,
        block.byte_range.start as int,
        block.byte_range.end as int,
        name,
    ) {
        Some(span) => span,
        None => span_of(block.byte_range),
    }
}

/// The text can be cut around an import.
pub proof fn lemma_import_span(
    bytes: Seq<u8>,
    mask: &CodeMask,
    block: LibraryBlock,
    name: Seq<char>,
)
    requires
        valid_utf8(bytes),
        library_fits(bytes, block),
    ensures
        ({
            let span = import_span(bytes, mask, block, name);
            block.byte_range.start <= span.0 <= span.1 <= block.byte_range.end
        }),
        span_fits(bytes, import_span(bytes, mask, block, name)),
{
    let start = block.byte_range.start as int;
    let end = block.byte_range.end as int;
    law_import_statement(bytes, mask, start, end, name);
    if let Some((i, stop)) = import_statement(bytes, mask, start, end, name) {
        let keyword = encode_utf8("import"@);
        let word = encode_utf8(name);
        reveal_strlit("import");
        encode_utf8_valid_utf8("import"@);
        encode_utf8_first_scalar("import"@);
        encode_utf8_valid_utf8(name);
        lemma_occurrence_boundaries(bytes, keyword, i);
        lemma_occurrence_boundaries(bytes, word, stop - word.len());
    }
}

fn skip_gap(bytes: &[u8], mask: &CodeMask, i: usize) -> (r: usize)
    requires
        mask.wf(bytes@),
        i <= bytes@.len(),
    ensures
        r == gap_end(bytes@, mask, i as int),
        i <= r <= bytes@.len(),
{
    let mut j: usize = i;
    while j < bytes.len() && (!mask.is_real(j) || is_ascii_whitespace(bytes[j]))
        invariant
            mask.wf(bytes@),
            i <= j <= bytes@.len(),
            gap_end(bytes@, mask, i as int) == gap_end(bytes@, mask, j as int),
        decreases bytes.len() - j,
    {
        j += 1;
    }
    j
}

fn find_import_end(bytes: &[u8], mask: &CodeMask, i: usize, name: &str) -> (r: Option<usize>)
    requires
        mask.wf(bytes@),
    ensures
        offset_view(r) == import_end(bytes@, mask, i as int, name@),
{
    let length = bytes.len();
    let keyword = "import".as_bytes();
    let word = name.as_bytes();
    if word.len() == 0 || !is_word_at(bytes, mask, i, keyword) {
        return None;
    }
    let after = i + keyword.len();
    let at = skip_gap(bytes, mask, after);
    if at == after || !is_word_at(bytes, mask, at, word) {
        return None;
    }
    assert(at + word@.len() <= length);
    Some(at + word.len())
}

/// Where the import of `name` stands in `source`.
pub fn import_range(source: &str, mask: &CodeMask, block: &LibraryBlock, name: &str) -> (r: Range<
    usize,
>)
    requires
        mask.wf(encode_utf8(source@)),
        library_fits(encode_utf8(source@), *block),
    ensures
        span_of(r) == import_span(encode_utf8(source@), mask, *block, name@),
        span_fits(encode_utf8(source@), span_of(r)),
{
    let bytes = source.as_bytes();
    proof {
        encode_utf8_valid_utf8(source@);
        lemma_import_span(bytes@, mask, *block, name@);
    }
    let start = block.byte_range.start;
    let end = block.byte_range.end;
    let mut i: usize = start;
    while i < end
        invariant
            bytes@ == encode_utf8(source@),
            mask.wf(bytes@),
            start == block.byte_range.start,
            end == block.byte_range.end,
            start <= i <= end,
            span_fits(bytes@, import_span(bytes@, mask, *block, name@)),
            import_statement(bytes@, mask, start as int, end as int, name@) == import_statement(
                bytes@,
                mask,
                i as int,
                end as int,
                name@,
            ),
        decreases end - i,
    {
        if let Some(stop) = find_import_end(bytes, mask, i, name) {
            if stop <= end {
                return i..stop;
            }
        }
        i += 1;
    }
    start..end
}

/// The words for an import that the lockfile does not record.
pub open spec fn unlocked_message(name: Seq<char>) -> Seq<char> {
    concat(
        seq![
            "`"@,
            name,
            "` is imported but not recorded in laplace.lock -- run `laplace add "@,
            name,
            "`"@,
        ],
    )
}

/// The words for a pin that is not the locked version.
pub open spec fn pin_message(name: Seq<char>, pin: Seq<char>, version: Seq<char>) -> Seq<char> {
    concat(
        seq![
            "`"@,
            name,
            "` is pinned to "@,
            pin,
            " here, but laplace.lock has "@,
            version,
            " -- run `laplace update "@,
            name,
            "`"@,
        ],
    )
}

/// The words for a locked package that is not installed.
pub open spec fn not_installed_message(name: Seq<char>, version: Seq<char>) -> Seq<char> {
    concat(
        seq!["`"@, name, "@"@, version, "` is locked but not installed -- run `laplace install`"@],
    )
}

/// What there is to say about the pin of an import.
pub open spec fn pin_views(
    bytes: Seq<u8>,
    mask: &CodeMask,
    block: LibraryBlock,
    import: ImportStatement,
    version: Seq<char>,
) -> Seq<DiagnosticView> {
    match import.version {
        Some(pin) => if pin@ != version {
            seq![
                laplace_error(
                    bytes,
                    import_span(bytes, mask, block, import.name@),
                    pin_message(import.name@, pin@, version),
                ),
            ]
        } else {
            seq![]
        },
        None => seq![],
    }
}

/// What there is to say about the package that an import asks for.
pub open spec fn status_views(
    bytes: Seq<u8>,
    mask: &CodeMask,
    block: LibraryBlock,
    import: ImportStatement,
    locked: LockedPackage,
    status: PackageStatus,
) -> Seq<DiagnosticView> {
    let span = import_span(bytes, mask, block, import.name@);
    match status {
        PackageStatus::NotInstalled => seq![
            laplace_error(bytes, span, not_installed_message(locked.name@, locked.version@)),
        ],
        PackageStatus::Broken(message) => seq![laplace_error(bytes, span, message@)],
        PackageStatus::Loaded => seq![],
    }
}

/// What there is to say about an import.
pub open spec fn import_views(
    bytes: Seq<u8>,
    mask: &CodeMask,
    block: LibraryBlock,
    import: ImportStatement,
    lock: Lockfile,
    status: PackageStatus,
) -> Seq<DiagnosticView> {
    match locked_index(lock.packages@, import.name@, 0) {
        None => seq![
            laplace_error(
                bytes,
                import_span(bytes, mask, block, import.name@),
                unlocked_message(import.name@),
            ),
        ],
        Some(k) => pin_views(bytes, mask, block, import, lock.packages@[k].version@) + status_views(
            bytes,
            mask,
            block,
            import,
            lock.packages@[k],
            status,
        ),
    }
}

/// The package that an import asks for is not at hand.
pub open spec fn is_unavailable(
    import: ImportStatement,
    lock: Lockfile,
    status: PackageStatus,
) -> bool {
    locked_index(lock.packages@, import.name@, 0) is None || !(status is Loaded)
}

/// What there is to say about the first `n` imports of the block.
pub open spec fn imports_views(
    bytes: Seq<u8>,
    mask: &CodeMask,
    block: LibraryBlock,
    lock: Lockfile,
    statuses: Seq<PackageStatus>,
    n: int,
) -> Seq<DiagnosticView>
    decreases n,
{
    if n <= 0 {
        seq![]
    } else {
        imports_views(bytes, mask, block, lock, statuses, n - 1) + import_views(
            bytes,
            mask,
            block,
            block.imports@[n - 1],
            lock,
            statuses[n - 1],
        )
    }
}

/// One of the first `n` imports is of `name`, and its package is not at hand.
pub open spec fn name_unavailable(
    imports: Seq<ImportStatement>,
    lock: Lockfile,
    statuses: Seq<PackageStatus>,
    n: int,
    name: Seq<char>,
) -> bool {
    exists|i: int|
        0 <= i < n && (#[trigger] imports[i]).name@ == name && is_unavailable(
            imports[i],
            lock,
            statuses[i],
        )
}

/// Append what there is to say about an import; the result says whether its
/// package is unavailable.
fn check_import(
    source: &str,
    mask: &CodeMask,
    starts: &[usize],
    block: &LibraryBlock,
    import: &ImportStatement,
    lock: &Lockfile,
    status: &PackageStatus,
    diags: &mut Vec<Diagnostic>,
) -> (r: bool)
    requires
        mask.wf(encode_utf8(source@)),
        starts@ == line_starts_of(encode_utf8(source@)),
        library_fits(encode_utf8(source@), *block),
    ensures
        r == is_unavailable(*import, *lock, *status),
        diagnostic_views(final(diags)@) == diagnostic_views(old(diags)@) + import_views(
            encode_utf8(source@),
            mask,
            *block,
            *import,
            *lock,
            *status,
        ),
{
    let ghost bytes = encode_utf8(source@);
    let ghost before = diagnostic_views(diags@);
    let name = import.name.as_str();
    let range = import_range(source, mask, block, name);
    match find_locked(lock, name) {
        None => {
            let parts = vec![
                "`",
                name,
                "` is imported but not recorded in laplace.lock -- run `laplace add ",
                name,
                "`",
            ];
            let message = join_parts(&parts);
            assert(views(parts@) =~= seq![
                "`"@,
                name@,
                "` is imported but not recorded in laplace.lock -- run `laplace add "@,
                name@,
                "`"@,
            ]);
            let found = diagnostic(source, starts, range, message);
            diags.push(found);
            assert(diagnostic_views(diags@) =~= before.push(found@));
            assert(diagnostic_views(diags@) =~= before + import_views(
                bytes,
                mask,
                *block,
                *import,
                *lock,
                *status,
            ));
            true
        },
        Some(k) => {
            let locked = &lock.packages[k];
            let version = locked.version.as_str();
            if let Some(pin) = &import.version {
                let pin = pin.as_str();
                if !str_eq(pin, version) {
                    let parts = vec![
                        "`",
                        name,
                        "` is pinned to ",
                        pin,
                        " here, but laplace.lock has ",
                        version,
                        " -- run `laplace update ",
                        name,
                        "`",
                    ];
                    let message = join_parts(&parts);
                    assert(views(parts@) =~= seq![
                        "`"@,
                        name@,
                        "` is pinned to "@,
                        pin@,
                        " here, but laplace.lock has "@,
                        version@,
                        " -- run `laplace update "@,
                        name@,
                        "`"@,
                    ]);
                    let found = diagnostic(source, starts, range.start..range.end, message);
                    diags.push(found);
                    assert(diagnostic_views(diags@) =~= before.push(found@));
                }
            }
            let ghost pins = pin_views(bytes, mask, *block, *import, version@);
            assert(diagnostic_views(diags@) =~= before + pins);
            let ghost middle = diagnostic_views(diags@);
            let unavailable = match status {
                PackageStatus::NotInstalled => {
                    let parts = vec![
                        "`",
                        locked.name.as_str(),
                        "@",
                        version,
                        "` is locked but not installed -- run `laplace install`",
                    ];
                    let message = join_parts(&parts);
                    assert(views(parts@) =~= seq![
                        "`"@,
                        locked.name@,
                        "@"@,
                        version@,
                        "` is locked but not installed -- run `laplace install`"@,
                    ]);
                    let found = diagnostic(source, starts, range, message);
                    diags.push(found);
                    assert(diagnostic_views(diags@) =~= middle.push(found@));
                    true
                },
                PackageStatus::Broken(message) => {
                    let found = diagnostic(source, starts, range, message.clone());
                    diags.push(found);
                    assert(diagnostic_views(diags@) =~= middle.push(found@));
                    true
                },
                PackageStatus::Loaded => false,
            };
            assert(diagnostic_views(diags@) =~= before + (pins + status_views(
                bytes,
                mask,
                *block,
                *import,
                *locked,
                *status,
            )));
            unavailable
        },
    }
}

// ---------------------------------------------------------------------------
// Forbidden blocks
// ---------------------------------------------------------------------------

/// The words for a block that a library may not contain.
pub open spec fn forbidden_message(keyword: Seq<char>) -> Seq<char> {
    concat(
        seq![
            "a `.laplacelib` file cannot contain a `"@,
            keyword,
            "` block -- a library provides functions to a model, it is not a model itself (move this into the `.laplace` file that uses the library)"@,
        ],
    )
}

/// The keyword of a block: as many bytes as it has, from the block's start.
pub open spec fn keyword_span(block: TopLevelBlock) -> (int, int) {
    (
        block.byte_range.start as int,
        block.byte_range.start + encode_utf8(block.kind.keyword_text()).len(),
    )
}

/// The text can be cut around the keyword of every block that a library may
/// not contain.
pub open spec fn keywords_fit(bytes: Seq<u8>, blocks: Seq<TopLevelBlock>) -> bool {
    forall|k: int|
        #![trigger blocks[k]]
        0 <= k < blocks.len() && !Dialect::Library.permits(blocks[k].kind) ==> {
            &&& blocks[k].byte_range.start <= bytes.len()
            &&& span_fits(bytes, keyword_span(blocks[k]))
        }
}

/// The blocks that a library may not contain.
pub open spec fn forbidden_views(bytes: Seq<u8>, blocks: Seq<TopLevelBlock>) -> Seq<DiagnosticView>
    decreases blocks.len(),
{
    if blocks.len() == 0 {
        seq![]
    } else {
        let before = forbidden_views(bytes, blocks.drop_last());
        let block = blocks.last();
        if Dialect::Library.permits(block.kind) {
            before
        } else {
            before.push(
                laplace_error(
                    bytes,
                    keyword_span(block),
                    forbidden_message(block.kind.keyword_text()),
                ),
            )
        }
    }
}

/// A diagnostic for every block that a library may not contain, at its
/// keyword.
pub fn forbidden_block_diagnostics(
    source: &str,
    starts: &[usize],
    blocks: &Vec<TopLevelBlock>,
) -> (r: Vec<Diagnostic>)
    requires
        starts@ == line_starts_of(encode_utf8(source@)),
        keywords_fit(encode_utf8(source@), blocks@),
    ensures
        diagnostic_views(r@) == forbidden_views(encode_utf8(source@), blocks@),
{
    let ghost bytes = encode_utf8(source@);
    let length = source.as_bytes().len();
    let mut out: Vec<Diagnostic> = Vec::new();
    let mut k: usize = 0;
    assert(diagnostic_views(out@) =~= Seq::<DiagnosticView>::empty());
    assert(blocks@.subrange(0, 0) =~= Seq::<TopLevelBlock>::empty());
    while k < blocks.len()
        invariant
            bytes == encode_utf8(source@),
            length == bytes.len(),
            starts@ == line_starts_of(bytes),
            keywords_fit(bytes, blocks@),
            k <= blocks@.len(),
            diagnostic_views(out@) == forbidden_views(bytes, blocks@.subrange(0, k as int)),
        decreases blocks.len() - k,
    {
        let block = &blocks[k];
        proof {
            let next = blocks@.subrange(0, k + 1);
            assert(next.drop_last() =~= blocks@.subrange(0, k as int));
            assert(next.last() == blocks@[k as int]);
        }
        if !Dialect::Library.allows_block(block.kind) {
            let keyword = block.kind.keyword();
            let parts = vec![
                "a `.laplacelib` file cannot contain a `",
                keyword,
                "` block -- a library provides functions to a model, it is not a model itself (move this into the `.laplace` file that uses the library)",
            ];
            let message = join_parts(&parts);
            assert(views(parts@) =~= seq![
                "a `.laplacelib` file cannot contain a `"@,
                keyword@,
                "` block -- a library provides functions to a model, it is not a model itself (move this into the `.laplace` file that uses the library)"@,
            ]);
            let start = block.byte_range.start;
            let size = keyword.as_bytes().len();
            // Past the end of the text every end is shown at the end.
            let end = if size <= length - start {
                start + size
            } else {
                length
            };
            let found = diagnostic(source, starts, start..end, message);
            let ghost before = diagnostic_views(out@);
            out.push(found);
            assert(diagnostic_views(out@) =~= before.push(found@));
        }
        k += 1;
    }
    assert(blocks@.subrange(0, k as int) =~= blocks@);
    out
}

// ---------------------------------------------------------------------------
// The compiler's objections
// ---------------------------------------------------------------------------

/// The first import of `name`, from the `k`-th on.
pub open spec fn import_index(imports: Seq<ImportStatement>, name: Seq<char>, k: int) -> Option<int>
    decreases imports.len() - k,
{
    if k < 0 || k >= imports.len() {
        None
    } else if imports[k].name@ == name {
        Some(k)
    } else {
        import_index(imports, name, k + 1)
    }
}

/// Where the import of `package` stands, if it is imported.
pub open spec fn import_of(
    bytes: Seq<u8>,
    mask: &CodeMask,
    block: Option<LibraryBlock>,
    package: Seq<char>,
) -> Option<(int, int)> {
    match block {
        Some(block) => match import_index(block.imports@, package, 0) {
            Some(_) => Some(import_span(bytes, mask, block, package)),
            None => None,
        },
        None => None,
    }
}

/// Where `package` is imported in `source`.
pub fn find_import(
    source: &str,
    mask: &CodeMask,
    block: &Option<LibraryBlock>,
    package: &str,
) -> (r: Option<Range<usize>>)
    requires
        mask.wf(encode_utf8(source@)),
        *block matches Some(b) ==> library_fits(encode_utf8(source@), b),
    ensures
        match r {
            Some(range) => {
                &&& import_of(encode_utf8(source@), mask, *block, package@) == Some(span_of(range))
                &&& span_fits(encode_utf8(source@), span_of(range))
            },
            None => import_of(encode_utf8(source@), mask, *block, package@) is None,
        },
{
    match block {
        Some(library) => {
            let mut k: usize = 0;
            while k < library.imports.len()
                invariant
                    *block == Some(*library),
                    k <= library.imports@.len(),
                    mask.wf(encode_utf8(source@)),
                    library_fits(encode_utf8(source@), *library),
                    import_index(library.imports@, package@, 0) == import_index(
                        library.imports@,
                        package@,
                        k as int,
                    ),
                decreases library.imports.len() - k,
            {
                if str_eq(library.imports[k].name.as_str(), package) {
                    return Some(import_range(source, mask, library, package));
                }
                k += 1;
            }
            None
        },
        None => None,
    }
}

/// The first call of `package::func`, from the `k`-th on.
pub open spec fn call_index(
    calls: Seq<QualifiedCall>,
    package: Seq<char>,
    func: Seq<char>,
    k: int,
) -> Option<int>
    decreases calls.len() - k,
{
    if k < 0 || k >= calls.len() {
        None
    } else if calls[k].package@ == package && calls[k].func@ == func {
        Some(k)
    } else {
        call_index(calls, package, func, k + 1)
    }
}

/// Where `package::func` is called, or else the start of the text.
pub open spec fn call_span(
    calls: Seq<QualifiedCall>,
    package: Seq<char>,
    func: Seq<char>,
) -> (int, int) {
    match call_index(calls, package, func, 0) {
        Some(k) => span_of(calls[k].range),
        None => (0, 0),
    }
}

fn find_call(calls: &Vec<QualifiedCall>, package: &str, func: &str, Ghost(bytes): Ghost<Seq<u8>>) -> (r:
    Range<usize>)
    requires
        valid_utf8(bytes),
        calls_fit(bytes, calls@),
    ensures
        span_of(r) == call_span(calls@, package@, func@),
        span_fits(bytes, span_of(r)),
{
    let mut k: usize = 0;
    while k < calls.len()
        invariant
            k <= calls@.len(),
            calls_fit(bytes, calls@),
            call_index(calls@, package@, func@, 0) == call_index(
                calls@,
                package@,
                func@,
                k as int,
            ),
        decreases calls.len() - k,
    {
        if str_eq(calls[k].package.as_str(), package) && str_eq(calls[k].func.as_str(), func) {
            assert(token_fits(bytes, library_tokens(calls@)[k as int]));
            return calls[k].range.start..calls[k].range.end;
        }
        k += 1;
    }
    proof {
        lemma_boundary(bytes, 0);
    }
    0..0
}

/// The span, or else the start of the text.
pub open spec fn or_start(span: Option<(int, int)>) -> (int, int) {
    match span {
        Some(span) => span,
        None => (0, 0),
    }
}

/// Where an objection of the compiler is shown. A problem in a package's own
/// source is shown at the import that pulled the package in; a call that does
/// not resolve where it stands; a collision of two packages at whichever of
/// their imports comes first in the file.
pub open spec fn codegen_error_span(
    bytes: Seq<u8>,
    mask: &CodeMask,
    block: Option<LibraryBlock>,
    calls: Seq<QualifiedCall>,
    error: CodegenError,
) -> (int, int) {
    match error {
        CodegenError::MissingImport { package } => or_start(
            import_of(bytes, mask, block, package@),
        ),
        CodegenError::ExportedFunctionMissing { package } => or_start(
            import_of(bytes, mask, block, package@),
        ),
        CodegenError::MissingDependency { package } => or_start(
            import_of(bytes, mask, block, package@),
        ),
        CodegenError::UndeclaredPackageReference { in_package } => or_start(
            import_of(bytes, mask, block, in_package@),
        ),
        CodegenError::FunctionNotExported { package, func } => call_span(calls, package@, func@),
        CodegenError::UnknownPackageReference { package, func } => call_span(
            calls,
            package@,
            func@,
        ),
        CodegenError::DuplicateMangledName { first_package, second_package } => collision_span(
            bytes,
            mask,
            block,
            first_package@,
            second_package@,
        ),
        CodegenError::PrivateFunctionCollision { first_package, second_package } => collision_span(
            bytes,
            mask,
            block,
            first_package@,
            second_package@,
        ),
        CodegenError::FunctionFileCollision { first_package, second_package } => collision_span(
            bytes,
            mask,
            block,
            first_package@,
            second_package@,
        ),
    }
}

/// Where a collision of two packages is shown: neither is more at fault than
/// the other, so at whichever of their imports comes first in the file.
pub open spec fn collision_span(
    bytes: Seq<u8>,
    mask: &CodeMask,
    block: Option<LibraryBlock>,
    first: Seq<char>,
    second: Seq<char>,
) -> (int, int) {
    match (import_of(bytes, mask, block, first), import_of(bytes, mask, block, second)) {
        (Some(a), Some(b)) => if b.0 < a.0 {
            b
        } else {
            a
        },
        (Some(a), None) => a,
        (None, b) => or_start(b),
    }
}

fn collision_range(
    source: &str,
    mask: &CodeMask,
    block: &Option<LibraryBlock>,
    first: &str,
    second: &str,
) -> (r: Range<usize>)
    requires
        mask.wf(encode_utf8(source@)),
        *block matches Some(b) ==> library_fits(encode_utf8(source@), b),
    ensures
        span_of(r) == collision_span(encode_utf8(source@), mask, *block, first@, second@),
        span_fits(encode_utf8(source@), span_of(r)),
{
    match find_import(source, mask, block, first) {
        Some(a) => match find_import(source, mask, block, second) {
            Some(b) => if b.start < a.start {
                b
            } else {
                a
            },
            None => a,
        },
        None => import_or_start(source, mask, block, second),
    }
}

fn import_or_start(
    source: &str,
    mask: &CodeMask,
    block: &Option<LibraryBlock>,
    package: &str,
) -> (r: Range<usize>)
    requires
        mask.wf(encode_utf8(source@)),
        *block matches Some(b) ==> library_fits(encode_utf8(source@), b),
    ensures
        span_of(r) == or_start(import_of(encode_utf8(source@), mask, *block, package@)),
        span_fits(encode_utf8(source@), span_of(r)),
{
    match find_import(source, mask, block, package) {
        Some(range) => range,
        None => {
            proof {
                encode_utf8_valid_utf8(source@);
                lemma_boundary(encode_utf8(source@), 0);
            }
            0..0
        },
    }
}

/// Where the objection `error` is shown in `source`.
pub fn codegen_error_range(
    source: &str,
    mask: &CodeMask,
    block: &Option<LibraryBlock>,
    calls: &Vec<QualifiedCall>,
    error: &CodegenError,
) -> (r: Range<usize>)
    requires
        mask.wf(encode_utf8(source@)),
        *block matches Some(b) ==> library_fits(encode_utf8(source@), b),
        calls_fit(encode_utf8(source@), calls@),
    ensures
        span_of(r) == codegen_error_span(encode_utf8(source@), mask, *block, calls@, *error),
        span_fits(encode_utf8(source@), span_of(r)),
{
    proof {
        encode_utf8_valid_utf8(source@);
    }
    match error {
        CodegenError::MissingImport { package } => import_or_start(
            source,
            mask,
            block,
            package.as_str(),
        ),
        CodegenError::ExportedFunctionMissing { package } => import_or_start(
            source,
            mask,
            block,
            package.as_str(),
        ),
        CodegenError::MissingDependency { package } => import_or_start(
            source,
            mask,
            block,
            package.as_str(),
        ),
        CodegenError::UndeclaredPackageReference { in_package } => import_or_start(
            source,
            mask,
            block,
            in_package.as_str(),
        ),
        CodegenError::FunctionNotExported { package, func } => find_call(
            calls,
            package.as_str(),
            func.as_str(),
            Ghost(encode_utf8(source@)),
        ),
        CodegenError::UnknownPackageReference { package, func } => find_call(
            calls,
            package.as_str(),
            func.as_str(),
            Ghost(encode_utf8(source@)),
        ),
        CodegenError::DuplicateMangledName { first_package, second_package } => collision_range(
            source,
            mask,
            block,
            first_package.as_str(),
            second_package.as_str(),
        ),
        CodegenError::PrivateFunctionCollision { first_package, second_package } => collision_range(
            source,
            mask,
            block,
            first_package.as_str(),
            second_package.as_str(),
        ),
        CodegenError::FunctionFileCollision { first_package, second_package } => collision_range(
            source,
            mask,
            block,
            first_package.as_str(),
            second_package.as_str(),
        ),
    }
}

// ---------------------------------------------------------------------------
// All of them
// ---------------------------------------------------------------------------

/// The imports of a file.
pub open spec fn imports_of(block: Option<LibraryBlock>) -> Seq<ImportStatement> {
    match block {
        Some(block) => block.imports@,
        None => seq![],
    }
}

/// The objection says no more than what was said about the imports: the
/// package that it misses was reported as unavailable.
pub open spec fn already_reported(
    block: Option<LibraryBlock>,
    lock: Lockfile,
    statuses: Seq<PackageStatus>,
    error: CodegenError,
) -> bool {
    match error {
        CodegenError::MissingImport { package } => name_unavailable(
            imports_of(block),
            lock,
            statuses,
            imports_of(block).len() as int,
            package@,
        ),
        _ => false,
    }
}

/// What there is to say about the compiler's objection.
pub open spec fn failure_views(
    bytes: Seq<u8>,
    mask: &CodeMask,
    block: Option<LibraryBlock>,
    calls: Seq<QualifiedCall>,
    lock: Lockfile,
    statuses: Seq<PackageStatus>,
    failure: Option<CodegenFailure>,
) -> Seq<DiagnosticView> {
    match failure {
        Some(failure) => if already_reported(block, lock, statuses, failure.error) {
            seq![]
        } else {
            seq![
                laplace_error(
                    bytes,
                    codegen_error_span(bytes, mask, block, calls, failure.error),
                    failure.message@,
                ),
            ]
        },
        None => seq![],
    }
}

/// What there is to say about the imports of a file.
pub open spec fn all_imports_views(
    bytes: Seq<u8>,
    mask: &CodeMask,
    block: Option<LibraryBlock>,
    lock: Lockfile,
    statuses: Seq<PackageStatus>,
) -> Seq<DiagnosticView> {
    match block {
        Some(block) => imports_views(bytes, mask, block, lock, statuses, block.imports@.len() as int),
        None => seq![],
    }
}

/// What there is to say about the blocks of a file.
pub open spec fn block_views(
    bytes: Seq<u8>,
    dialect: Dialect,
    blocks: Seq<TopLevelBlock>,
) -> Seq<DiagnosticView> {
    if dialect == Dialect::Library {
        forbidden_views(bytes, blocks)
    } else {
        seq![]
    }
}

/// All that there is to say about a file: the blocks that it may not contain,
/// then its imports in order, then the compiler's objection. If the
/// `library { }` block was rejected, that is said in their place.
pub open spec fn all_views(
    bytes: Seq<u8>,
    dialect: Dialect,
    compilation: Compilation,
    lock: Lockfile,
    statuses: Seq<PackageStatus>,
) -> Seq<DiagnosticView> {
    let mask = &compilation.mask;
    let forbidden = block_views(bytes, dialect, compilation.blocks@);
    match compilation.library_block {
        Err(message) => forbidden.push(laplace_error(bytes, (0, 0), message@)),
        Ok(block) => forbidden + all_imports_views(bytes, mask, block, lock, statuses) + failure_views(
            bytes,
            mask,
            block,
            compilation.calls@,
            lock,
            statuses,
            compilation.failure,
        ),
    }
}

/// What the compiler has found lies in the text, which can be cut around it.
pub open spec fn compilation_fits(
    bytes: Seq<u8>,
    dialect: Dialect,
    compilation: Compilation,
) -> bool {
    &&& compilation.mask.wf(bytes)
    &&& dialect == Dialect::Library ==> keywords_fit(bytes, compilation.blocks@)
    &&& compilation.library_block matches Ok(Some(block)) ==> library_fits(bytes, block)
    &&& compilation.failure is Some ==> calls_fit(bytes, compilation.calls@)
}

/// The diagnostics of a file. `statuses` says, for each import, what became
/// of the package that the lockfile records under its name; for an import
/// that is not locked it does not matter.
pub fn compute_diagnostics(
    source: &str,
    dialect: Dialect,
    compilation: &Compilation,
    lock: &Lockfile,
    statuses: &Vec<PackageStatus>,
) -> (r: Vec<Diagnostic>)
    requires
        compilation_fits(encode_utf8(source@), dialect, *compilation),
        compilation.library_block matches Ok(block) ==> statuses@.len() == imports_of(block).len(),
    ensures
        diagnostic_views(r@) == all_views(
            encode_utf8(source@),
            dialect,
            *compilation,
            *lock,
            statuses@,
        ),
{
    let ghost bytes = encode_utf8(source@);
    let mask = &compilation.mask;
    let starts_vec = line_starts(source);
    let starts = starts_vec.as_slice();
    proof {
        encode_utf8_valid_utf8(source@);
        lemma_boundary(bytes, 0);
    }
    let mut diags: Vec<Diagnostic> = if dialect.is_library() {
        forbidden_block_diagnostics(source, starts, &compilation.blocks)
    } else {
        Vec::new()
    };
    let ghost forbidden = block_views(bytes, dialect, compilation.blocks@);
    assert(diagnostic_views(diags@) =~= forbidden);
    match &compilation.library_block {
        Err(message) => {
            let found = diagnostic(source, starts, 0..0, message.clone());
            diags.push(found);
            assert(diagnostic_views(diags@) =~= forbidden.push(found@));
            diags
        },
        Ok(library_block) => {
            let mut unavailable: Vec<String> = Vec::new();
            if let Some(block) = library_block {
                let ghost imports = block.imports@;
                let mut k: usize = 0;
                assert(forbidden + imports_views(bytes, mask, *block, *lock, statuses@, 0) =~= forbidden);
                while k < block.imports.len()
                    invariant
                        bytes == encode_utf8(source@),
                        starts@ == line_starts_of(bytes),
                        mask.wf(bytes),
                        library_fits(bytes, *block),
                        imports == block.imports@,
                        statuses@.len() == imports.len(),
                        k <= imports.len(),
                        diagnostic_views(diags@) == forbidden + imports_views(
                            bytes,
                            mask,
                            *block,
                            *lock,
                            statuses@,
                            k as int,
                        ),
                        forall|name: Seq<char>| #[trigger]
                            texts(unavailable@).contains(name) <==> name_unavailable(
                                imports,
                                *lock,
                                statuses@,
                                k as int,
                                name,
                            ),
                    decreases block.imports.len() - k,
                {
                    let ghost names = texts(unavailable@);
                    let ghost said = diagnostic_views(diags@);
                    let missing = check_import(
                        source,
                        mask,
                        starts,
                        block,
                        &block.imports[k],
                        lock,
                        &statuses[k],
                        &mut diags,
                    );
                    if missing {
                        unavailable.push(block.imports[k].name.clone());
                    }
                    proof {
                        let name_k = imports[k as int].name@;
                        assert(diagnostic_views(diags@) =~= forbidden + imports_views(
                            bytes,
                            mask,
                            *block,
                            *lock,
                            statuses@,
                            k + 1,
                        ));
                        if missing {
                            assert(texts(unavailable@) =~= names.push(name_k));
                        }
                        lemma_unavailable_step(
                            names,
                            texts(unavailable@),
                            imports,
                            *lock,
                            statuses@,
                            k as int,
                        );
                    }
                    k += 1;
                }
            } else {
                assert(texts(unavailable@) =~= Seq::<Seq<char>>::empty());
            }
            let ghost middle = forbidden + all_imports_views(
                bytes,
                mask,
                *library_block,
                *lock,
                statuses@,
            );
            assert(diagnostic_views(diags@) =~= middle);
            if let Some(failure) = &compilation.failure {
                let reported = match &failure.error {
                    CodegenError::MissingImport { package } => contains_name(
                        &unavailable,
                        package.as_str(),
                    ),
                    _ => false,
                };
                assert(reported == already_reported(
                    *library_block,
                    *lock,
                    statuses@,
                    failure.error,
                ));
                if !reported {
                    let range = codegen_error_range(
                        source,
                        mask,
                        library_block,
                        &compilation.calls,
                        &failure.error,
                    );
                    let found = diagnostic(source, starts, range, failure.message.clone());
                    diags.push(found);
                    assert(diagnostic_views(diags@) =~= middle.push(found@));
                }
            }
            assert(diagnostic_views(diags@) =~= middle + failure_views(
                bytes,
                mask,
                *library_block,
                compilation.calls@,
                *lock,
                statuses@,
                compilation.failure,
            ));
            diags
        },
    }
}

proof fn lemma_unavailable_step(
    before: Seq<Seq<char>>,
    after: Seq<Seq<char>>,
    imports: Seq<ImportStatement>,
    lock: Lockfile,
    statuses: Seq<PackageStatus>,
    k: int,
)
    requires
        0 <= k < imports.len(),
        forall|name: Seq<char>| #[trigger]
            before.contains(name) <==> name_unavailable(imports, lock, statuses, k, name),
        after == (if is_unavailable(imports[k], lock, statuses[k]) {
            before.push(imports[k].name@)
        } else {
            before
        }),
    ensures
        forall|name: Seq<char>| #[trigger]
            after.contains(name) <==> name_unavailable(imports, lock, statuses, k + 1, name),
{
    assert forall|name: Seq<char>| #[trigger] after.contains(name) <==> name_unavailable(
        imports,
        lock,
        statuses,
        k + 1,
        name,
    ) by {
        if after.contains(name) {
            let j = after.index_of(name);
            if j < before.len() {
                assert(before[j] == name);
                assert(before.contains(name));
                let i = choose|i: int|
                    0 <= i < k && (#[trigger] imports[i]).name@ == name && is_unavailable(
                        imports[i],
                        lock,
                        statuses[i],
                    );
                assert(imports[i].name@ == name);
            } else {
                assert(imports[k].name@ == name);
            }
        }
        if name_unavailable(imports, lock, statuses, k + 1, name) {
            let i = choose|i: int|
                0 <= i < k + 1 && (#[trigger] imports[i]).name@ == name && is_unavailable(
                    imports[i],
                    lock,
                    statuses[i],
                );
            if i < k {
                assert(name_unavailable(imports, lock, statuses, k, name));
                assert(before.contains(name));
                let j = before.index_of(name);
                assert(after[j] == name);
            } else {
                assert(after[before.len() as int] == name);
            }
        }
    }
}

/// Whether what the compiler has found lies in `source`, which can be cut
/// around it.
pub fn compilation_is_usable(source: &str, dialect: Dialect, compilation: &Compilation) -> (r: bool)
    ensures
        r == compilation_fits(encode_utf8(source@), dialect, *compilation),
{
    if !compilation.mask.belongs_to(source) {
        return false;
    }
    if dialect.is_library() && !keywords_are_usable(source, &compilation.blocks) {
        return false;
    }
    if let Ok(Some(block)) = &compilation.library_block {
        if !library_is_usable(source, block) {
            return false;
        }
    }
    compilation.failure.is_none() || calls_are_usable(source, &compilation.calls)
}

/// Whether the `library { }` block lies in `source`, which can be cut at its
/// ends.
pub fn library_is_usable(source: &str, block: &LibraryBlock) -> (r: bool)
    ensures
        r == library_fits(encode_utf8(source@), *block),
{
    let bytes = source.as_bytes();
    block.byte_range.start <= block.byte_range.end && is_boundary(bytes, block.byte_range.start)
        && is_boundary(bytes, block.byte_range.end)
}

fn keywords_are_usable(source: &str, blocks: &Vec<TopLevelBlock>) -> (r: bool)
    ensures
        r == keywords_fit(encode_utf8(source@), blocks@),
{
    let bytes = source.as_bytes();
    let length = bytes.len();
    proof {
        encode_utf8_valid_utf8(source@);
        lemma_boundary(bytes@, length as int);
    }
    let mut k: usize = 0;
    while k < blocks.len()
        invariant
            bytes@ == encode_utf8(source@),
            length == bytes@.len(),
            k <= blocks@.len(),
            forall|j: int|
                #![trigger blocks@[j]]
                0 <= j < k && !Dialect::Library.permits(blocks@[j].kind) ==> {
                    &&& blocks@[j].byte_range.start <= bytes@.len()
                    &&& span_fits(bytes@, keyword_span(blocks@[j]))
                },
        decreases blocks.len() - k,
    {
        let block = &blocks[k];
        assert(blocks@[k as int] == *block);
        if !Dialect::Library.allows_block(block.kind) {
            let start = block.byte_range.start;
            let size = block.kind.keyword().as_bytes().len();
            if start > length || !is_boundary(bytes, start) {
                return false;
            }
            if size < length - start && !is_boundary(bytes, start + size) {
                return false;
            }
        }
        k += 1;
    }
    true
}

fn statuses_are_complete(compilation: &Compilation, statuses: &Vec<PackageStatus>) -> (r: bool)
    ensures
        r == (compilation.library_block matches Ok(block) ==> statuses@.len() == imports_of(
            block,
        ).len()),
{
    match &compilation.library_block {
        Ok(Some(block)) => statuses.len() == block.imports.len(),
        Ok(None) => statuses.len() == 0,
        Err(_) => true,
    }
}

// ---------------------------------------------------------------------------
// Without a lockfile
// ---------------------------------------------------------------------------

/// The objection is that a package is missing which the file imports.
pub open spec fn misses_an_import(block: Option<LibraryBlock>, error: CodegenError) -> bool {
    match error {
        CodegenError::MissingImport { package } => import_index(
            imports_of(block),
            package@,
            0,
        ) is Some,
        _ => false,
    }
}

/// What there is to say about a file that belongs to no project: the blocks
/// that it may not contain, then the compiler's objection. There is nothing to
/// resolve its imports against, so nothing is said of them, nor that their
/// packages are missing.
pub open spec fn unresolved_views(
    bytes: Seq<u8>,
    dialect: Dialect,
    compilation: Compilation,
) -> Seq<DiagnosticView> {
    let mask = &compilation.mask;
    let forbidden = block_views(bytes, dialect, compilation.blocks@);
    match compilation.library_block {
        Err(message) => forbidden.push(laplace_error(bytes, (0, 0), message@)),
        Ok(block) => match compilation.failure {
            Some(failure) => if misses_an_import(block, failure.error) {
                forbidden
            } else {
                forbidden.push(
                    laplace_error(
                        bytes,
                        codegen_error_span(bytes, mask, block, compilation.calls@, failure.error),
                        failure.message@,
                    ),
                )
            },
            None => forbidden,
        },
    }
}

/// The diagnostics of a file for which there is no lockfile.
pub fn unresolved_diagnostics(source: &str, dialect: Dialect, compilation: &Compilation) -> (r: Vec<
    Diagnostic,
>)
    requires
        compilation_fits(encode_utf8(source@), dialect, *compilation),
    ensures
        diagnostic_views(r@) == unresolved_views(encode_utf8(source@), dialect, *compilation),
{
    let ghost bytes = encode_utf8(source@);
    let mask = &compilation.mask;
    let starts_vec = line_starts(source);
    let starts = starts_vec.as_slice();
    proof {
        encode_utf8_valid_utf8(source@);
        lemma_boundary(bytes, 0);
    }
    let mut diags: Vec<Diagnostic> = if dialect.is_library() {
        forbidden_block_diagnostics(source, starts, &compilation.blocks)
    } else {
        Vec::new()
    };
    let ghost forbidden = block_views(bytes, dialect, compilation.blocks@);
    assert(diagnostic_views(diags@) =~= forbidden);
    match &compilation.library_block {
        Err(message) => {
            let found = diagnostic(source, starts, 0..0, message.clone());
            diags.push(found);
            assert(diagnostic_views(diags@) =~= forbidden.push(found@));
        },
        Ok(block) => {
            if let Some(failure) = &compilation.failure {
                let missing = match &failure.error {
                    CodegenError::MissingImport { package } => find_import(
                        source,
                        mask,
                        block,
                        package.as_str(),
                    ).is_some(),
                    _ => false,
                };
                assert(missing == misses_an_import(*block, failure.error));
                if !missing {
                    let range = codegen_error_range(
                        source,
                        mask,
                        block,
                        &compilation.calls,
                        &failure.error,
                    );
                    let found = diagnostic(source, starts, range, failure.message.clone());
                    diags.push(found);
                    assert(diagnostic_views(diags@) =~= forbidden.push(found@));
                }
            }
        },
    }
    diags
}

// ---------------------------------------------------------------------------
// Documents
// ---------------------------------------------------------------------------

/// What is handed in is complete and fits the document whose file is at
/// `path`. Without a lockfile no word on the imports is needed.
pub open spec fn document_fits(
    path: Option<Seq<char>>,
    bytes: Seq<u8>,
    compilation: Compilation,
    lock: Option<Lockfile>,
    statuses: Seq<PackageStatus>,
) -> bool {
    path matches Some(path) ==> {
        &&& compilation_fits(bytes, dialect_of_path(path), compilation)
        &&& lock is Some ==> (compilation.library_block matches Ok(block) ==> statuses.len()
            == imports_of(block).len())
    }
}

/// The diagnostics of the document at `uri`: none for a document that is not
/// a file, which has no project; otherwise those of its dialect. `lock` is the
/// project's lockfile, if there is one.
pub fn compute_diagnostics_for_uri(
    uri: &str,
    source: &str,
    compilation: &Compilation,
    lock: &Option<Lockfile>,
    statuses: &Vec<PackageStatus>,
) -> (r: Vec<Diagnostic>)
    requires
        document_fits(
            uri_file_path(uri@),
            encode_utf8(source@),
            *compilation,
            *lock,
            statuses@,
        ),
    ensures
        diagnostic_views(r@) == document_views(
            uri_file_path(uri@),
            encode_utf8(source@),
            *compilation,
            *lock,
            statuses@,
        ),
{
    compute_diagnostics_for_path(&uri_to_file_path(uri), source, compilation, lock, statuses)
}

/// The diagnostics of the document at `uri`; `None` if what is handed in is
/// not complete or does not fit the document.
pub fn checked_diagnostics_for_uri(
    uri: &str,
    source: &str,
    compilation: &Compilation,
    lock: &Option<Lockfile>,
    statuses: &Vec<PackageStatus>,
) -> (r: Option<Vec<Diagnostic>>)
    ensures
        r is Some <==> document_fits(
            uri_file_path(uri@),
            encode_utf8(source@),
            *compilation,
            *lock,
            statuses@,
        ),
        r matches Some(diags) ==> diagnostic_views(diags@) == document_views(
            uri_file_path(uri@),
            encode_utf8(source@),
            *compilation,
            *lock,
            statuses@,
        ),
{
    if let Some(path) = uri_to_file_path(uri) {
        let dialect = Dialect::for_path(path.as_str());
        if !compilation_is_usable(source, dialect, compilation) {
            return None;
        }
        if lock.is_some() && !statuses_are_complete(compilation, statuses) {
            return None;
        }
    }
    Some(compute_diagnostics_for_uri(uri, source, compilation, lock, statuses))
}

/// All that there is to say about the document whose file is at `path`.
pub open spec fn document_views(
    path: Option<Seq<char>>,
    bytes: Seq<u8>,
    compilation: Compilation,
    lock: Option<Lockfile>,
    statuses: Seq<PackageStatus>,
) -> Seq<DiagnosticView> {
    match path {
        Some(path) => match lock {
            Some(lock) => all_views(bytes, dialect_of_path(path), compilation, lock, statuses),
            None => unresolved_views(bytes, dialect_of_path(path), compilation),
        },
        None => seq![],
    }
}

/// The diagnostics of the document whose file is at `path`.
pub fn compute_diagnostics_for_path(
    path: &Option<String>,
    source: &str,
    compilation: &Compilation,
    lock: &Option<Lockfile>,
    statuses: &Vec<PackageStatus>,
) -> (r: Vec<Diagnostic>)
    requires
        document_fits(string_view(*path), encode_utf8(source@), *compilation, *lock, statuses@),
    ensures
        diagnostic_views(r@) == document_views(
            string_view(*path),
            encode_utf8(source@),
            *compilation,
            *lock,
            statuses@,
        ),
{
    match path {
        Some(path) => {
            let dialect = Dialect::for_path(path.as_str());
            match lock {
                Some(lock) => compute_diagnostics(source, dialect, compilation, lock, statuses),
                None => unresolved_diagnostics(source, dialect, compilation),
            }
        },
        None => {
            let none: Vec<Diagnostic> = Vec::new();
            assert(diagnostic_views(none@) =~= Seq::<DiagnosticView>::empty());
            none
        },
    }
}

// ---------------------------------------------------------------------------
// Laws
// ---------------------------------------------------------------------------

/// Nothing is wrong with an import: it is locked, at the version that it is
/// pinned to if it is pinned, and its package was loaded.
pub open spec fn import_is_clean(
    import: ImportStatement,
    lock: Lockfile,
    status: PackageStatus,
) -> bool {
    &&& status is Loaded
    &&& locked_index(lock.packages@, import.name@, 0) matches Some(k) && (import.version matches Some(
        pin,
    ) ==> pin@ == lock.packages@[k].version@)
}

/// Something is said about an import exactly if something is wrong with it.
pub proof fn law_import_is_reported(
    bytes: Seq<u8>,
    mask: &CodeMask,
    block: LibraryBlock,
    import: ImportStatement,
    lock: Lockfile,
    status: PackageStatus,
)
    ensures
        import_views(bytes, mask, block, import, lock, status).len() == 0 <==> import_is_clean(
            import,
            lock,
            status,
        ),
        is_unavailable(import, lock, status) ==> import_views(
            bytes,
            mask,
            block,
            import,
            lock,
            status,
        ).len() > 0,
{
}

proof fn lemma_clean_imports(
    bytes: Seq<u8>,
    mask: &CodeMask,
    block: LibraryBlock,
    lock: Lockfile,
    statuses: Seq<PackageStatus>,
    n: int,
)
    requires
        0 <= n <= block.imports@.len(),
    ensures
        imports_views(bytes, mask, block, lock, statuses, n).len() == 0 <==> forall|i: int|
            0 <= i < n ==> import_is_clean(#[trigger] block.imports@[i], lock, statuses[i]),
    decreases n,
{
    if n > 0 {
        lemma_clean_imports(bytes, mask, block, lock, statuses, n - 1);
        law_import_is_reported(bytes, mask, block, block.imports@[n - 1], lock, statuses[n - 1]);
        if forall|i: int|
            0 <= i < n ==> import_is_clean(#[trigger] block.imports@[i], lock, statuses[i]) {
            assert(import_is_clean(block.imports@[n - 1], lock, statuses[n - 1]));
        }
    }
}

/// A file is clean exactly if it contains no forbidden block, all of its
/// imports are clean and the compiler has no objection: nothing else is ever
/// flagged, and none of these goes unflagged.
pub proof fn law_clean_file_is_silent(
    bytes: Seq<u8>,
    dialect: Dialect,
    compilation: Compilation,
    lock: Lockfile,
    statuses: Seq<PackageStatus>,
)
    ensures
        all_views(bytes, dialect, compilation, lock, statuses).len() == 0 <==> {
            &&& forall|k: int|
                0 <= k < compilation.blocks@.len() ==> dialect.permits(
                    (#[trigger] compilation.blocks@[k]).kind,
                )
            &&& compilation.library_block matches Ok(block)
            &&& forall|i: int|
                0 <= i < imports_of(block).len() ==> import_is_clean(
                    #[trigger] imports_of(block)[i],
                    lock,
                    statuses[i],
                )
            &&& compilation.failure is None
        },
{
    law_forbidden_blocks_are_reported(bytes, compilation.blocks@);
    let mask = &compilation.mask;
    let blocks = compilation.blocks@;
    if dialect == Dialect::Library {
        if forbidden_views(bytes, blocks).len() == 0 {
            assert forall|k: int| 0 <= k < blocks.len() implies dialect.permits(
                (#[trigger] blocks[k]).kind,
            ) by {
                if !dialect.permits(blocks[k].kind) {
                    assert(forbidden_views(bytes, blocks).contains(forbidden_view(bytes, blocks[k])));
                }
            }
        }
    }
    if let Ok(block) = compilation.library_block {
        if let Some(library) = block {
            lemma_clean_imports(bytes, mask, library, lock, statuses, library.imports@.len() as int);
            if let Some(failure) = compilation.failure {
                if already_reported(block, lock, statuses, failure.error) {
                    let name = failure.error->MissingImport_package@;
                    let i = choose|i: int|
                        0 <= i < library.imports@.len() && (#[trigger] library.imports@[i]).name@
                            == name && is_unavailable(library.imports@[i], lock, statuses[i]);
                    law_import_is_reported(bytes, mask, library, library.imports@[i], lock, statuses[i]);
                    assert(!import_is_clean(library.imports@[i], lock, statuses[i]));
                }
            }
        }
    }
}

/// What is said about a block that a library may not contain.
pub open spec fn forbidden_view(bytes: Seq<u8>, block: TopLevelBlock) -> DiagnosticView {
    laplace_error(bytes, keyword_span(block), forbidden_message(block.kind.keyword_text()))
}

/// Every forbidden block of a library is reported, not only the first, and
/// nothing is if there is none.
pub proof fn law_forbidden_blocks_are_reported(bytes: Seq<u8>, blocks: Seq<TopLevelBlock>)
    ensures
        forall|k: int|
            #![trigger blocks[k]]
            0 <= k < blocks.len() && !Dialect::Library.permits(blocks[k].kind) ==> forbidden_views(
                bytes,
                blocks,
            ).contains(forbidden_view(bytes, blocks[k])),
        (forall|k: int|
            0 <= k < blocks.len() ==> Dialect::Library.permits((#[trigger] blocks[k]).kind))
            ==> forbidden_views(bytes, blocks).len() == 0,
        forbidden_views(bytes, blocks).len() == blocks.filter(
            |b: TopLevelBlock| !Dialect::Library.permits(b.kind),
        ).len(),
    decreases blocks.len(),
{
    reveal(Seq::filter);
    if blocks.len() > 0 {
        let rest = blocks.drop_last();
        law_forbidden_blocks_are_reported(bytes, rest);
        let before = forbidden_views(bytes, rest);
        let after = forbidden_views(bytes, blocks);
        assert forall|k: int|
            #![trigger blocks[k]]
            0 <= k < blocks.len() && !Dialect::Library.permits(
                blocks[k].kind,
            ) implies after.contains(forbidden_view(bytes, blocks[k])) by {
            let view = forbidden_view(bytes, blocks[k]);
            if k < rest.len() {
                assert(rest[k] == blocks[k]);
                let j = before.index_of(view);
                assert(after[j] == view);
            } else {
                assert(after[before.len() as int] == view);
            }
        }
        if forall|k: int|
            0 <= k < blocks.len() ==> Dialect::Library.permits((#[trigger] blocks[k]).kind) {
            assert forall|k: int| 0 <= k < rest.len() implies Dialect::Library.permits(
                (#[trigger] rest[k]).kind,
            ) by {
                assert(rest[k] == blocks[k]);
            }
            assert(Dialect::Library.permits(blocks[blocks.len() - 1].kind));
        }
    }
}

/// Without a lockfile there are no false positives: a file without forbidden
/// blocks whose `library { }` block can be read is silent, whatever it
/// imports, unless the compiler objects to something else than that an
/// imported package is missing.
pub proof fn law_no_lockfile_no_false_positives(
    path: Seq<char>,
    bytes: Seq<u8>,
    compilation: Compilation,
    statuses: Seq<PackageStatus>,
)
    ensures
        document_views(Some(path), bytes, compilation, None, statuses).len() == 0 <==> {
            &&& forall|k: int|
                0 <= k < compilation.blocks@.len() ==> dialect_of_path(path).permits(
                    (#[trigger] compilation.blocks@[k]).kind,
                )
            &&& compilation.library_block matches Ok(block)
            &&& compilation.failure matches Some(failure) ==> misses_an_import(block, failure.error)
        },
{
    law_forbidden_blocks_are_reported(bytes, compilation.blocks@);
    let blocks = compilation.blocks@;
    let dialect = dialect_of_path(path);
    if dialect == Dialect::Library && forbidden_views(bytes, blocks).len() == 0 {
        assert forall|k: int| 0 <= k < blocks.len() implies dialect.permits(
            (#[trigger] blocks[k]).kind,
        ) by {
            if !dialect.permits(blocks[k].kind) {
                assert(forbidden_views(bytes, blocks).contains(forbidden_view(bytes, blocks[k])));
            }
        }
    }
}

/// A collision of two packages that are both imported is shown at one of
/// their two imports, and the other one does not come before it.
pub proof fn law_collision_is_shown_at_the_first_import(
    bytes: Seq<u8>,
    mask: &CodeMask,
    block: Option<LibraryBlock>,
    first: Seq<char>,
    second: Seq<char>,
)
    requires
        import_of(bytes, mask, block, first) is Some,
        import_of(bytes, mask, block, second) is Some,
    ensures
        ({
            let a = import_of(bytes, mask, block, first)->0;
            let b = import_of(bytes, mask, block, second)->0;
            let shown = collision_span(bytes, mask, block, first, second);
            &&& shown == a || shown == b
            &&& shown.0 <= a.0 && shown.0 <= b.0
        }),
{
}

/// A statement `import <name>` stands in the block.
pub open spec fn import_stands(
    bytes: Seq<u8>,
    mask: &CodeMask,
    block: LibraryBlock,
    name: Seq<char>,
) -> bool {
    import_statement(
        bytes,
        mask,
        block.byte_range.start as int,
        block.byte_range.end as int,
        name,
    ) is Some
}

/// The imports of two packages are told apart, even if the name of one is how
/// that of the other begins: each is shown at a place of its own.
pub proof fn law_imports_are_told_apart(
    bytes: Seq<u8>,
    mask: &CodeMask,
    block: LibraryBlock,
    first: Seq<char>,
    second: Seq<char>,
)
    requires
        is_word(encode_utf8(first)),
        is_word(encode_utf8(second)),
        first != second,
        import_stands(bytes, mask, block, first),
        import_stands(bytes, mask, block, second),
    ensures
        import_span(bytes, mask, block, first).0 != import_span(bytes, mask, block, second).0,
{
    let start = block.byte_range.start as int;
    let end = block.byte_range.end as int;
    law_import_statement(bytes, mask, start, end, first);
    law_import_statement(bytes, mask, start, end, second);
    let (i, _) = import_statement(bytes, mask, start, end, first)->0;
    let (j, _) = import_statement(bytes, mask, start, end, second)->0;
    if i == j {
        let at = gap_end(bytes, mask, i + encode_utf8("import"@).len());
        law_one_word_per_offset(bytes, mask, at, encode_utf8(first), encode_utf8(second));
        lemma_same_bytes(first, second);
    }
}

/// An import is shown where its statement is code, never inside a comment or
/// a string literal: its keyword starts the span and its name ends it, both of
/// them code.
pub proof fn law_import_is_shown_in_code(
    bytes: Seq<u8>,
    mask: &CodeMask,
    block: LibraryBlock,
    name: Seq<char>,
)
    requires
        import_stands(bytes, mask, block, name),
    ensures
        ({
            let (start, end) = import_span(bytes, mask, block, name);
            &&& word_at(bytes, mask, start, encode_utf8("import"@))
            &&& word_at(bytes, mask, end - encode_utf8(name).len(), encode_utf8(name))
        }),
{
    law_import_statement(
        bytes,
        mask,
        block.byte_range.start as int,
        block.byte_range.end as int,
        name,
    );
}

/// An import is found exactly if there is one of that name, and it is the
/// first of them.
pub proof fn law_import_index(imports: Seq<ImportStatement>, name: Seq<char>, from: int)
    requires
        0 <= from,
    ensures
        match import_index(imports, name, from) {
            Some(k) => {
                &&& from <= k < imports.len()
                &&& imports[k].name@ == name
                &&& forall|j: int| from <= j < k ==> (#[trigger] imports[j]).name@ != name
            },
            None => forall|j: int|
                from <= j < imports.len() ==> (#[trigger] imports[j]).name@ != name,
        },
    decreases imports.len() - from,
{
    if from < imports.len() {
        law_import_index(imports, name, from + 1);
    }
}

/// A span is shown from the position of its start to the position of its end;
/// what lies behind the text is shown at its end.
pub proof fn law_shown_range(bytes: Seq<u8>, start: int, end: int)
    ensures
        ({
            let n = bytes.len() as int;
            let range = shown_range(bytes, (start, end));
            &&& start <= n ==> range.start == position_at(bytes, start)
            &&& start > n ==> range.start == position_at(bytes, n)
            &&& end <= n ==> range.end == position_at(bytes, end)
            &&& end > n ==> range.end == position_at(bytes, n)
        }),
{
}

/// The lockfile records a package called `name`, and the `k`-th is the first.
pub open spec fn is_locked_as(lock: Lockfile, name: Seq<char>, k: int) -> bool {
    &&& 0 <= k < lock.packages@.len()
    &&& lock.packages@[k].name@ == name
    &&& forall|j: int| 0 <= j < k ==> (#[trigger] lock.packages@[j]).name@ != name
}

/// The lockfile records no package called `name`.
pub open spec fn is_unlocked(lock: Lockfile, name: Seq<char>) -> bool {
    forall|j: int| 0 <= j < lock.packages@.len() ==> (#[trigger] lock.packages@[j]).name@ != name
}

/// The import is pinned to another version than `version`.
pub open spec fn is_pinned_away(import: ImportStatement, version: Seq<char>) -> bool {
    import.version matches Some(pin) && pin@ != version
}

/// How many things are wrong with an import: one if it is not locked; if it
/// is, one for a pin to another version, and one for a package that was not
/// loaded.
pub open spec fn faults_of(import: ImportStatement, lock: Lockfile, status: PackageStatus) -> nat {
    if is_unlocked(lock, import.name@) {
        1
    } else {
        let pinned_away = exists|k: int|
            is_pinned_away(import, lock.packages@[k].version@) && #[trigger] is_locked_as(
                lock,
                import.name@,
                k,
            );
        (if pinned_away {
            1nat
        } else {
            0nat
        }) + (if status is Loaded {
            0nat
        } else {
            1nat
        })
    }
}

/// How many things are wrong with the first `n` imports.
pub open spec fn faults_before(
    imports: Seq<ImportStatement>,
    lock: Lockfile,
    statuses: Seq<PackageStatus>,
    n: int,
) -> nat
    decreases n,
{
    if n <= 0 {
        0
    } else {
        faults_before(imports, lock, statuses, n - 1) + faults_of(
            imports[n - 1],
            lock,
            statuses[n - 1],
        )
    }
}

/// How many of the first `n` blocks are neither `functions { }` nor
/// `library { }` blocks.
pub open spec fn forbidden_before(blocks: Seq<TopLevelBlock>, n: int) -> nat
    decreases n,
{
    if n <= 0 {
        0
    } else {
        forbidden_before(blocks, n - 1) + (if blocks[n - 1].kind == BlockKind::Functions
            || blocks[n - 1].kind == BlockKind::Library {
            0nat
        } else {
            1nat
        })
    }
}

/// How many diagnostics a file has for its blocks: none in a program, one for
/// each block of a library that is neither `functions { }` nor `library { }`.
pub open spec fn forbidden_count(dialect: Dialect, blocks: Seq<TopLevelBlock>) -> nat {
    match dialect {
        Dialect::Laplace => 0,
        Dialect::Library => forbidden_before(blocks, blocks.len() as int),
    }
}

/// An error of this module.
pub open spec fn error_at(range: LspRange, message: Seq<char>) -> DiagnosticView {
    DiagnosticView { range, severity: Severity::Error, source: "laplace"@, message }
}

proof fn lemma_locked_as(lock: Lockfile, name: Seq<char>)
    ensures
        is_unlocked(lock, name) <==> locked_index(lock.packages@, name, 0) is None,
        forall|k: int| #[trigger]
            is_locked_as(lock, name, k) <==> locked_index(lock.packages@, name, 0) == Some(k),
{
    law_locked_index(lock.packages@, name, 0);
    let found = locked_index(lock.packages@, name, 0);
    assert forall|k: int| #[trigger] is_locked_as(lock, name, k) <==> found == Some(k) by {
        if is_locked_as(lock, name, k) {
            if found is None {
                assert(lock.packages@[k].name@ != name);
            } else if found->0 < k {
                assert(lock.packages@[found->0].name@ != name);
            } else if found->0 > k {
                assert(lock.packages@[k].name@ != name);
            }
        }
    }
}

proof fn lemma_import_faults(
    bytes: Seq<u8>,
    mask: &CodeMask,
    block: LibraryBlock,
    import: ImportStatement,
    lock: Lockfile,
    status: PackageStatus,
)
    ensures
        import_views(bytes, mask, block, import, lock, status).len() == faults_of(
            import,
            lock,
            status,
        ),
{
    lemma_locked_as(lock, import.name@);
    if let Some(k) = locked_index(lock.packages@, import.name@, 0) {
        assert(is_locked_as(lock, import.name@, k));
    }
}

proof fn lemma_imports_faults(
    bytes: Seq<u8>,
    mask: &CodeMask,
    block: LibraryBlock,
    lock: Lockfile,
    statuses: Seq<PackageStatus>,
    n: int,
)
    requires
        0 <= n <= block.imports@.len(),
    ensures
        imports_views(bytes, mask, block, lock, statuses, n).len() == faults_before(
            block.imports@,
            lock,
            statuses,
            n,
        ),
    decreases n,
{
    if n > 0 {
        lemma_imports_faults(bytes, mask, block, lock, statuses, n - 1);
        lemma_import_faults(bytes, mask, block, block.imports@[n - 1], lock, statuses[n - 1]);
    }
}

/// What is said about an import stands behind what is said about the imports
/// before it.
proof fn lemma_import_position(
    bytes: Seq<u8>,
    mask: &CodeMask,
    block: LibraryBlock,
    lock: Lockfile,
    statuses: Seq<PackageStatus>,
    n: int,
    i: int,
    j: int,
)
    requires
        0 <= i < n <= block.imports@.len(),
        0 <= j < import_views(bytes, mask, block, block.imports@[i], lock, statuses[i]).len(),
    ensures
        ({
            let at = faults_before(block.imports@, lock, statuses, i) + j;
            let said = imports_views(bytes, mask, block, lock, statuses, n);
            &&& at < said.len()
            &&& said[at] == import_views(
                bytes,
                mask,
                block,
                block.imports@[i],
                lock,
                statuses[i],
            )[j]
        }),
    decreases n,
{
    lemma_imports_faults(bytes, mask, block, lock, statuses, n - 1);
    if i < n - 1 {
        lemma_import_position(bytes, mask, block, lock, statuses, n - 1, i, j);
    }
}

proof fn lemma_forbidden_count(bytes: Seq<u8>, blocks: Seq<TopLevelBlock>)
    ensures
        forbidden_views(bytes, blocks).len() == forbidden_before(blocks, blocks.len() as int),
    decreases blocks.len(),
{
    if blocks.len() > 0 {
        lemma_forbidden_count(bytes, blocks.drop_last());
        lemma_forbidden_prefix(blocks.drop_last(), blocks, blocks.len() - 1);
    }
}

proof fn lemma_forbidden_prefix(a: Seq<TopLevelBlock>, b: Seq<TopLevelBlock>, n: int)
    requires
        n <= a.len(),
        n <= b.len(),
        forall|k: int| 0 <= k < n ==> #[trigger] a[k] == b[k],
    ensures
        forbidden_before(a, n) == forbidden_before(b, n),
    decreases n,
{
    if n > 0 {
        lemma_forbidden_prefix(a, b, n - 1);
        assert(a[n - 1] == b[n - 1]);
    }
}

/// Every import that something is wrong with is reported, whatever is wrong
/// with the others: behind one diagnostic for each fault of the imports before
/// it come its own, where its statement stands and in the words for what is
/// wrong with it.
pub proof fn law_every_import_is_reported(
    bytes: Seq<u8>,
    dialect: Dialect,
    compilation: Compilation,
    lock: Lockfile,
    statuses: Seq<PackageStatus>,
    block: LibraryBlock,
    i: int,
)
    requires
        compilation.library_block == Ok::<Option<LibraryBlock>, String>(Some(block)),
        0 <= i < block.imports@.len(),
    ensures
        ({
            let said = all_views(bytes, dialect, compilation, lock, statuses);
            let import = block.imports@[i];
            let name = import.name@;
            let range = shown_range(bytes, import_span(bytes, &compilation.mask, block, name));
            let at = forbidden_count(dialect, compilation.blocks@) + faults_before(
                block.imports@,
                lock,
                statuses,
                i,
            );
            &&& is_unlocked(lock, name) ==> at < said.len() && said[at as int] == error_at(
                range,
                "`"@ + name
                    + "` is imported but not recorded in laplace.lock -- run `laplace add "@ + name
                    + "`"@,
            )
            &&& forall|k: int| #[trigger]
                is_locked_as(lock, name, k) ==> {
                    let version = lock.packages@[k].version@;
                    let next: int = if is_pinned_away(import, version) {
                        (at + 1) as int
                    } else {
                        at as int
                    };
                    &&& is_pinned_away(import, version) ==> at < said.len() && said[at as int]
                        == error_at(
                        range,
                        "`"@ + name + "` is pinned to "@ + import.version->0@
                            + " here, but laplace.lock has "@ + version
                            + " -- run `laplace update "@ + name + "`"@,
                    )
                    &&& statuses[i] is NotInstalled ==> next < said.len() && said[next] == error_at(
                        range,
                        "`"@ + name + "@"@ + version
                            + "` is locked but not installed -- run `laplace install`"@,
                    )
                    &&& statuses[i] matches PackageStatus::Broken(message) ==> next < said.len()
                        && said[next] == error_at(range, message@)
                }
        }),
{
    let mask = &compilation.mask;
    let import = block.imports@[i];
    let name = import.name@;
    let n = block.imports@.len() as int;
    let blocks = compilation.blocks@;
    let forbidden = block_views(bytes, dialect, blocks);
    let own = import_views(bytes, mask, block, import, lock, statuses[i]);
    let listed = imports_views(bytes, mask, block, lock, statuses, n);
    let said = all_views(bytes, dialect, compilation, lock, statuses);
    let before = faults_before(block.imports@, lock, statuses, i);
    lemma_forbidden_count(bytes, blocks);
    lemma_import_faults(bytes, mask, block, import, lock, statuses[i]);
    lemma_imports_faults(bytes, mask, block, lock, statuses, n);
    lemma_locked_as(lock, name);
    let first = forbidden_count(dialect, blocks) as int;
    assert(forbidden.len() == first);
    assert forall|j: int| 0 <= j < own.len() implies first + before + j < said.len()
        && #[trigger] own[j] == said[first + before + j] by {
        lemma_import_position(bytes, mask, block, lock, statuses, n, i, j);
        assert(listed[before + j] == own[j]);
        assert(said[first + (before + j)] == listed[before + j]);
    }
    if is_unlocked(lock, name) {
        let words = "` is imported but not recorded in laplace.lock -- run `laplace add "@;
        lemma_concat_five("`"@, name, words, name, "`"@);
        assert(own[0] == said[first + before + 0]);
    } else {
        let k = locked_index(lock.packages@, name, 0)->0;
        assert(is_locked_as(lock, name, k));
        let version = lock.packages@[k].version@;
        if is_pinned_away(import, version) {
            let pin = import.version->0@;
            lemma_concat_nine(
                "`"@,
                name,
                "` is pinned to "@,
                pin,
                " here, but laplace.lock has "@,
                version,
                " -- run `laplace update "@,
                name,
                "`"@,
            );
            assert(own[0] == said[first + before + 0]);
        }
        lemma_concat_five(
            "`"@,
            name,
            "@"@,
            version,
            "` is locked but not installed -- run `laplace install`"@,
        );
        if !(statuses[i] is Loaded) {
            let last = own.len() - 1;
            assert(own[last] == said[first + before + last]);
        }
    }
}

/// A file has one diagnostic for each forbidden block, one for each fault of
/// its imports, and one for the compiler's objection, which comes last; none
/// for the objection that a package is missing which an import was reported
/// for.
pub proof fn law_objection_is_reported(
    bytes: Seq<u8>,
    dialect: Dialect,
    compilation: Compilation,
    lock: Lockfile,
    statuses: Seq<PackageStatus>,
    block: Option<LibraryBlock>,
)
    requires
        compilation.library_block == Ok::<Option<LibraryBlock>, String>(block),
    ensures
        ({
            let said = all_views(bytes, dialect, compilation, lock, statuses);
            let faults = match block {
                Some(b) => faults_before(b.imports@, lock, statuses, b.imports@.len() as int),
                None => 0,
            };
            let count = forbidden_count(dialect, compilation.blocks@) + faults;
            let was_said = compilation.failure matches Some(failure) && failure.error matches
                CodegenError::MissingImport { package } && block matches Some(b) && exists|i: int|
                0 <= i < b.imports@.len() && (#[trigger] b.imports@[i]).name@ == package@ && (
                is_unlocked(lock, package@) || !(statuses[i] is Loaded));
            match compilation.failure {
                Some(failure) => if was_said {
                    said.len() == count
                } else {
                    &&& said.len() == count + 1
                    &&& said.last() == error_at(
                        shown_range(
                            bytes,
                            codegen_error_span(
                                bytes,
                                &compilation.mask,
                                block,
                                compilation.calls@,
                                failure.error,
                            ),
                        ),
                        failure.message@,
                    )
                },
                None => said.len() == count,
            }
        }),
{
    let mask = &compilation.mask;
    lemma_forbidden_count(bytes, compilation.blocks@);
    if let Some(b) = block {
        lemma_imports_faults(bytes, mask, b, lock, statuses, b.imports@.len() as int);
        if let Some(failure) = compilation.failure {
            if let CodegenError::MissingImport { package } = failure.error {
                lemma_locked_as(lock, package@);
                let imports = b.imports@;
                if already_reported(block, lock, statuses, failure.error) {
                    let i = choose|i: int|
                        0 <= i < imports.len() && (#[trigger] imports[i]).name@ == package@
                            && is_unavailable(imports[i], lock, statuses[i]);
                    assert(imports[i].name@ == package@);
                }
                if exists|i: int|
                    0 <= i < imports.len() && (#[trigger] imports[i]).name@ == package@ && (
                    is_unlocked(lock, package@) || !(statuses[i] is Loaded)) {
                    let i = choose|i: int|
                        0 <= i < imports.len() && (#[trigger] imports[i]).name@ == package@ && (
                        is_unlocked(lock, package@) || !(statuses[i] is Loaded));
                    assert(is_unavailable(imports[i], lock, statuses[i]));
                }
            }
        }
    }
}

/// Each block of a library that is neither a `functions { }` nor a
/// `library { }` block is reported in its turn, from its first byte on over
/// the length of its keyword, with or without a lockfile.
pub proof fn law_every_forbidden_block_is_reported(
    bytes: Seq<u8>,
    compilation: Compilation,
    lock: Lockfile,
    statuses: Seq<PackageStatus>,
    k: int,
)
    requires
        0 <= k < compilation.blocks@.len(),
        compilation.blocks@[k].kind != BlockKind::Functions,
        compilation.blocks@[k].kind != BlockKind::Library,
    ensures
        ({
            let block = compilation.blocks@[k];
            let keyword = block.kind.keyword_text();
            let start = block.byte_range.start as int;
            let at = forbidden_before(compilation.blocks@, k) as int;
            let view = error_at(
                shown_range(bytes, (start, start + encode_utf8(keyword).len())),
                "a `.laplacelib` file cannot contain a `"@ + keyword
                    + "` block -- a library provides functions to a model, it is not a model itself (move this into the `.laplace` file that uses the library)"@,
            );
            let said = all_views(bytes, Dialect::Library, compilation, lock, statuses);
            let alone = unresolved_views(bytes, Dialect::Library, compilation);
            &&& at < said.len() && said[at] == view
            &&& at < alone.len() && alone[at] == view
        }),
{
    let blocks = compilation.blocks@;
    let keyword = blocks[k].kind.keyword_text();
    let words =
        "` block -- a library provides functions to a model, it is not a model itself (move this into the `.laplace` file that uses the library)"@;
    lemma_forbidden_at(bytes, blocks, k);
    lemma_concat_three("a `.laplacelib` file cannot contain a `"@, keyword, words);
}

proof fn lemma_forbidden_at(bytes: Seq<u8>, blocks: Seq<TopLevelBlock>, k: int)
    requires
        0 <= k < blocks.len(),
        !Dialect::Library.permits(blocks[k].kind),
    ensures
        forbidden_before(blocks, k) < forbidden_views(bytes, blocks).len(),
        forbidden_views(bytes, blocks)[forbidden_before(blocks, k) as int] == forbidden_view(
            bytes,
            blocks[k],
        ),
    decreases blocks.len(),
{
    let rest = blocks.drop_last();
    lemma_forbidden_count(bytes, rest);
    lemma_forbidden_prefix(rest, blocks, k);
    if k < rest.len() {
        assert(rest[k] == blocks[k]);
        lemma_forbidden_at(bytes, rest, k);
    }
}

/// A `library { }` block that was rejected is reported in the words of the
/// rejection at the start of the file, and nothing is said of imports, with or
/// without a lockfile.
pub proof fn law_rejected_block_is_reported(
    bytes: Seq<u8>,
    dialect: Dialect,
    compilation: Compilation,
    lock: Lockfile,
    statuses: Seq<PackageStatus>,
)
    requires
        compilation.library_block is Err,
    ensures
        ({
            let said = all_views(bytes, dialect, compilation, lock, statuses);
            let alone = unresolved_views(bytes, dialect, compilation);
            let range = LspRange { start: position_at(bytes, 0), end: position_at(bytes, 0) };
            &&& said.len() == forbidden_count(dialect, compilation.blocks@) + 1
            &&& said.last() == error_at(range, compilation.library_block->Err_0@)
            &&& alone == said
        }),
{
    lemma_forbidden_count(bytes, compilation.blocks@);
}

/// Without a lockfile a file has one diagnostic for each forbidden block and
/// one for the compiler's objection, which comes last; none for the objection
/// that a package is missing which the file imports.
pub proof fn law_objection_is_reported_without_a_lockfile(
    bytes: Seq<u8>,
    dialect: Dialect,
    compilation: Compilation,
    block: Option<LibraryBlock>,
)
    requires
        compilation.library_block == Ok::<Option<LibraryBlock>, String>(block),
    ensures
        ({
            let said = unresolved_views(bytes, dialect, compilation);
            let count = forbidden_count(dialect, compilation.blocks@);
            let is_import = compilation.failure matches Some(failure) && failure.error matches
                CodegenError::MissingImport { package } && is_imported(block, package@);
            match compilation.failure {
                Some(failure) => if is_import {
                    said.len() == count
                } else {
                    &&& said.len() == count + 1
                    &&& said.last() == error_at(
                        shown_range(
                            bytes,
                            codegen_error_span(
                                bytes,
                                &compilation.mask,
                                block,
                                compilation.calls@,
                                failure.error,
                            ),
                        ),
                        failure.message@,
                    )
                },
                None => said.len() == count,
            }
        }),
{
    lemma_forbidden_count(bytes, compilation.blocks@);
    if let Some(failure) = compilation.failure {
        if let CodegenError::MissingImport { package } = failure.error {
            lemma_is_imported(block, package@);
        }
    }
}

/// The file imports the package.
pub open spec fn is_imported(block: Option<LibraryBlock>, package: Seq<char>) -> bool {
    block matches Some(block) && exists|j: int|
        0 <= j < block.imports@.len() && (#[trigger] block.imports@[j]).name@ == package
}

proof fn lemma_is_imported(block: Option<LibraryBlock>, package: Seq<char>)
    ensures
        is_imported(block, package) <==> import_index(imports_of(block), package, 0) is Some,
{
    law_import_index(imports_of(block), package, 0);
}

/// Where an objection is shown. One to a package's own source: at the import
/// of that package. One to a call: at the first call of that function of that
/// package. A collision of two packages: at the import of the one that is
/// imported; at the import that starts first if both are. The start of the
/// file if there is no such import or call.
pub proof fn law_where_objections_are_shown(
    bytes: Seq<u8>,
    mask: &CodeMask,
    block: Option<LibraryBlock>,
    calls: Seq<QualifiedCall>,
    error: CodegenError,
)
    ensures
        ({
            let shown = codegen_error_span(bytes, mask, block, calls, error);
            match error {
                CodegenError::MissingImport { package } => shown_at_import(
                    bytes,
                    mask,
                    block,
                    package@,
                    shown,
                ),
                CodegenError::ExportedFunctionMissing { package } => shown_at_import(
                    bytes,
                    mask,
                    block,
                    package@,
                    shown,
                ),
                CodegenError::MissingDependency { package } => shown_at_import(
                    bytes,
                    mask,
                    block,
                    package@,
                    shown,
                ),
                CodegenError::UndeclaredPackageReference { in_package } => shown_at_import(
                    bytes,
                    mask,
                    block,
                    in_package@,
                    shown,
                ),
                CodegenError::FunctionNotExported { package, func } => shown_at_call(
                    calls,
                    package@,
                    func@,
                    shown,
                ),
                CodegenError::UnknownPackageReference { package, func } => shown_at_call(
                    calls,
                    package@,
                    func@,
                    shown,
                ),
                CodegenError::DuplicateMangledName { first_package, second_package } =>
                shown_at_either(bytes, mask, block, first_package@, second_package@, shown),
                CodegenError::PrivateFunctionCollision { first_package, second_package } =>
                shown_at_either(bytes, mask, block, first_package@, second_package@, shown),
                CodegenError::FunctionFileCollision { first_package, second_package } =>
                shown_at_either(bytes, mask, block, first_package@, second_package@, shown),
            }
        }),
{
    match error {
        CodegenError::MissingImport { package } => lemma_is_imported(block, package@),
        CodegenError::ExportedFunctionMissing { package } => lemma_is_imported(block, package@),
        CodegenError::MissingDependency { package } => lemma_is_imported(block, package@),
        CodegenError::UndeclaredPackageReference { in_package } => lemma_is_imported(
            block,
            in_package@,
        ),
        CodegenError::FunctionNotExported { package, func } => lemma_call_index(
            calls,
            package@,
            func@,
            0,
        ),
        CodegenError::UnknownPackageReference { package, func } => lemma_call_index(
            calls,
            package@,
            func@,
            0,
        ),
        CodegenError::DuplicateMangledName { first_package, second_package } => {
            lemma_is_imported(block, first_package@);
            lemma_is_imported(block, second_package@);
        },
        CodegenError::PrivateFunctionCollision { first_package, second_package } => {
            lemma_is_imported(block, first_package@);
            lemma_is_imported(block, second_package@);
        },
        CodegenError::FunctionFileCollision { first_package, second_package } => {
            lemma_is_imported(block, first_package@);
            lemma_is_imported(block, second_package@);
        },
    }
}

/// `shown` is the import of the package, or the start of the file if it is not
/// imported.
pub open spec fn shown_at_import(
    bytes: Seq<u8>,
    mask: &CodeMask,
    block: Option<LibraryBlock>,
    package: Seq<char>,
    shown: (int, int),
) -> bool {
    &&& is_imported(block, package) ==> shown == import_span(bytes, mask, block->0, package)
    &&& !is_imported(block, package) ==> shown == (0int, 0int)
}

/// `shown` is the import of one of the packages that are imported, and no
/// import of the two starts before it; the start of the file if neither is
/// imported.
pub open spec fn shown_at_either(
    bytes: Seq<u8>,
    mask: &CodeMask,
    block: Option<LibraryBlock>,
    first: Seq<char>,
    second: Seq<char>,
    shown: (int, int),
) -> bool {
    let a = import_span(bytes, mask, block->0, first);
    let b = import_span(bytes, mask, block->0, second);
    if is_imported(block, first) && is_imported(block, second) {
        &&& shown == a || shown == b
        &&& shown.0 <= a.0
        &&& shown.0 <= b.0
    } else if is_imported(block, first) {
        shown == a
    } else if is_imported(block, second) {
        shown == b
    } else {
        shown == (0int, 0int)
    }
}

/// `shown` is the first call of the function of the package, or the start of
/// the file if it is not called.
pub open spec fn shown_at_call(
    calls: Seq<QualifiedCall>,
    package: Seq<char>,
    func: Seq<char>,
    shown: (int, int),
) -> bool {
    ||| exists|k: int|
        {
            &&& 0 <= k < calls.len()
            &&& (#[trigger] calls[k]).package@ == package
            &&& calls[k].func@ == func
            &&& shown == (calls[k].range.start as int, calls[k].range.end as int)
            &&& forall|j: int|
                0 <= j < k ==> (#[trigger] calls[j]).package@ != package || calls[j].func@ != func
        }
    ||| {
        &&& forall|k: int|
            0 <= k < calls.len() ==> (#[trigger] calls[k]).package@ != package || calls[k].func@
                != func
        &&& shown == (0int, 0int)
    }
}

proof fn lemma_call_index(calls: Seq<QualifiedCall>, package: Seq<char>, func: Seq<char>, from: int)
    requires
        0 <= from,
    ensures
        match call_index(calls, package, func, from) {
            Some(k) => {
                &&& from <= k < calls.len()
                &&& calls[k].package@ == package
                &&& calls[k].func@ == func
                &&& forall|j: int|
                    from <= j < k ==> (#[trigger] calls[j]).package@ != package || calls[j].func@
                        != func
            },
            None => forall|k: int|
                from <= k < calls.len() ==> (#[trigger] calls[k]).package@ != package
                    || calls[k].func@ != func,
        },
    decreases calls.len() - from,
{
    if from < calls.len() {
        lemma_call_index(calls, package, func, from + 1);
    }
}

/// A document has the diagnostics of its file, read in the dialect that the
/// file's extension gives, against its lockfile if there is one; none if it is
/// not a file.
pub proof fn law_document_diagnostics(
    path: Seq<char>,
    bytes: Seq<u8>,
    compilation: Compilation,
    lock: Lockfile,
    statuses: Seq<PackageStatus>,
)
    ensures
        ({
            let dialect = if extension_of(path) == Some("laplacelib"@) {
                Dialect::Library
            } else {
                Dialect::Laplace
            };
            let document = Some(path);
            &&& document_views(document, bytes, compilation, Some(lock), statuses) == all_views(
                bytes,
                dialect,
                compilation,
                lock,
                statuses,
            )
            &&& document_views(document, bytes, compilation, None, statuses) == unresolved_views(
                bytes,
                dialect,
                compilation,
            )
            &&& document_views(None, bytes, compilation, Some(lock), statuses).len() == 0
            &&& document_views(None, bytes, compilation, None, statuses).len() == 0
        }),
{
}

/// The statement `import <name>` is written at `i`, its name at `at`: both are
/// whole words of code, and only whitespace and comments stand between them.
pub open spec fn import_is_written(
    bytes: Seq<u8>,
    mask: &CodeMask,
    i: int,
    at: int,
    name: Seq<char>,
) -> bool {
    let keyword = encode_utf8("import"@);
    &&& word_is_written(bytes, mask, i, keyword)
    &&& i + keyword.len() < at
    &&& forall|k: int|
        i + keyword.len() <= k < at ==> !#[trigger] mask.code(k) || is_space_byte(bytes[k])
    &&& word_is_written(bytes, mask, at, encode_utf8(name))
}

/// An import is shown at the first statement of the block that imports its
/// name, from the keyword to the end of the name; if the block has none, over
/// the whole block. The name is one that does not start with whitespace.
pub proof fn law_where_imports_are_shown(
    bytes: Seq<u8>,
    mask: &CodeMask,
    block: LibraryBlock,
    name: Seq<char>,
)
    requires
        encode_utf8(name).len() > 0,
        !is_space_byte(encode_utf8(name)[0]),
    ensures
        ({
            let start = block.byte_range.start as int;
            let end = block.byte_range.end as int;
            let size = encode_utf8(name).len();
            let shown = import_span(bytes, mask, block, name);
            ||| exists|at: int|
                {
                    &&& #[trigger] import_is_written(bytes, mask, shown.0, at, name)
                    &&& start <= shown.0
                    &&& shown.1 == at + size
                    &&& shown.1 <= end
                    &&& forall|i: int, a: int|
                        start <= i < shown.0 && a + size <= end ==> !#[trigger] import_is_written(
                            bytes,
                            mask,
                            i,
                            a,
                            name,
                        )
                }
            ||| {
                &&& shown == (start, end)
                &&& forall|i: int, a: int|
                    start <= i && a + size <= end ==> !#[trigger] import_is_written(
                        bytes,
                        mask,
                        i,
                        a,
                        name,
                    )
            }
        }),
{
    let start = block.byte_range.start as int;
    let end = block.byte_range.end as int;
    let keyword = encode_utf8("import"@);
    let word = encode_utf8(name);
    law_import_statement(bytes, mask, start, end, name);
    assert forall|i: int, a: int| start <= i && #[trigger] import_is_written(
        bytes,
        mask,
        i,
        a,
        name,
    ) implies import_end(bytes, mask, i, name) == Some(a + word.len()) && i < a by {
        law_what_a_word_is(bytes, mask, i, keyword);
        law_what_a_word_is(bytes, mask, a, word);
        assert(word[0] == bytes[a + 0]);
        assert(mask.code(a));
        lemma_gap_reaches(bytes, mask, i + keyword.len(), a);
    }
    match import_statement(bytes, mask, start, end, name) {
        Some((i, stop)) => {
            let at = gap_end(bytes, mask, i + keyword.len());
            lemma_gap_filled(bytes, mask, i + keyword.len());
            law_what_a_word_is(bytes, mask, i, keyword);
            law_what_a_word_is(bytes, mask, at, word);
            assert(import_is_written(bytes, mask, i, at, name));
            assert forall|j: int, a: int|
                start <= j < i && a + word.len() <= end implies !#[trigger] import_is_written(
                bytes,
                mask,
                j,
                a,
                name,
            ) by {
                if import_is_written(bytes, mask, j, a, name) {
                    assert(import_end(bytes, mask, j, name) == Some(a + word.len()));
                }
            }
        },
        None => {
            assert forall|j: int, a: int| start <= j && a + word.len() <= end implies
                !#[trigger] import_is_written(bytes, mask, j, a, name) by {
                if import_is_written(bytes, mask, j, a, name) {
                    assert(import_end(bytes, mask, j, name) == Some(a + word.len()));
                }
            }
        },
    }
}

proof fn lemma_gap_reaches(bytes: Seq<u8>, mask: &CodeMask, i: int, at: int)
    requires
        0 <= i <= at < bytes.len(),
        forall|k: int| i <= k < at ==> !#[trigger] mask.code(k) || is_space_byte(bytes[k]),
        mask.code(at),
        !is_space_byte(bytes[at]),
    ensures
        gap_end(bytes, mask, i) == at,
    decreases at - i,
{
    if i < at {
        assert(!mask.code(i) || is_space_byte(bytes[i]));
        lemma_gap_reaches(bytes, mask, i + 1, at);
    }
}

proof fn lemma_gap_filled(bytes: Seq<u8>, mask: &CodeMask, i: int)
    ensures
        forall|k: int|
            i <= k < gap_end(bytes, mask, i) ==> !#[trigger] mask.code(k) || is_space_byte(
                bytes[k],
            ),
    decreases bytes.len() - i,
{
    if 0 <= i < bytes.len() && (!mask.code(i) || is_space_byte(bytes[i])) {
        lemma_gap_filled(bytes, mask, i + 1);
    }
}

/// What the compiler has found fits a text if the mask is that of the text,
/// the keywords of the forbidden blocks of a library start and end between
/// characters, and so do the `library { }` block and, where there is an
/// objection, the calls.
pub proof fn law_what_compilation_fits(bytes: Seq<u8>, dialect: Dialect, compilation: Compilation)
    requires
        compilation.mask.wf(bytes),
        dialect == Dialect::Library ==> forall|k: int|
            #![trigger compilation.blocks@[k]]
            0 <= k < compilation.blocks@.len() ==> {
                let block = compilation.blocks@[k];
                let start = block.byte_range.start as int;
                let end = start + encode_utf8(block.kind.keyword_text()).len();
                &&& on_boundary(bytes, start)
                &&& end <= bytes.len() ==> on_boundary(bytes, end)
            },
        compilation.library_block matches Ok(Some(block)) ==> block.byte_range.start
            <= block.byte_range.end && on_boundary(bytes, block.byte_range.start as int)
            && on_boundary(bytes, block.byte_range.end as int),
        compilation.failure is Some ==> forall|k: int|
            #![trigger compilation.calls@[k]]
            0 <= k < compilation.calls@.len() ==> compilation.calls@[k].range.start
                <= compilation.calls@[k].range.end && on_boundary(
                bytes,
                compilation.calls@[k].range.start as int,
            ) && on_boundary(bytes, compilation.calls@[k].range.end as int),
    ensures
        compilation_fits(bytes, dialect, compilation),
{
    if compilation.failure is Some {
        let tokens = library_tokens(compilation.calls@);
        assert forall|k: int| 0 <= k < tokens.len() implies token_fits(bytes, #[trigger] tokens[k]) by {
            let call = compilation.calls@[k];
        }
    }
    if dialect == Dialect::Library {
        assert forall|k: int|
            #![trigger compilation.blocks@[k]]
            0 <= k < compilation.blocks@.len() implies span_fits(
            bytes,
            keyword_span(compilation.blocks@[k]),
        ) by {
            let block = compilation.blocks@[k];
            assert(on_boundary(bytes, bytes.len() as int));
        }
    }
}

/// What is handed in fits a document if it fits its file, read in the dialect
/// that the file's extension gives, and, where there is a lockfile, says what
/// became of each import; it fits every document that is not a file.
pub proof fn law_what_document_fits(
    path: Seq<char>,
    bytes: Seq<u8>,
    compilation: Compilation,
    lock: Option<Lockfile>,
    statuses: Seq<PackageStatus>,
)
    ensures
        ({
            let dialect = if extension_of(path) == Some("laplacelib"@) {
                Dialect::Library
            } else {
                Dialect::Laplace
            };
            let complete = match compilation.library_block {
                Ok(Some(block)) => statuses.len() == block.imports@.len(),
                Ok(None) => statuses.len() == 0,
                Err(_) => true,
            };
            &&& document_fits(Some(path), bytes, compilation, lock, statuses) <==> compilation_fits(
                bytes,
                dialect,
                compilation,
            ) && (lock is None || complete)
            &&& document_fits(None, bytes, compilation, lock, statuses)
        }),
{
}

} // verus!
