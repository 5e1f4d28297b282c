//! Live checking with `stanc`, if it is installed: what it is given to check,
//! and where its reports are shown.
//!
//! `stanc` checks the program that the compiler generates. A report is walked
//! back from there: through the compiler's own source map, then, for a
//! `.laplacelib` file, through the rewriting of module `library`. Whatever
//! keeps a program from being generated is reported by module `diagnostics`
//! already, so this one then says nothing.

use crate::analysis::ImportStatement;
use crate::blocks::{BlockKind, TopLevelBlock};
use crate::declarations::string_view;
use crate::diagnostics::{
    Diagnostic, DiagnosticView, LibraryBlock, Severity, clamped, diagnostic_views, find_import,
    import_index, import_of, import_span, imports_of, is_imported, law_import_index, library_fits,
    library_is_usable, shown_range, span_fits, span_is_usable, span_of, to_lsp_range,
};
use crate::dialect::{Dialect, dialect_of_path, extension_of, uri_file_path, uri_to_file_path};
use crate::library::{
    WrappedLibrary, WrappedView, blocks_are_library_shaped, is_copied, is_library_shaped,
    law_mapping_leads_back, law_wrapping_is_faithful, origin_of, ranges_are_usable, ranges_fit,
    wrap_library_source, wrapped,
};
use crate::mask::CodeMask;
use crate::position::{line_starts, line_starts_of, position_at};
use crate::text::{
    concat, join_parts, lemma_boundary, lemma_concat_four, matches_at, occurs_at, offset_view,
    on_boundary, views,
};
use crate::versions::{law_version_order, version_le, version_may_precede};
use crate::workspace::{
    FileCandidate, Lockfile, find_first_file, find_locked, first_file, law_first_file,
    law_locked_index, locked_index,
};
use std::ops::Range;
use vstd::prelude::*;
use vstd::string::*;
use vstd::utf8::*;

verus! {

/// A report of `stanc`. Lines count from one, columns from zero.
#[derive(Debug)]
pub struct StancReport {
    pub severity: Severity,
    pub line: usize,
    pub column_start: usize,
    pub column_end: usize,
    pub message: String,
}

/// A report, and where the compiler's source map leads from the offset that
/// it is about.
#[derive(Debug)]
pub struct LocatedReport {
    pub report: StancReport,
    pub compiled_offset: Option<usize>,
}

/// The lines of the generated program, both inclusive, that came from a
/// package.
#[derive(Debug)]
pub struct PackageLines {
    pub package: String,
    pub first: usize,
    pub last: usize,
}

/// All that happened on the way to the reports on a file.
#[derive(Debug)]
pub struct StancRun {
    /// Which bytes of the file are code.
    pub mask: CodeMask,
    /// The `library { }` block of the program that was compiled.
    pub compiled_block: Result<Option<LibraryBlock>, String>,
    /// The `library { }` block of the file.
    pub original_block: Result<Option<LibraryBlock>, String>,
    /// Whether the locked package of each import of the compiled program was
    /// loaded.
    pub loaded: Vec<bool>,
    /// Where packages ended up in the generated program, if one was generated.
    pub packages: Option<Vec<PackageLines>>,
    /// The reports, if `stanc` could be run and rejected the program.
    pub reports: Option<Vec<LocatedReport>>,
}

// ---------------------------------------------------------------------------
// What is checked
// ---------------------------------------------------------------------------

/// What is compiled for a file.
#[derive(Debug)]
pub enum StancProgram {
    /// The file itself.
    AsIs,
    /// The program that a library is rewritten into.
    Wrapped(WrappedLibrary),
}

impl StancProgram {
    /// The rewriting, if there is one, is in order.
    pub open spec fn wf(&self) -> bool {
        match self {
            StancProgram::AsIs => true,
            StancProgram::Wrapped(w) => w.wf(),
        }
    }

    /// Where an offset of the compiled text stands in the file.
    pub open spec fn file_offset(&self, compiled: Option<int>) -> Option<int> {
        match self {
            StancProgram::AsIs => compiled,
            StancProgram::Wrapped(w) => wrapped_offset(Some(w@), compiled),
        }
    }

    /// The text that is compiled for the file `source`.
    pub fn text<'a>(&'a self, source: &'a str) -> (r: &'a str)
        ensures
            r@ == (match self {
                StancProgram::AsIs => source@,
                StancProgram::Wrapped(w) => w.text@,
            }),
    {
        match self {
            StancProgram::AsIs => source,
            StancProgram::Wrapped(w) => w.text.as_str(),
        }
    }

    /// Where the offset `compiled` of the compiled text stands in the file;
    /// `None` for code that is not from the file.
    pub fn map(&self, compiled: Option<usize>) -> (r: Option<usize>)
        requires
            self.wf(),
        ensures
            offset_view(r) == self.file_offset(offset_view(compiled)),
    {
        match self {
            StancProgram::AsIs => compiled,
            StancProgram::Wrapped(w) => match compiled {
                Some(offset) => w.map(offset),
                None => None,
            },
        }
    }
}

/// Where an offset of the compiled text stands in the file, which was
/// rewritten if there is a `wrapper`.
pub open spec fn wrapped_offset(wrapper: Option<WrappedView>, compiled: Option<int>) -> Option<
    int,
> {
    match wrapper {
        None => compiled,
        Some(w) => match compiled {
            Some(offset) => origin_of(w.segments, offset),
            None => None,
        },
    }
}

/// What is compiled for the file `source`: nothing for a library that
/// contains a forbidden block, which means no program.
pub fn stanc_program(source: &str, dialect: Dialect, blocks: &Vec<TopLevelBlock>) -> (r: Option<
    StancProgram,
>)
    requires
        dialect == Dialect::Library && is_library_shaped(blocks@) ==> ranges_fit(
            encode_utf8(source@),
            blocks@,
        ),
    ensures
        dialect == Dialect::Laplace ==> r == Some(StancProgram::AsIs),
        dialect == Dialect::Library ==> match wrapped(encode_utf8(source@), blocks@) {
            Some(view) => r matches Some(StancProgram::Wrapped(w)) && w@ == view && w.wf(),
            None => r is None,
        },
{
    if dialect.is_library() {
        match wrap_library_source(source, blocks) {
            Some(w) => Some(StancProgram::Wrapped(w)),
            None => None,
        }
    } else {
        Some(StancProgram::AsIs)
    }
}

/// The packages of the imports, if all of them are locked.
pub open spec fn all_locked(lock: Lockfile, imports: Seq<ImportStatement>) -> bool {
    forall|i: int|
        0 <= i < imports.len() ==> locked_index(
            lock.packages@,
            (#[trigger] imports[i]).name@,
            0,
        ) is Some
}

/// Which locked package to load for each of the imports; `None` if one of
/// them is not locked, in which case none need be loaded.
pub fn packages_to_load(lock: &Lockfile, imports: &Vec<ImportStatement>) -> (r: Option<Vec<usize>>)
    ensures
        r is Some <==> all_locked(*lock, imports@),
        r matches Some(packages) ==> {
            &&& packages@.len() == imports@.len()
            &&& forall|i: int|
                #![trigger packages@[i]]
                0 <= i < imports@.len() ==> locked_index(lock.packages@, imports@[i].name@, 0)
                    == Some(packages@[i] as int)
        },
{
    let mut out: Vec<usize> = Vec::new();
    let mut k: usize = 0;
    while k < imports.len()
        invariant
            k == out@.len(),
            k <= imports@.len(),
            forall|i: int|
                #![trigger out@[i]]
                0 <= i < k ==> locked_index(lock.packages@, imports@[i].name@, 0) == Some(
                    out@[i] as int,
                ),
        decreases imports.len() - k,
    {
        match find_locked(lock, imports[k].name.as_str()) {
            Some(found) => {
                out.push(found);
            },
            None => {
                assert(locked_index(lock.packages@, imports@[k as int].name@, 0) is None);
                return None;
            },
        }
        k += 1;
    }
    assert forall|i: int| 0 <= i < imports@.len() implies locked_index(
        lock.packages@,
        (#[trigger] imports@[i]).name@,
        0,
    ) is Some by {
        let found = out@[i];
        assert(locked_index(lock.packages@, imports@[i].name@, 0) == Some(found as int));
    }
    Some(out)
}

// ---------------------------------------------------------------------------
// Where reports are shown
// ---------------------------------------------------------------------------

/// The index of the line that a report is about.
pub open spec fn line_index(line: usize) -> int {
    if line == 0 {
        0
    } else {
        line - 1
    }
}

/// The offset in the generated program that a report is about; `None` if the
/// program, whose lines start at `gen_starts`, does not have its line.
pub fn generated_offset(gen_starts: &[usize], report: &StancReport) -> (r: Option<usize>)
    requires
        line_index(report.line) < gen_starts@.len() ==> gen_starts@[line_index(report.line)]
            + report.column_start <= usize::MAX,
    ensures
        offset_view(r) == if line_index(report.line) < gen_starts@.len() {
            Some(gen_starts@[line_index(report.line)] + report.column_start)
        } else {
            None
        },
        r is Some <==> report.line <= gen_starts@.len() && gen_starts@.len() > 0,
        r matches Some(offset) ==> {
            &&& report.line == 0 ==> offset == gen_starts@[0] + report.column_start
            &&& report.line > 0 ==> offset == gen_starts@[report.line - 1] + report.column_start
        },
{
    let index = if report.line == 0 {
        0
    } else {
        report.line - 1
    };
    if index < gen_starts.len() {
        Some(gen_starts[index] + report.column_start)
    } else {
        None
    }
}

/// How many columns a report is about: at least one.
pub open spec fn span_len(report: StancReport) -> int {
    if report.column_end > report.column_start {
        report.column_end - report.column_start
    } else {
        1
    }
}

/// The span of the file that a report at `offset` is about.
pub open spec fn report_span(bytes: Seq<u8>, report: StancReport, offset: int) -> (int, int) {
    (offset, clamped(bytes, offset + span_len(report)))
}

/// The first package, from the `k`-th on, that line `line` came from.
pub open spec fn package_of_line(packages: Seq<PackageLines>, line: usize, k: int) -> Option<int>
    decreases packages.len() - k,
{
    if k < 0 || k >= packages.len() {
        None
    } else if packages[k].first <= line <= packages[k].last {
        Some(k)
    } else {
        package_of_line(packages, line, k + 1)
    }
}

/// The package that line `line` of the generated program came from and where
/// it is imported.
pub open spec fn fallback(
    bytes: Seq<u8>,
    mask: &CodeMask,
    packages: Seq<PackageLines>,
    block: Option<LibraryBlock>,
    line: usize,
) -> Option<((int, int), Seq<char>)> {
    match package_of_line(packages, line, 0) {
        Some(k) => match import_of(bytes, mask, block, packages[k].package@) {
            Some(span) => Some((span, packages[k].package@)),
            None => None,
        },
        None => None,
    }
}

/// A report in code that came from a package has no place in the file: it
/// falls back to the package's import. The result is where that stands, and
/// the package's name.
pub fn package_fallback<'a>(
    source: &str,
    mask: &CodeMask,
    packages: &'a Vec<PackageLines>,
    block: &Option<LibraryBlock>,
    line: usize,
) -> (r: Option<(Range<usize>, &'a str)>)
    requires
        mask.wf(encode_utf8(source@)),
        *block matches Some(b) ==> library_fits(encode_utf8(source@), b),
    ensures
        match r {
            Some((range, package)) => {
                &&& fallback(encode_utf8(source@), mask, packages@, *block, line) == Some(
                    (span_of(range), package@),
                )
                &&& span_fits(encode_utf8(source@), span_of(range))
            },
            None => fallback(encode_utf8(source@), mask, packages@, *block, line) is None,
        },
{
    let mut k: usize = 0;
    while k < packages.len()
        invariant
            k <= packages@.len(),
            mask.wf(encode_utf8(source@)),
            *block matches Some(b) ==> library_fits(encode_utf8(source@), b),
            package_of_line(packages@, line, 0) == package_of_line(packages@, line, k as int),
        decreases packages.len() - k,
    {
        if packages[k].first <= line && line <= packages[k].last {
            let package = packages[k].package.as_str();
            return match find_import(source, mask, block, package) {
                Some(range) => Some((range, package)),
                None => None,
            };
        }
        k += 1;
    }
    None
}

/// The words of a report on code that came from a package.
pub open spec fn package_message(package: Seq<char>, message: Seq<char>) -> Seq<char> {
    concat(seq!["in imported package `"@, package, "`: "@, message])
}

/// How a report is shown: where it leads in the file; or else at the import
/// of the package that its line came from, with the package's name; or else
/// at the start of the file.
pub open spec fn report_view(
    bytes: Seq<u8>,
    mask: &CodeMask,
    packages: Seq<PackageLines>,
    block: Option<LibraryBlock>,
    offset: Option<int>,
    report: StancReport,
) -> DiagnosticView {
    let (span, message) = match offset {
        Some(offset) => (report_span(bytes, report, offset), report.message@),
        None => match fallback(bytes, mask, packages, block, report.line) {
            Some((span, package)) => (span, package_message(package, report.message@)),
            None => ((0, 0), report.message@),
        },
    };
    DiagnosticView {
        range: shown_range(bytes, span),
        severity: report.severity,
        source: "stanc"@,
        message,
    }
}

/// The text can be cut at both ends of what a report at `offset` is about.
pub open spec fn report_fits(bytes: Seq<u8>, offset: Option<int>, report: StancReport) -> bool {
    offset matches Some(offset) ==> span_fits(bytes, report_span(bytes, report, offset))
}

/// The diagnostic for `report`, which leads to `offset` in `source`.
pub fn to_lsp_diagnostic(
    source: &str,
    mask: &CodeMask,
    starts: &[usize],
    packages: &Vec<PackageLines>,
    block: &Option<LibraryBlock>,
    offset: Option<usize>,
    report: &StancReport,
) -> (r: Diagnostic)
    requires
        mask.wf(encode_utf8(source@)),
        starts@ == line_starts_of(encode_utf8(source@)),
        *block matches Some(b) ==> library_fits(encode_utf8(source@), b),
        report_fits(encode_utf8(source@), offset_view(offset), *report),
    ensures
        r@ == report_view(
            encode_utf8(source@),
            mask,
            packages@,
            *block,
            offset_view(offset),
            *report,
        ),
{
    let ghost bytes = encode_utf8(source@);
    proof {
        encode_utf8_valid_utf8(source@);
        lemma_boundary(bytes, 0);
    }
    let length = source.as_bytes().len();
    let (range, message) = match offset {
        Some(start) => {
            let columns = if report.column_end > report.column_start {
                report.column_end - report.column_start
            } else {
                1
            };
            let end = if start < length && columns < length - start {
                start + columns
            } else {
                length
            };
            (start..end, report.message.clone())
        },
        None => match package_fallback(source, mask, packages, block, report.line) {
            Some((range, package)) => {
                let parts = vec!["in imported package `", package, "`: ", report.message.as_str()];
                let message = join_parts(&parts);
                assert(views(parts@) =~= seq![
                    "in imported package `"@,
                    package@,
                    "`: "@,
                    report.message@,
                ]);
                (range, message)
            },
            None => (0..0, report.message.clone()),
        },
    };
    Diagnostic {
        range: to_lsp_range(source, starts, range),
        severity: report.severity,
        source: "stanc".to_owned(),
        message,
    }
}

// ---------------------------------------------------------------------------
// All of them
// ---------------------------------------------------------------------------

/// What is compiled for a file, if anything is: the rewriting of a library.
pub open spec fn wrapper_of(
    bytes: Seq<u8>,
    dialect: Dialect,
    blocks: Seq<TopLevelBlock>,
) -> Option<WrappedView> {
    if dialect == Dialect::Library {
        wrapped(bytes, blocks)
    } else {
        None
    }
}

/// A program could be put together and checked: the file means one, both
/// `library { }` blocks could be read, every import is locked and was loaded,
/// a program was generated, and `stanc` ran and rejected it.
pub open spec fn was_checked(
    dialect: Dialect,
    blocks: Seq<TopLevelBlock>,
    lock: Lockfile,
    run: StancRun,
) -> bool {
    &&& dialect == Dialect::Library ==> is_library_shaped(blocks)
    &&& run.compiled_block matches Ok(compiled)
    &&& run.original_block is Ok
    &&& all_locked(lock, imports_of(compiled))
    &&& forall|i: int| 0 <= i < imports_of(compiled).len() ==> #[trigger] run.loaded@[i]
    &&& run.packages is Some
    &&& run.reports is Some
}

/// What the reports on a file say, each one where it belongs.
pub open spec fn stanc_views(
    bytes: Seq<u8>,
    dialect: Dialect,
    blocks: Seq<TopLevelBlock>,
    lock: Lockfile,
    run: StancRun,
) -> Seq<DiagnosticView> {
    if was_checked(dialect, blocks, lock, run) {
        let mask = &run.mask;
        let reports = run.reports->0@;
        let wrapper = wrapper_of(bytes, dialect, blocks);
        Seq::new(
            reports.len(),
            |i: int|
                report_view(
                    bytes,
                    mask,
                    run.packages->0@,
                    run.original_block->Ok_0,
                    wrapped_offset(wrapper, offset_view(reports[i].compiled_offset)),
                    reports[i].report,
                ),
        )
    } else {
        seq![]
    }
}

/// What happened fits the file: the text can be cut around its blocks and
/// around what the reports are about, and there is word on every import.
pub open spec fn run_fits(
    bytes: Seq<u8>,
    dialect: Dialect,
    blocks: Seq<TopLevelBlock>,
    run: StancRun,
) -> bool {
    &&& run.mask.wf(bytes)
    &&& dialect == Dialect::Library && is_library_shaped(blocks) ==> ranges_fit(bytes, blocks)
    &&& run.compiled_block matches Ok(block) ==> run.loaded@.len() == imports_of(block).len()
    &&& run.original_block matches Ok(Some(block)) ==> library_fits(bytes, block)
    &&& run.reports matches Some(reports) ==> forall|i: int|
        #![trigger reports@[i]]
        0 <= i < reports@.len() ==> report_fits(
            bytes,
            wrapped_offset(
                wrapper_of(bytes, dialect, blocks),
                offset_view(reports@[i].compiled_offset),
            ),
            reports@[i].report,
        )
}

fn all_loaded(loaded: &Vec<bool>) -> (r: bool)
    ensures
        r == forall|i: int| 0 <= i < loaded@.len() ==> #[trigger] loaded@[i],
{
    let mut k: usize = 0;
    while k < loaded.len()
        invariant
            k <= loaded@.len(),
            forall|i: int| 0 <= i < k ==> #[trigger] loaded@[i],
        decreases loaded.len() - k,
    {
        if !loaded[k] {
            return false;
        }
        k += 1;
    }
    true
}

fn imports_locked(lock: &Lockfile, block: &Option<LibraryBlock>) -> (r: bool)
    ensures
        r == all_locked(*lock, imports_of(*block)),
{
    match block {
        Some(block) => packages_to_load(lock, &block.imports).is_some(),
        None => true,
    }
}

/// The diagnostics that the run of `stanc` on a file leads to.
pub fn compute_stanc_diagnostics(
    source: &str,
    dialect: Dialect,
    blocks: &Vec<TopLevelBlock>,
    lock: &Lockfile,
    run: &StancRun,
) -> (r: Vec<Diagnostic>)
    requires
        run_fits(encode_utf8(source@), dialect, blocks@, *run),
    ensures
        diagnostic_views(r@) == stanc_views(encode_utf8(source@), dialect, blocks@, *lock, *run),
{
    let ghost bytes = encode_utf8(source@);
    let mut out: Vec<Diagnostic> = Vec::new();
    assert(diagnostic_views(out@) =~= Seq::<DiagnosticView>::empty());
    let program = match stanc_program(source, dialect, blocks) {
        Some(program) => program,
        None => {
            return out;
        },
    };
    let compiled = match &run.compiled_block {
        Ok(block) => block,
        Err(_) => {
            return out;
        },
    };
    let original = match &run.original_block {
        Ok(block) => block,
        Err(_) => {
            return out;
        },
    };
    if !imports_locked(lock, compiled) || !all_loaded(&run.loaded) {
        return out;
    }
    let packages = match &run.packages {
        Some(packages) => packages,
        None => {
            return out;
        },
    };
    let reports = match &run.reports {
        Some(reports) => reports,
        None => {
            return out;
        },
    };
    assert(was_checked(dialect, blocks@, *lock, *run));
    let ghost wrapper = wrapper_of(bytes, dialect, blocks@);
    let ghost said = stanc_views(bytes, dialect, blocks@, *lock, *run);
    let mask = &run.mask;
    let starts_vec = line_starts(source);
    let mut k: usize = 0;
    while k < reports.len()
        invariant
            bytes == encode_utf8(source@),
            mask == &run.mask,
            starts_vec@ == line_starts_of(bytes),
            wrapper == wrapper_of(bytes, dialect, blocks@),
            run_fits(bytes, dialect, blocks@, *run),
            was_checked(dialect, blocks@, *lock, *run),
            said == stanc_views(bytes, dialect, blocks@, *lock, *run),
            run.original_block == Ok::<Option<LibraryBlock>, String>(*original),
            run.packages == Some(*packages),
            run.reports == Some(*reports),
            program.wf(),
            forall|offset: Option<int>| #[trigger]
                program.file_offset(offset) == wrapped_offset(wrapper, offset),
            k <= reports@.len(),
            diagnostic_views(out@) == said.subrange(0, k as int),
        decreases reports.len() - k,
    {
        let located = &reports[k];
        assert(reports@[k as int] == *located);
        let offset = program.map(located.compiled_offset);
        let found = to_lsp_diagnostic(
            source,
            mask,
            starts_vec.as_slice(),
            packages,
            original,
            offset,
            &located.report,
        );
        let ghost before = diagnostic_views(out@);
        out.push(found);
        assert(diagnostic_views(out@) =~= before.push(found@));
        assert(diagnostic_views(out@) =~= said.subrange(0, k + 1));
        k += 1;
    }
    assert(said.subrange(0, k as int) =~= said);
    out
}

/// Whether what happened fits the file `source`: it can be cut around its
/// blocks and around what the reports are about, and there is word on every
/// import.
pub fn run_is_usable(
    source: &str,
    dialect: Dialect,
    blocks: &Vec<TopLevelBlock>,
    run: &StancRun,
) -> (r: bool)
    ensures
        r == run_fits(encode_utf8(source@), dialect, blocks@, *run),
{
    let ghost bytes = encode_utf8(source@);
    if !run.mask.belongs_to(source) {
        return false;
    }
    if let Ok(Some(block)) = &run.original_block {
        if !library_is_usable(source, block) {
            return false;
        }
    }
    let complete = match &run.compiled_block {
        Ok(Some(block)) => run.loaded.len() == block.imports.len(),
        Ok(None) => run.loaded.len() == 0,
        Err(_) => true,
    };
    if !complete {
        return false;
    }
    let wrapping = dialect.is_library() && blocks_are_library_shaped(blocks);
    if wrapping && !ranges_are_usable(source, blocks) {
        return false;
    }
    let program = match stanc_program(source, dialect, blocks) {
        Some(program) => program,
        None => StancProgram::AsIs,
    };
    if let Some(reports) = &run.reports {
        let source_bytes = source.as_bytes();
        let length = source_bytes.len();
        let ghost wrapper = wrapper_of(bytes, dialect, blocks@);
        proof {
            encode_utf8_valid_utf8(source@);
            lemma_boundary(bytes, length as int);
        }
        let mut k: usize = 0;
        while k < reports.len()
            invariant
                bytes == encode_utf8(source@),
                source_bytes@ == bytes,
                length == bytes.len(),
                on_boundary(bytes, length as int),
                run.reports == Some(*reports),
                wrapper == wrapper_of(bytes, dialect, blocks@),
                program.wf(),
                forall|offset: Option<int>| #[trigger]
                    program.file_offset(offset) == wrapped_offset(wrapper, offset),
                k <= reports@.len(),
                forall|i: int|
                    #![trigger reports@[i]]
                    0 <= i < k ==> report_fits(
                        bytes,
                        wrapped_offset(wrapper, offset_view(reports@[i].compiled_offset)),
                        reports@[i].report,
                    ),
            decreases reports.len() - k,
        {
            let located = &reports[k];
            assert(reports@[k as int] == *located);
            if let Some(start) = program.map(located.compiled_offset) {
                let columns = if located.report.column_end > located.report.column_start {
                    located.report.column_end - located.report.column_start
                } else {
                    1
                };
                let end = if start < length && columns < length - start {
                    start + columns
                } else {
                    length
                };
                if !span_is_usable(source_bytes, &(start..end)) {
                    assert(!report_fits(
                        bytes,
                        wrapped_offset(wrapper, offset_view(located.compiled_offset)),
                        located.report,
                    ));
                    assert(!run_fits(bytes, dialect, blocks@, *run));
                    return false;
                }
            }
            k += 1;
        }
    }
    true
}

/// What happened fits the document whose file is at `path`.
pub open spec fn document_run_fits(
    path: Option<Seq<char>>,
    bytes: Seq<u8>,
    blocks: Seq<TopLevelBlock>,
    run: StancRun,
) -> bool {
    path matches Some(path) ==> run_fits(bytes, dialect_of_path(path), blocks, run)
}

/// The diagnostics that the run of `stanc` on the document at `uri` leads to:
/// none if no `stanc` was found, and none for a document that is not a file.
pub fn compute_stanc_diagnostics_for_uri(
    stanc: &Option<String>,
    uri: &str,
    source: &str,
    blocks: &Vec<TopLevelBlock>,
    lock: &Lockfile,
    run: &StancRun,
) -> (r: Vec<Diagnostic>)
    requires
        document_run_fits(uri_file_path(uri@), encode_utf8(source@), blocks@, *run),
    ensures
        diagnostic_views(r@) == document_stanc_views(
            *stanc is Some,
            uri_file_path(uri@),
            encode_utf8(source@),
            blocks@,
            *lock,
            *run,
        ),
{
    compute_stanc_diagnostics_for_path(stanc, &uri_to_file_path(uri), source, blocks, lock, run)
}

/// The diagnostics that the run of `stanc` on the document at `uri` leads to;
/// `None` if what happened does not fit the document.
pub fn checked_stanc_diagnostics_for_uri(
    stanc: &Option<String>,
    uri: &str,
    source: &str,
    blocks: &Vec<TopLevelBlock>,
    lock: &Lockfile,
    run: &StancRun,
) -> (r: Option<Vec<Diagnostic>>)
    ensures
        r is Some <==> document_run_fits(
            uri_file_path(uri@),
            encode_utf8(source@),
            blocks@,
            *run,
        ),
        r matches Some(diags) ==> diagnostic_views(diags@) == document_stanc_views(
            *stanc is Some,
            uri_file_path(uri@),
            encode_utf8(source@),
            blocks@,
            *lock,
            *run,
        ),
{
    if let Some(path) = uri_to_file_path(uri) {
        if !run_is_usable(source, Dialect::for_path(path.as_str()), blocks, run) {
            return None;
        }
    }
    Some(compute_stanc_diagnostics_for_uri(stanc, uri, source, blocks, lock, run))
}

/// What the reports on the document whose file is at `path` say.
pub open spec fn document_stanc_views(
    stanc_found: bool,
    path: Option<Seq<char>>,
    bytes: Seq<u8>,
    blocks: Seq<TopLevelBlock>,
    lock: Lockfile,
    run: StancRun,
) -> Seq<DiagnosticView> {
    match path {
        Some(path) => if stanc_found {
            stanc_views(bytes, dialect_of_path(path), blocks, lock, run)
        } else {
            seq![]
        },
        None => seq![],
    }
}

/// The diagnostics that the run of `stanc` on the document whose file is at
/// `path` leads to.
pub fn compute_stanc_diagnostics_for_path(
    stanc: &Option<String>,
    path: &Option<String>,
    source: &str,
    blocks: &Vec<TopLevelBlock>,
    lock: &Lockfile,
    run: &StancRun,
) -> (r: Vec<Diagnostic>)
    requires
        document_run_fits(string_view(*path), encode_utf8(source@), blocks@, *run),
    ensures
        diagnostic_views(r@) == document_stanc_views(
            *stanc is Some,
            string_view(*path),
            encode_utf8(source@),
            blocks@,
            *lock,
            *run,
        ),
{
    if let Some(path) = path {
        if stanc.is_some() {
            return compute_stanc_diagnostics(
                source,
                Dialect::for_path(path.as_str()),
                blocks,
                lock,
                run,
            );
        }
    }
    let none: Vec<Diagnostic> = Vec::new();
    assert(diagnostic_views(none@) =~= Seq::<DiagnosticView>::empty());
    none
}

// ---------------------------------------------------------------------------
// Running it
// ---------------------------------------------------------------------------

/// A character that Unicode counts as white space.
pub uninterp spec fn is_white_space(c: char) -> bool;

/// `char::is_whitespace` depends on the character alone: it says whether it
/// has Unicode's property `White_Space`. The contract names the answer; of
/// ASCII characters it gives it: the space and the five control characters
/// from tab to carriage return have the property, and no others do.
pub assume_specification[ char::is_whitespace ](c: char) -> (r: bool)
    ensures
        r == is_white_space(c),
        (c as u32) < 0x80 ==> r == (c == ' ' || 0x09 <= c as u32 <= 0x0d),
;

/// The text has a character that is not white space.
pub open spec fn has_ink(text: Seq<char>) -> bool {
    exists|i: int| 0 <= i < text.len() && !is_white_space(#[trigger] text[i])
}

fn is_blank(text: &str) -> (r: bool)
    ensures
        r == !has_ink(text@),
{
    for c in it: text.chars()
        invariant
            it.seq() == text@,
            forall|j: int| 0 <= j < it.index() ==> is_white_space(#[trigger] text@[j]),
    {
        if !c.is_whitespace() {
            assert(!is_white_space(text@[it.index()]));
            return false;
        }
    }
    true
}

/// What a run of `stanc` that was successful or not has to say: nothing if it
/// was; otherwise what it wrote to its error stream, or to its output stream
/// if that is blank.
pub fn stanc_output<'a>(success: bool, stderr: &'a str, stdout: &'a str) -> (r: Option<&'a str>)
    ensures
        r is None <==> success,
        r matches Some(raw) ==> raw@ == (if has_ink(stderr@) {
            stderr@
        } else {
            stdout@
        }),
{
    if success {
        return None;
    }
    if is_blank(stderr) {
        Some(stdout)
    } else {
        Some(stderr)
    }
}

// ---------------------------------------------------------------------------
// Finding it
// ---------------------------------------------------------------------------

/// An entry of the directory that CmdStan is installed in.
#[derive(Debug)]
pub struct CmdstanEntry {
    /// The entry's name.
    pub name: String,
    /// Whether it is a directory.
    pub is_dir: bool,
    /// The `stanc` in it, and whether that is a file.
    pub stanc: FileCandidate,
}

/// The entry is an installed version: a directory called `cmdstan-...`.
pub open spec fn is_version(entry: CmdstanEntry) -> bool {
    entry.is_dir && occurs_at(encode_utf8(entry.name@), encode_utf8("cmdstan-"@), 0)
}

/// The newest version among the first `n` entries: the one that is last in
/// the order of versions.
pub open spec fn newest_version(entries: Seq<CmdstanEntry>, n: int) -> Option<int>
    decreases n,
{
    if n <= 0 {
        None
    } else {
        let before = newest_version(entries, n - 1);
        if !is_version(entries[n - 1]) {
            before
        } else {
            match before {
                Some(k) => if version_le(entries[k].name@, entries[n - 1].name@) {
                    Some(n - 1)
                } else {
                    Some(k)
                },
                None => Some(n - 1),
            }
        }
    }
}

/// The `stanc` of the newest version, if it is there. An older version is not
/// tried.
pub open spec fn newest_stanc(entries: Seq<CmdstanEntry>) -> Option<Seq<char>> {
    match newest_version(entries, entries.len() as int) {
        Some(k) => if entries[k].stanc.is_file {
            Some(entries[k].stanc.path@)
        } else {
            None
        },
        None => None,
    }
}

proof fn lemma_newest_version(entries: Seq<CmdstanEntry>, n: int)
    requires
        0 <= n <= entries.len(),
    ensures
        match newest_version(entries, n) {
            Some(k) => {
                &&& 0 <= k < n
                &&& is_version(entries[k])
                &&& forall|j: int|
                    0 <= j < n && is_version(#[trigger] entries[j]) ==> version_le(
                        entries[j].name@,
                        entries[k].name@,
                    )
            },
            None => forall|j: int| 0 <= j < n ==> !is_version(#[trigger] entries[j]),
        },
    decreases n,
{
    if n > 0 {
        lemma_newest_version(entries, n - 1);
        let last = entries[n - 1];
        if is_version(last) {
            law_version_order(last.name@, last.name@, last.name@);
            if let Some(k) = newest_version(entries, n - 1) {
                law_version_order(entries[k].name@, last.name@, last.name@);
                assert forall|j: int|
                    0 <= j < n - 1 && is_version(#[trigger] entries[j]) && version_le(
                        entries[k].name@,
                        last.name@,
                    ) implies version_le(entries[j].name@, last.name@) by {
                    law_version_order(entries[j].name@, entries[k].name@, last.name@);
                }
            }
        }
    }
}

/// The newest version is an installed version, and no other one comes after
/// it in the order of versions.
pub proof fn law_newest_version(entries: Seq<CmdstanEntry>)
    ensures
        match newest_version(entries, entries.len() as int) {
            Some(k) => {
                &&& 0 <= k < entries.len()
                &&& is_version(entries[k])
                &&& forall|j: int|
                    0 <= j < entries.len() && is_version(#[trigger] entries[j]) ==> version_le(
                        entries[j].name@,
                        entries[k].name@,
                    )
            },
            None => forall|j: int| 0 <= j < entries.len() ==> !is_version(#[trigger] entries[j]),
        },
{
    lemma_newest_version(entries, entries.len() as int);
}

/// The `stanc` of the newest version of CmdStan that is installed.
pub fn newest_cmdstan_stanc(entries: &Vec<CmdstanEntry>) -> (r: Option<&str>)
    ensures
        match r {
            Some(path) => newest_stanc(entries@) == Some(path@),
            None => newest_stanc(entries@) is None,
        },
{
    let mut newest: Option<usize> = None;
    let mut k: usize = 0;
    while k < entries.len()
        invariant
            k <= entries@.len(),
            newest matches Some(j) ==> j < k,
            offset_view(newest) == newest_version(entries@, k as int),
        decreases entries.len() - k,
    {
        let entry = &entries[k];
        if entry.is_dir && matches_at(entry.name.as_str().as_bytes(), 0, "cmdstan-".as_bytes()) {
            newest = match newest {
                Some(j) => if version_may_precede(entries[j].name.as_str(), entry.name.as_str()) {
                    Some(k)
                } else {
                    Some(j)
                },
                None => Some(k),
            };
        }
        k += 1;
    }
    match newest {
        Some(j) => if entries[j].stanc.is_file {
            Some(entries[j].stanc.path.as_str())
        } else {
            None
        },
        None => None,
    }
}

/// The `stanc` on the search path: the first of `candidates`, one for each of
/// its directories, that is a file.
pub fn find_on_path(candidates: &Vec<FileCandidate>) -> (r: Option<&str>)
    ensures
        match first_file(candidates@, 0) {
            Some(k) => r is Some && r->0@ == candidates@[k].path@,
            None => r is None,
        },
{
    find_first_file(candidates)
}

/// The `stanc` to use: the configured one if it is a file, or else the first
/// one on the search path, or else that of the newest CmdStan.
pub open spec fn chosen_stanc(
    configured: Option<FileCandidate>,
    on_path: Seq<FileCandidate>,
    cmdstan: Seq<CmdstanEntry>,
) -> Option<Seq<char>> {
    if configured matches Some(candidate) && candidate.is_file {
        Some(configured->0.path@)
    } else {
        match first_file(on_path, 0) {
            Some(k) => Some(on_path[k].path@),
            None => newest_stanc(cmdstan),
        }
    }
}

/// Choose the `stanc` to use.
pub fn locate_stanc<'a>(
    configured: &'a Option<FileCandidate>,
    on_path: &'a Vec<FileCandidate>,
    cmdstan: &'a Vec<CmdstanEntry>,
) -> (r: Option<&'a str>)
    ensures
        match r {
            Some(path) => chosen_stanc(*configured, on_path@, cmdstan@) == Some(path@),
            None => chosen_stanc(*configured, on_path@, cmdstan@) is None,
        },
{
    if let Some(candidate) = configured {
        if candidate.is_file {
            return Some(candidate.path.as_str());
        }
    }
    match find_on_path(on_path) {
        Some(path) => Some(path),
        None => newest_cmdstan_stanc(cmdstan),
    }
}

// ---------------------------------------------------------------------------
// Laws
// ---------------------------------------------------------------------------

/// Nothing is said about a file for which no program could be checked: one
/// with an import that does not resolve, or a library with a forbidden block.
/// If one was checked, each report is shown once, in order.
pub proof fn law_one_diagnostic_per_report(
    bytes: Seq<u8>,
    dialect: Dialect,
    blocks: Seq<TopLevelBlock>,
    lock: Lockfile,
    run: StancRun,
)
    ensures
        stanc_views(bytes, dialect, blocks, lock, run).len() == (if was_checked(
            dialect,
            blocks,
            lock,
            run,
        ) {
            run.reports->0@.len()
        } else {
            0
        }),
        dialect == Dialect::Library && !is_library_shaped(blocks) ==> stanc_views(
            bytes,
            dialect,
            blocks,
            lock,
            run,
        ).len() == 0,
        run.compiled_block matches Ok(block) && !all_locked(lock, imports_of(block))
            ==> stanc_views(bytes, dialect, blocks, lock, run).len() == 0,
{
}

/// A report on code that came from an imported package is shown at the import
/// of that package, and names it.
pub proof fn law_package_report_is_shown_at_its_import(
    bytes: Seq<u8>,
    mask: &CodeMask,
    packages: Seq<PackageLines>,
    block: LibraryBlock,
    report: StancReport,
    k: int,
)
    requires
        package_of_line(packages, report.line, 0) == Some(k),
        import_index(block.imports@, packages[k].package@, 0) is Some,
    ensures
        ({
            let package = packages[k].package@;
            let view = report_view(bytes, mask, packages, Some(block), None, report);
            &&& view.range == shown_range(bytes, import_span(bytes, mask, block, package))
            &&& view.message == package_message(package, report.message@)
        }),
{
}

/// A report on a byte that was copied out of a library is shown at that very
/// byte of the file.
pub proof fn law_report_is_shown_where_it_belongs(
    bytes: Seq<u8>,
    mask: &CodeMask,
    blocks: Seq<TopLevelBlock>,
    packages: Seq<PackageLines>,
    block: Option<LibraryBlock>,
    compiled: int,
    report: StancReport,
)
    requires
        ranges_fit(bytes, blocks),
        is_library_shaped(blocks),
        bytes.len() <= usize::MAX,
        wrapped(bytes, blocks)->0.bytes.len() <= usize::MAX,
        is_copied(wrapped(bytes, blocks)->0.segments, compiled),
    ensures
        ({
            let w = wrapped(bytes, blocks)->0;
            let offset = wrapped_offset(Some(w), Some(compiled));
            &&& offset matches Some(x) && 0 <= x < bytes.len() && bytes[x] == w.bytes[compiled]
                && report_view(bytes, mask, packages, block, offset, report).range.start == position_at(
                bytes,
                x,
            )
        }),
{
    let w = wrapped(bytes, blocks)->0;
    law_wrapping_is_faithful(bytes, blocks);
    law_mapping_leads_back(w, bytes, compiled);
}

/// A program was put together for the file and `stanc` rejected it: a library
/// holds nothing but `functions { }` and `library { }` blocks, both
/// `library { }` blocks could be read, every imported package is recorded in
/// the lockfile and was loaded, and there are reports.
pub open spec fn program_was_rejected(
    dialect: Dialect,
    blocks: Seq<TopLevelBlock>,
    lock: Lockfile,
    run: StancRun,
) -> bool {
    &&& dialect == Dialect::Library ==> forall|k: int|
        0 <= k < blocks.len() ==> (#[trigger] blocks[k]).kind == BlockKind::Functions
            || blocks[k].kind == BlockKind::Library
    &&& run.compiled_block is Ok
    &&& run.original_block is Ok
    &&& run.compiled_block matches Ok(Some(block)) ==> forall|i: int|
        #![trigger block.imports@[i]]
        0 <= i < block.imports@.len() ==> run.loaded@[i] && exists|p: int|
            0 <= p < lock.packages@.len() && (#[trigger] lock.packages@[p]).name@
                == block.imports@[i].name@
    &&& run.packages is Some
    &&& run.reports is Some
}

/// There is something to say exactly if a program was rejected.
pub proof fn law_when_reports_are_shown(
    bytes: Seq<u8>,
    dialect: Dialect,
    blocks: Seq<TopLevelBlock>,
    lock: Lockfile,
    run: StancRun,
)
    ensures
        was_checked(dialect, blocks, lock, run) <==> program_was_rejected(
            dialect,
            blocks,
            lock,
            run,
        ),
        !program_was_rejected(dialect, blocks, lock, run) ==> stanc_views(
            bytes,
            dialect,
            blocks,
            lock,
            run,
        ).len() == 0,
{
    if let Ok(Some(block)) = run.compiled_block {
        assert forall|i: int| 0 <= i < block.imports@.len() implies (locked_index(
            lock.packages@,
            (#[trigger] block.imports@[i]).name@,
            0,
        ) is Some <==> exists|p: int|
            0 <= p < lock.packages@.len() && (#[trigger] lock.packages@[p]).name@
                == block.imports@[i].name@) by {
            law_locked_index(lock.packages@, block.imports@[i].name@, 0);
        }
        if was_checked(dialect, blocks, lock, run) {
            assert forall|i: int|
                #![trigger block.imports@[i]]
                0 <= i < block.imports@.len() implies run.loaded@[i] by {
                assert(run.loaded@[i]);
            }
        }
        if program_was_rejected(dialect, blocks, lock, run) {
            assert forall|i: int| 0 <= i < block.imports@.len() implies #[trigger] run.loaded@[i] by {
                let import = block.imports@[i];
            }
        }
    }
}

/// The report leads to offset `x` of the file: to the offset that the
/// compiler's source map gives or, in a library, to where the byte at that
/// offset of the rewritten program was copied from.
pub open spec fn leads_to(
    bytes: Seq<u8>,
    dialect: Dialect,
    blocks: Seq<TopLevelBlock>,
    located: LocatedReport,
    x: int,
) -> bool {
    located.compiled_offset matches Some(c) && match dialect {
        Dialect::Laplace => x == c,
        Dialect::Library => origin_of(wrapped(bytes, blocks)->0.segments, c as int) == Some(x),
    }
}

/// Each report that leads to a place of the file is shown there, in its own
/// words: the `i`-th diagnostic has the severity and the message of the `i`-th
/// report, it starts where that report leads, and it is as long as the columns
/// of that report, at least one, as far as the text goes.
pub proof fn law_report_is_shown_where_it_leads(
    bytes: Seq<u8>,
    dialect: Dialect,
    blocks: Seq<TopLevelBlock>,
    lock: Lockfile,
    run: StancRun,
    i: int,
    x: int,
)
    requires
        program_was_rejected(dialect, blocks, lock, run),
        0 <= i < run.reports->0@.len(),
        leads_to(bytes, dialect, blocks, run.reports->0@[i], x),
    ensures
        ({
            let views = stanc_views(bytes, dialect, blocks, lock, run);
            let report = run.reports->0@[i].report;
            let columns = if report.column_start < report.column_end {
                report.column_end - report.column_start
            } else {
                1
            };
            let n = bytes.len() as int;
            &&& views.len() == run.reports->0@.len()
            &&& views[i].source == "stanc"@
            &&& views[i].severity == report.severity
            &&& views[i].message == report.message@
            &&& x <= n ==> views[i].range.start == position_at(bytes, x)
            &&& x > n ==> views[i].range.start == position_at(bytes, n)
            &&& x + columns <= n ==> views[i].range.end == position_at(bytes, x + columns)
            &&& x + columns > n ==> views[i].range.end == position_at(bytes, n)
        }),
{
    law_when_reports_are_shown(bytes, dialect, blocks, lock, run);
}

/// Line `line` of the generated program came from the `k`-th package, and from
/// none before it.
pub open spec fn line_is_from(packages: Seq<PackageLines>, line: usize, k: int) -> bool {
    &&& 0 <= k < packages.len()
    &&& packages[k].first <= line <= packages[k].last
    &&& forall|j: int|
        0 <= j < k ==> !((#[trigger] packages[j]).first <= line <= packages[j].last)
}

proof fn lemma_line_is_from(packages: Seq<PackageLines>, line: usize, from: int)
    requires
        0 <= from <= packages.len(),
        forall|j: int|
            0 <= j < from ==> !((#[trigger] packages[j]).first <= line <= packages[j].last),
    ensures
        match package_of_line(packages, line, from) {
            Some(k) => line_is_from(packages, line, k),
            None => forall|k: int| !#[trigger] line_is_from(packages, line, k),
        },
    decreases packages.len() - from,
{
    if from < packages.len() && !(packages[from].first <= line <= packages[from].last) {
        lemma_line_is_from(packages, line, from + 1);
    }
}

/// A report that leads nowhere in the file, on a line that came from an
/// imported package, is shown at the import of that package, and its message
/// names the package in front of its own words.
pub proof fn law_report_on_a_package_is_shown_at_its_import(
    bytes: Seq<u8>,
    dialect: Dialect,
    blocks: Seq<TopLevelBlock>,
    lock: Lockfile,
    run: StancRun,
    i: int,
    k: int,
)
    requires
        program_was_rejected(dialect, blocks, lock, run),
        0 <= i < run.reports->0@.len(),
        forall|x: int| !#[trigger] leads_to(bytes, dialect, blocks, run.reports->0@[i], x),
        line_is_from(run.packages->0@, run.reports->0@[i].report.line, k),
        is_imported(run.original_block->Ok_0, run.packages->0@[k].package@),
    ensures
        ({
            let views = stanc_views(bytes, dialect, blocks, lock, run);
            let report = run.reports->0@[i].report;
            let package = run.packages->0@[k].package@;
            let span = import_span(bytes, &run.mask, run.original_block->Ok_0->0, package);
            &&& views.len() == run.reports->0@.len()
            &&& views[i].source == "stanc"@
            &&& views[i].severity == report.severity
            &&& views[i].message == "in imported package `"@ + package + "`: "@ + report.message@
            &&& views[i].range == shown_range(bytes, span)
        }),
{
    let located = run.reports->0@[i];
    let report = located.report;
    let packages = run.packages->0@;
    let package = packages[k].package@;
    law_when_reports_are_shown(bytes, dialect, blocks, lock, run);
    lemma_leads_nowhere(bytes, dialect, blocks, located);
    lemma_line_is_from(packages, report.line, 0);
    let found = package_of_line(packages, report.line, 0);
    assert(found == Some(k));
    law_import_index(run.original_block->Ok_0->0.imports@, package, 0);
    let parts = seq!["in imported package `"@, package, "`: "@, report.message@];
    lemma_concat_four(parts[0], parts[1], parts[2], parts[3]);
}

/// A report that leads nowhere in the file, on a line that came from no
/// imported package, is shown at the start of the file, in its own words.
pub proof fn law_report_without_a_place_is_shown_at_the_start(
    bytes: Seq<u8>,
    dialect: Dialect,
    blocks: Seq<TopLevelBlock>,
    lock: Lockfile,
    run: StancRun,
    i: int,
)
    requires
        program_was_rejected(dialect, blocks, lock, run),
        0 <= i < run.reports->0@.len(),
        forall|x: int| !#[trigger] leads_to(bytes, dialect, blocks, run.reports->0@[i], x),
        forall|k: int| #[trigger]
            line_is_from(run.packages->0@, run.reports->0@[i].report.line, k) ==> !is_imported(
                run.original_block->Ok_0,
                run.packages->0@[k].package@,
            ),
    ensures
        ({
            let views = stanc_views(bytes, dialect, blocks, lock, run);
            let report = run.reports->0@[i].report;
            &&& views.len() == run.reports->0@.len()
            &&& views[i].source == "stanc"@
            &&& views[i].severity == report.severity
            &&& views[i].message == report.message@
            &&& views[i].range.start == position_at(bytes, 0)
            &&& views[i].range.end == position_at(bytes, 0)
        }),
{
    let located = run.reports->0@[i];
    let report = located.report;
    let packages = run.packages->0@;
    law_when_reports_are_shown(bytes, dialect, blocks, lock, run);
    lemma_leads_nowhere(bytes, dialect, blocks, located);
    lemma_line_is_from(packages, report.line, 0);
    if let Some(k) = package_of_line(packages, report.line, 0) {
        assert(line_is_from(packages, report.line, k));
        if let Some(block) = run.original_block->Ok_0 {
            law_import_index(block.imports@, packages[k].package@, 0);
        }
    }
}

proof fn lemma_leads_nowhere(
    bytes: Seq<u8>,
    dialect: Dialect,
    blocks: Seq<TopLevelBlock>,
    located: LocatedReport,
)
    requires
        dialect == Dialect::Library ==> is_library_shaped(blocks),
        forall|x: int| !#[trigger] leads_to(bytes, dialect, blocks, located, x),
    ensures
        wrapped_offset(
            wrapper_of(bytes, dialect, blocks),
            offset_view(located.compiled_offset),
        ) is None,
{
    if let Some(x) = wrapped_offset(
        wrapper_of(bytes, dialect, blocks),
        offset_view(located.compiled_offset),
    ) {
        assert(leads_to(bytes, dialect, blocks, located, x));
    }
}

/// Two reports that lead to places of the file are never shown as one: where
/// their messages or their severities differ, so do their diagnostics.
pub proof fn law_reports_are_told_apart(
    bytes: Seq<u8>,
    dialect: Dialect,
    blocks: Seq<TopLevelBlock>,
    lock: Lockfile,
    run: StancRun,
    i: int,
    j: int,
    x: int,
    y: int,
)
    requires
        program_was_rejected(dialect, blocks, lock, run),
        0 <= i < run.reports->0@.len(),
        0 <= j < run.reports->0@.len(),
        leads_to(bytes, dialect, blocks, run.reports->0@[i], x),
        leads_to(bytes, dialect, blocks, run.reports->0@[j], y),
        run.reports->0@[i].report.message@ != run.reports->0@[j].report.message@
            || run.reports->0@[i].report.severity != run.reports->0@[j].report.severity,
    ensures
        stanc_views(bytes, dialect, blocks, lock, run)[i] != stanc_views(
            bytes,
            dialect,
            blocks,
            lock,
            run,
        )[j],
{
    law_report_is_shown_where_it_leads(bytes, dialect, blocks, lock, run, i, x);
    law_report_is_shown_where_it_leads(bytes, dialect, blocks, lock, run, j, y);
}

/// A document has the reports of its file, read in the dialect that the file's
/// extension gives; none if it is not a file, and none if no `stanc` was found.
pub proof fn law_document_reports(
    path: Seq<char>,
    bytes: Seq<u8>,
    blocks: Seq<TopLevelBlock>,
    lock: Lockfile,
    run: StancRun,
)
    ensures
        extension_of(path) == Some("laplacelib"@) ==> document_stanc_views(
            true,
            Some(path),
            bytes,
            blocks,
            lock,
            run,
        ) == stanc_views(bytes, Dialect::Library, blocks, lock, run),
        extension_of(path) != Some("laplacelib"@) ==> document_stanc_views(
            true,
            Some(path),
            bytes,
            blocks,
            lock,
            run,
        ) == stanc_views(bytes, Dialect::Laplace, blocks, lock, run),
        document_stanc_views(false, Some(path), bytes, blocks, lock, run).len() == 0,
        document_stanc_views(true, None, bytes, blocks, lock, run).len() == 0,
{
}

/// Text has ink exactly if one of its parts has, and a single character has
/// exactly if it is not white space.
pub proof fn law_ink(a: Seq<char>, b: Seq<char>, c: char)
    ensures
        !has_ink(seq![]),
        has_ink(seq![c]) <==> !is_white_space(c),
        has_ink(a + b) <==> has_ink(a) || has_ink(b),
{
    if has_ink(seq![c]) {
        let i = choose|i: int| 0 <= i < 1 && !is_white_space(#[trigger] seq![c][i]);
        assert(seq![c][i] == c);
    }
    if !is_white_space(c) {
        assert(!is_white_space(seq![c][0]));
    }
    if has_ink(a) {
        let i = choose|i: int| 0 <= i < a.len() && !is_white_space(#[trigger] a[i]);
        assert((a + b)[i] == a[i]);
    }
    if has_ink(b) {
        let i = choose|i: int| 0 <= i < b.len() && !is_white_space(#[trigger] b[i]);
        assert((a + b)[a.len() + i] == b[i]);
    }
    if has_ink(a + b) {
        let i = choose|i: int| 0 <= i < (a + b).len() && !is_white_space(#[trigger] (a + b)[i]);
        if i < a.len() {
            assert(!is_white_space(a[i]));
        } else {
            assert(!is_white_space(b[i - a.len()]));
        }
    }
}

/// The entry is a directory whose name starts with `cmdstan-`.
pub open spec fn is_installed_version(entry: CmdstanEntry) -> bool {
    let name = encode_utf8(entry.name@);
    let start = encode_utf8("cmdstan-"@);
    &&& entry.is_dir
    &&& start.len() <= name.len()
    &&& forall|k: int| 0 <= k < start.len() ==> #[trigger] name[k] == start[k]
}

proof fn lemma_installed_version(entry: CmdstanEntry)
    ensures
        is_version(entry) <==> is_installed_version(entry),
{
    let name = encode_utf8(entry.name@);
    let start = encode_utf8("cmdstan-"@);
    if is_version(entry) {
        assert forall|k: int| 0 <= k < start.len() implies #[trigger] name[k] == start[k] by {
            assert(name.subrange(0, start.len() as int)[k] == name[k]);
        }
    }
    if is_installed_version(entry) {
        assert(name.subrange(0, start.len() as int) =~= start);
    }
}

/// The `stanc` that is used: the configured one if it is a file; otherwise the
/// first file on the search path; otherwise that of the newest installed
/// version, if it is a file; otherwise none.
pub proof fn law_which_stanc_is_used(
    configured: Option<FileCandidate>,
    on_path: Seq<FileCandidate>,
    cmdstan: Seq<CmdstanEntry>,
)
    ensures
        ({
            let chosen = chosen_stanc(configured, on_path, cmdstan);
            let settled = configured matches Some(c) && c.is_file;
            &&& settled ==> chosen == Some(configured->0.path@)
            &&& forall|k: int|
                !settled && 0 <= k < on_path.len() && (#[trigger] on_path[k]).is_file && (forall|
                    j: int,
                |
                    0 <= j < k ==> !(#[trigger] on_path[j]).is_file) ==> chosen == Some(
                    on_path[k].path@,
                )
            &&& !settled && (forall|j: int|
                0 <= j < on_path.len() ==> !(#[trigger] on_path[j]).is_file) ==> {
                &&& (forall|j: int|
                    0 <= j < cmdstan.len() ==> !is_installed_version(#[trigger] cmdstan[j]))
                    ==> chosen is None
                &&& (exists|j: int|
                    0 <= j < cmdstan.len() && is_installed_version(#[trigger] cmdstan[j]))
                    ==> exists|k: int|
                    {
                        &&& 0 <= k < cmdstan.len()
                        &&& is_installed_version(#[trigger] cmdstan[k])
                        &&& forall|j: int|
                            0 <= j < cmdstan.len() && is_installed_version(#[trigger] cmdstan[j])
                                ==> version_le(cmdstan[j].name@, cmdstan[k].name@)
                        &&& chosen == (if cmdstan[k].stanc.is_file {
                            Some(cmdstan[k].stanc.path@)
                        } else {
                            None
                        })
                    }
            }
        }),
{
    law_first_file(on_path);
    law_newest_version(cmdstan);
    assert forall|j: int| 0 <= j < cmdstan.len() implies (is_version(#[trigger] cmdstan[j])
        <==> is_installed_version(cmdstan[j])) by {
        lemma_installed_version(cmdstan[j]);
    }
}

/// What happened fits a file if the mask is that of its text, the blocks of a
/// library start and end between characters, there is word on every import,
/// the `library { }` block lies in the text, and every report that leads to a
/// place of the file starts and ends between characters there.
pub proof fn law_what_run_fits(
    bytes: Seq<u8>,
    dialect: Dialect,
    blocks: Seq<TopLevelBlock>,
    run: StancRun,
)
    requires
        run.mask.wf(bytes),
        dialect == Dialect::Library ==> forall|k: int|
            #![trigger blocks[k]]
            0 <= k < blocks.len() ==> on_boundary(bytes, blocks[k].byte_range.start as int)
                && on_boundary(bytes, blocks[k].byte_range.end as int) && on_boundary(
                bytes,
                blocks[k].body_range.start as int,
            ) && on_boundary(bytes, blocks[k].body_range.end as int),
        run.compiled_block matches Ok(Some(block)) ==> run.loaded@.len() == block.imports@.len(),
        run.compiled_block matches Ok(None) ==> run.loaded@.len() == 0,
        run.original_block matches Ok(Some(block)) ==> block.byte_range.start
            <= block.byte_range.end && on_boundary(bytes, block.byte_range.start as int)
            && on_boundary(bytes, block.byte_range.end as int),
        on_boundary(bytes, bytes.len() as int),
        dialect == Dialect::Library ==> wrapped(bytes, blocks) is Some,
        run.reports matches Some(reports) ==> forall|i: int, x: int|
            #![trigger leads_to(bytes, dialect, blocks, reports@[i], x)]
            0 <= i < reports@.len() && leads_to(bytes, dialect, blocks, reports@[i], x) ==> {
                let report = reports@[i].report;
                let columns = if report.column_start < report.column_end {
                    report.column_end - report.column_start
                } else {
                    1
                };
                &&& x <= bytes.len() ==> on_boundary(bytes, x)
                &&& x + columns <= bytes.len() ==> on_boundary(bytes, x + columns)
            },
    ensures
        run_fits(bytes, dialect, blocks, run),
{
    if let Some(reports) = run.reports {
        assert forall|i: int|
            #![trigger reports@[i]]
            0 <= i < reports@.len() implies report_fits(
            bytes,
            wrapped_offset(
                wrapper_of(bytes, dialect, blocks),
                offset_view(reports@[i].compiled_offset),
            ),
            reports@[i].report,
        ) by {
            if let Some(x) = wrapped_offset(
                wrapper_of(bytes, dialect, blocks),
                offset_view(reports@[i].compiled_offset),
            ) {
                assert(leads_to(bytes, dialect, blocks, reports@[i], x));
            }
        }
    }
}

/// What happened fits a document if it fits its file, read in the dialect that
/// the file's extension gives; it fits every document that is not a file.
pub proof fn law_what_document_run_fits(
    path: Seq<char>,
    bytes: Seq<u8>,
    blocks: Seq<TopLevelBlock>,
    run: StancRun,
)
    ensures
        extension_of(path) == Some("laplacelib"@) ==> document_run_fits(
            Some(path),
            bytes,
            blocks,
            run,
        ) == run_fits(bytes, Dialect::Library, blocks, run),
        extension_of(path) != Some("laplacelib"@) ==> document_run_fits(
            Some(path),
            bytes,
            blocks,
            run,
        ) == run_fits(bytes, Dialect::Laplace, blocks, run),
        document_run_fits(None, bytes, blocks, run),
{
}

} // verus!
