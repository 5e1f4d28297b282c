//! The declaration scanner: which names a block declares.
//!
//! The scan is shallow. A declaration is a statement that starts with a type
//! keyword; its name is what is left once constraints, dimensions and further
//! type keywords are passed over. Types, dimensions and constraints
//! themselves are never looked at.

use crate::mask::CodeMask;
use crate::text::{
    is_ascii_whitespace, is_ident_byte, is_ident_char, is_space_byte, lemma_ascii_run, offset_view,
    str_eq, substring, text_between, texts,
};
use std::ops::Range;
use vstd::prelude::*;
use vstd::string::*;
use vstd::utf8::*;

verus! {

/// Appending a character to a string: `String::push` adds `c` at the end and
/// changes nothing else.
pub assume_specification[ String::push ](s: &mut String, c: char)
    ensures
        final(s)@ == old(s)@.push(c),
;

/// The type keywords that can start a declaration. Compound types
/// (`array[N] real x`) chain more than one of them.
pub const STAN_TYPE_KEYWORDS: [&'static str; 20] = [
    "int",
    "real",
    "complex",
    "vector",
    "row_vector",
    "matrix",
    "complex_vector",
    "complex_row_vector",
    "complex_matrix",
    "array",
    "ordered",
    "positive_ordered",
    "simplex",
    "unit_vector",
    "cholesky_factor_corr",
    "cholesky_factor_cov",
    "corr_matrix",
    "cov_matrix",
    "void",
    "tuple",
];

/// `word` is a type keyword.
pub open spec fn is_type_word(word: Seq<char>) -> bool {
    exists|i: int|
        0 <= i < STAN_TYPE_KEYWORDS@.len() && (#[trigger] STAN_TYPE_KEYWORDS@[i])@ == word
}

/// Whether `word` is a type keyword.
pub fn is_type_keyword(word: &str) -> (r: bool)
    ensures
        r == is_type_word(word@),
{
    let keywords = STAN_TYPE_KEYWORDS;
    let mut i: usize = 0;
    while i < keywords.len()
        invariant
            keywords == STAN_TYPE_KEYWORDS,
            i <= keywords@.len(),
            forall|j: int| 0 <= j < i ==> (#[trigger] STAN_TYPE_KEYWORDS@[j])@ != word@,
        decreases keywords.len() - i,
    {
        if str_eq(keywords[i], word) {
            assert(STAN_TYPE_KEYWORDS@[i as int]@ == word@);
            return true;
        }
        i += 1;
    }
    false
}

// ---------------------------------------------------------------------------
// Statements
// ---------------------------------------------------------------------------

/// The statements between `i` and `end`, when the current one began at
/// `start` and `depth` brackets are open.
///
/// A statement ends before a `;` outside all brackets, or behind a `}` that
/// closes the last open bracket (a compound statement has no `;` of its own).
/// `)` and `]` never end one.
pub open spec fn statements_from(
    bytes: Seq<u8>,
    mask: &CodeMask,
    i: int,
    end: int,
    start: int,
    depth: int,
) -> Seq<Range<usize>>
    decreases end - i,
{
    if i >= end {
        if start < end {
            seq![Range { start: start as usize, end: end as usize }]
        } else {
            seq![]
        }
    } else if !mask.code(i) {
        statements_from(bytes, mask, i + 1, end, start, depth)
    } else if bytes[i] == 0x28 || bytes[i] == 0x5b || bytes[i] == 0x7b {
        statements_from(bytes, mask, i + 1, end, start, depth + 1)
    } else if bytes[i] == 0x29 || bytes[i] == 0x5d {
        statements_from(bytes, mask, i + 1, end, start, depth - 1)
    } else if bytes[i] == 0x7d {
        if depth <= 1 {
            seq![Range { start: start as usize, end: (i + 1) as usize }] + statements_from(
                bytes,
                mask,
                i + 1,
                end,
                i + 1,
                0,
            )
        } else {
            statements_from(bytes, mask, i + 1, end, start, depth - 1)
        }
    } else if bytes[i] == 0x3b && depth == 0 {
        seq![Range { start: start as usize, end: i as usize }] + statements_from(
            bytes,
            mask,
            i + 1,
            end,
            i + 1,
            0,
        )
    } else {
        statements_from(bytes, mask, i + 1, end, start, depth)
    }
}

/// The statements of the part `range` of a text.
pub open spec fn top_level_statements(
    bytes: Seq<u8>,
    mask: &CodeMask,
    range: Range<usize>,
) -> Seq<Range<usize>> {
    statements_from(bytes, mask, range.start as int, range.end as int, range.start as int, 0)
}

/// Split the part `range` of `source` into its top-level statements.
pub fn split_top_level_statements(source: &str, mask: &CodeMask, range: Range<usize>) -> (r: Vec<
    Range<usize>,
>)
    requires
        mask.wf(encode_utf8(source@)),
        range.start < range.end ==> range.end <= encode_utf8(source@).len(),
    ensures
        r@ == top_level_statements(encode_utf8(source@), mask, range),
{
    let bytes = source.as_bytes();
    let end = range.end;
    let mut out: Vec<Range<usize>> = Vec::new();
    let mut depth: i128 = 0;
    let mut start: usize = range.start;
    let mut i: usize = range.start;
    while i < end
        invariant
            bytes@ == encode_utf8(source@),
            mask.wf(bytes@),
            end == range.end,
            range.start < end ==> end <= bytes@.len(),
            range.start <= i,
            range.start <= end ==> i <= end,
            -(i as int) <= depth <= i,
            out@ + statements_from(bytes@, mask, i as int, end as int, start as int, depth as int)
                == top_level_statements(bytes@, mask, range),
        decreases end - i,
    {
        let ghost before = out@;
        let ghost rest = statements_from(
            bytes@,
            mask,
            i as int,
            end as int,
            start as int,
            depth as int,
        );
        if mask.is_real(i) {
            let b = bytes[i];
            if b == 0x28 || b == 0x5b || b == 0x7b {
                depth += 1;
            } else if b == 0x29 || b == 0x5d {
                depth -= 1;
            } else if b == 0x7d {
                depth -= 1;
                if depth <= 0 {
                    let statement = start..i + 1;
                    out.push(statement);
                    start = i + 1;
                    depth = 0;
                    proof {
                        let tail = statements_from(
                            bytes@,
                            mask,
                            i + 1,
                            end as int,
                            i + 1,
                            0,
                        );
                        assert(rest == seq![statement] + tail);
                        assert(before + rest =~= out@ + tail);
                    }
                }
            } else if b == 0x3b && depth == 0 {
                let statement = start..i;
                out.push(statement);
                start = i + 1;
                proof {
                    let tail = statements_from(bytes@, mask, i + 1, end as int, i + 1, 0);
                    assert(rest == seq![statement] + tail);
                    assert(before + rest =~= out@ + tail);
                }
            }
        }
        i += 1;
    }
    let ghost before = out@;
    if start < end {
        out.push(start..end);
    }
    proof {
        let tail = statements_from(bytes@, mask, i as int, end as int, start as int, depth as int);
        assert(before + tail =~= out@);
    }
    out
}

/// The text of a statement with every byte of a comment or string literal
/// replaced by a space.
pub open spec fn visible(bytes: Seq<u8>, mask: &CodeMask, range: Range<usize>) -> Seq<char> {
    Seq::new(
        if range.start < range.end {
            (range.end - range.start) as nat
        } else {
            0
        },
        |k: int|
            if mask.code(range.start + k) {
                bytes[range.start + k] as char
            } else {
                ' '
            },
    )
}

/// Render the part `range` of `source` with comments and string literals
/// blanked out.
pub fn visible_text(source: &str, mask: &CodeMask, range: Range<usize>) -> (r: String)
    requires
        mask.wf(encode_utf8(source@)),
        range.start < range.end ==> range.end <= encode_utf8(source@).len(),
    ensures
        r@ == visible(encode_utf8(source@), mask, range),
{
    let bytes = source.as_bytes();
    let mut s = String::new();
    let mut i: usize = range.start;
    let ghost whole = visible(bytes@, mask, range);
    while i < range.end
        invariant
            bytes@ == encode_utf8(source@),
            mask.wf(bytes@),
            range.start < range.end ==> range.end <= bytes@.len(),
            range.start <= i,
            range.start <= range.end ==> i <= range.end,
            range.start >= range.end ==> i == range.start,
            whole == visible(bytes@, mask, range),
            s@ == whole.subrange(0, i - range.start),
        decreases range.end - i,
    {
        if mask.is_real(i) {
            s.push(bytes[i] as char);
        } else {
            s.push(' ');
        }
        proof {
            let k = i - range.start;
            assert(whole.subrange(0, k + 1) =~= whole.subrange(0, k).push(whole[k]));
        }
        i += 1;
    }
    assert(whole.subrange(0, i - range.start) =~= whole);
    s
}

// ---------------------------------------------------------------------------
// Declarations
// ---------------------------------------------------------------------------

/// The first offset from `i` on that is not whitespace.
pub open spec fn after_space(bytes: Seq<u8>, i: int) -> int
    decreases bytes.len() - i,
{
    if 0 <= i < bytes.len() && is_space_byte(bytes[i]) {
        after_space(bytes, i + 1)
    } else {
        i
    }
}

/// Where whitespace that starts at `i` ends.
pub fn skip_ws(bytes: &[u8], i: usize) -> (r: usize)
    ensures
        r == after_space(bytes@, i as int),
        i <= r,
        i <= bytes@.len() ==> r <= bytes@.len(),
{
    let mut j: usize = i;
    while j < bytes.len() && is_ascii_whitespace(bytes[j])
        invariant
            i <= j,
            i <= bytes@.len() ==> j <= bytes@.len(),
            after_space(bytes@, i as int) == after_space(bytes@, j as int),
        decreases bytes.len() - j,
    {
        j += 1;
    }
    j
}

/// The first offset from `i` on that is not part of an identifier.
pub open spec fn ident_end(bytes: Seq<u8>, i: int) -> int
    decreases bytes.len() - i,
{
    if 0 <= i < bytes.len() && is_ident_byte(bytes[i]) {
        ident_end(bytes, i + 1)
    } else {
        i
    }
}

/// Where the identifier that starts at `i` ends.
pub fn skip_ident(bytes: &[u8], i: usize) -> (r: usize)
    ensures
        r == ident_end(bytes@, i as int),
        i <= r,
        i <= bytes@.len() ==> r <= bytes@.len(),
        r > i ==> is_ident_byte(bytes@[i as int]) && is_ident_byte(bytes@[r - 1]),
{
    let mut j: usize = i;
    while j < bytes.len() && is_ident_char(bytes[j])
        invariant
            i <= j,
            i <= bytes@.len() ==> j <= bytes@.len(),
            j > i ==> is_ident_byte(bytes@[i as int]) && is_ident_byte(bytes@[j - 1]),
            ident_end(bytes@, i as int) == ident_end(bytes@, j as int),
        decreases bytes.len() - j,
    {
        j += 1;
    }
    j
}

/// The offset behind the bracket that brings `depth` open ones down to none,
/// searched from `j` on.
pub open spec fn balanced_end(bytes: Seq<u8>, j: int, depth: int, open: u8, close: u8) -> Option<
    int,
>
    decreases bytes.len() - j,
{
    if j < 0 || j >= bytes.len() {
        None
    } else if bytes[j] == open {
        balanced_end(bytes, j + 1, depth + 1, open, close)
    } else if bytes[j] == close {
        if depth == 1 {
            Some(j + 1)
        } else {
            balanced_end(bytes, j + 1, depth - 1, open, close)
        }
    } else {
        balanced_end(bytes, j + 1, depth, open, close)
    }
}

/// The offset behind the bracket that matches the one at `open_at`.
pub fn skip_balanced(bytes: &[u8], open_at: usize, open: u8, close: u8) -> (r: Option<usize>)
    ensures
        offset_view(r) == balanced_end(bytes@, open_at as int, 0, open, close),
        r matches Some(end) ==> open_at < end <= bytes@.len(),
{
    let mut depth: i128 = 0;
    let mut j: usize = open_at;
    while j < bytes.len()
        invariant
            open_at <= j,
            -(j as int) <= depth <= j,
            balanced_end(bytes@, open_at as int, 0, open, close) == balanced_end(
                bytes@,
                j as int,
                depth as int,
                open,
                close,
            ),
        decreases bytes.len() - j,
    {
        if bytes[j] == open {
            depth += 1;
        } else if bytes[j] == close {
            depth -= 1;
            if depth == 0 {
                return Some(j + 1);
            }
        }
        j += 1;
    }
    None
}

proof fn lemma_after_space(bytes: Seq<u8>, i: int)
    ensures
        after_space(bytes, i) >= i,
    decreases bytes.len() - i,
{
    if 0 <= i < bytes.len() && is_space_byte(bytes[i]) {
        lemma_after_space(bytes, i + 1);
    }
}

/// An identifier that is there ends behind an identifier byte.
pub proof fn lemma_ident_end_last(bytes: Seq<u8>, i: int)
    requires
        0 <= i < bytes.len(),
        is_ident_byte(bytes[i]),
    ensures
        is_ident_byte(bytes[ident_end(bytes, i) - 1]),
    decreases bytes.len() - i,
{
    if i + 1 < bytes.len() && is_ident_byte(bytes[i + 1]) {
        lemma_ident_end_last(bytes, i + 1);
    } else {
        assert(ident_end(bytes, i + 1) == i + 1);
    }
}

/// Where an identifier ends, in bounds.
pub proof fn lemma_ident_end(bytes: Seq<u8>, i: int)
    ensures
        ident_end(bytes, i) >= i,
        i <= bytes.len() ==> ident_end(bytes, i) <= bytes.len(),
        0 <= i < bytes.len() && is_ident_byte(bytes[i]) ==> ident_end(bytes, i) > i,
    decreases bytes.len() - i,
{
    if 0 <= i < bytes.len() && is_ident_byte(bytes[i]) {
        lemma_ident_end(bytes, i + 1);
    }
}

proof fn lemma_balanced_end(bytes: Seq<u8>, j: int, depth: int, open: u8, close: u8)
    ensures
        balanced_end(bytes, j, depth, open, close) matches Some(end) ==> j < end <= bytes.len(),
    decreases bytes.len() - j,
{
    if 0 <= j < bytes.len() {
        lemma_balanced_end(bytes, j + 1, depth + 1, open, close);
        lemma_balanced_end(bytes, j + 1, depth - 1, open, close);
        lemma_balanced_end(bytes, j + 1, depth, open, close);
    }
}

/// Where the declared name stands, looking from `i` on, behind a type
/// keyword: past `<constraint>` and `[dims]` groups and further type keywords.
pub open spec fn declarator(bytes: Seq<u8>, i: int) -> Option<(int, int)>
    decreases bytes.len() - i,
    when 0 <= i
    via declarator_decreases
{
    let at = after_space(bytes, i);
    if at >= bytes.len() {
        None
    } else if bytes[at] == 0x3c {
        match balanced_end(bytes, at, 0, 0x3c, 0x3e) {
            Some(end) => declarator(bytes, end),
            None => None,
        }
    } else if bytes[at] == 0x5b {
        match balanced_end(bytes, at, 0, 0x5b, 0x5d) {
            Some(end) => declarator(bytes, end),
            None => None,
        }
    } else if is_ident_byte(bytes[at]) {
        let end = ident_end(bytes, at);
        if is_type_word(text_between(bytes, at, end)) {
            declarator(bytes, end)
        } else {
            Some((at, end))
        }
    } else {
        None
    }
}

#[via_fn]
proof fn declarator_decreases(bytes: Seq<u8>, i: int) {
    lemma_after_space(bytes, i);
    let at = after_space(bytes, i);
    lemma_balanced_end(bytes, at, 0, 0x3c, 0x3e);
    lemma_balanced_end(bytes, at, 0, 0x5b, 0x5d);
    lemma_ident_end(bytes, at);
}

/// Where the name stands that the statement `bytes` declares: `None` unless
/// the statement starts with a type keyword.
pub open spec fn declared_range(bytes: Seq<u8>) -> Option<(int, int)> {
    let start = after_space(bytes, 0);
    let end = ident_end(bytes, start);
    if end == start || !is_type_word(text_between(bytes, start, end)) {
        None
    } else {
        declarator(bytes, end)
    }
}

/// The name that the statement `text` declares.
pub open spec fn declared(text: Seq<char>) -> Option<Seq<char>> {
    match declared_range(encode_utf8(text)) {
        Some((start, end)) => Some(text_between(encode_utf8(text), start, end)),
        None => None,
    }
}

/// An optional string as an optional text.
pub open spec fn string_view(s: Option<String>) -> Option<Seq<char>> {
    match s {
        Some(s) => Some(s@),
        None => None,
    }
}

/// The name that `text`, a single statement without comments and string
/// literals, declares. `None` for anything that is not a declaration:
/// assignments, loops, conditions, calls.
pub fn declared_name(text: &str) -> (r: Option<String>)
    ensures
        string_view(r) == declared(text@),
{
    let bytes = text.as_bytes();
    proof {
        encode_utf8_valid_utf8(text@);
    }
    let start = skip_ws(bytes, 0);
    let mut i: usize = skip_ident(bytes, start);
    if i == start {
        return None;
    }
    proof {
        lemma_ascii_run(bytes@, start as int, i as int);
    }
    if !is_type_keyword(substring(text, start, i)) {
        return None;
    }
    loop
        invariant
            bytes@ == encode_utf8(text@),
            valid_utf8(bytes@),
            i <= bytes@.len(),
            declared_range(bytes@) == declarator(bytes@, i as int),
        decreases bytes@.len() - i,
    {
        let at = skip_ws(bytes, i);
        if at >= bytes.len() {
            return None;
        }
        let b = bytes[at];
        if b == 0x3c {
            match skip_balanced(bytes, at, 0x3c, 0x3e) {
                Some(end) => {
                    i = end;
                },
                None => {
                    return None;
                },
            }
        } else if b == 0x5b {
            match skip_balanced(bytes, at, 0x5b, 0x5d) {
                Some(end) => {
                    i = end;
                },
                None => {
                    return None;
                },
            }
        } else if is_ident_char(b) {
            let end = skip_ident(bytes, at);
            proof {
                lemma_ident_end(bytes@, at as int);
                lemma_ascii_run(bytes@, at as int, end as int);
            }
            let word = substring(text, at, end);
            if !is_type_keyword(word) {
                return Some(word.to_owned());
            }
            i = end;
        } else {
            return None;
        }
    }
}

/// The names that the statements declare, in order.
pub open spec fn declared_names(
    bytes: Seq<u8>,
    mask: &CodeMask,
    statements: Seq<Range<usize>>,
) -> Seq<Seq<char>>
    decreases statements.len(),
{
    if statements.len() == 0 {
        seq![]
    } else {
        let before = declared_names(bytes, mask, statements.drop_last());
        match declared(visible(bytes, mask, statements.last())) {
            Some(name) => before.push(name),
            None => before,
        }
    }
}

/// The names declared in the part `body` of a text, in order.
pub open spec fn body_declarations(
    bytes: Seq<u8>,
    mask: &CodeMask,
    body: Range<usize>,
) -> Seq<Seq<char>> {
    declared_names(bytes, mask, top_level_statements(bytes, mask, body))
}

/// The names declared in the part `body` of `source`, in order.
pub fn scan_declarations(source: &str, mask: &CodeMask, body: Range<usize>) -> (r: Vec<String>)
    requires
        mask.wf(encode_utf8(source@)),
        body.start < body.end ==> body.end <= encode_utf8(source@).len(),
    ensures
        texts(r@) == body_declarations(encode_utf8(source@), mask, body),
{
    let ghost bytes = encode_utf8(source@);
    let statements = split_top_level_statements(source, mask, body.start..body.end);
    let mut out: Vec<String> = Vec::new();
    let mut k: usize = 0;
    proof {
        if body.start < body.end {
            law_statements_tile(bytes, mask, body);
        }
    }
    while k < statements.len()
        invariant
            bytes == encode_utf8(source@),
            mask.wf(bytes),
            k <= statements@.len(),
            body.start < body.end ==> body.end <= bytes.len() && statements_tile(
                bytes,
                mask,
                body.start as int,
                statements@,
                body.start as int,
                body.end as int,
            ),
            body.start >= body.end ==> statements@.len() == 0,
            texts(out@) == declared_names(bytes, mask, statements@.subrange(0, k as int)),
        decreases statements.len() - k,
    {
        let statement = statements[k].start..statements[k].end;
        proof {
            let next = statements@.subrange(0, k + 1);
            assert(next.drop_last() =~= statements@.subrange(0, k as int));
            assert(next.last() == statement);
        }
        let text = visible_text(source, mask, statement);
        let ghost before = out@;
        if let Some(name) = declared_name(text.as_str()) {
            out.push(name);
            assert(texts(out@) =~= texts(before).push(name@));
        }
        k += 1;
    }
    assert(statements@.subrange(0, k as int) =~= statements@);
    out
}

// ---------------------------------------------------------------------------
// Laws
// ---------------------------------------------------------------------------

/// How many brackets are open at `i`, counted from `start` on. A `}` that has
/// no open bracket to close, or the last one, starts the count afresh.
pub open spec fn bracket_depth(bytes: Seq<u8>, mask: &CodeMask, start: int, i: int) -> int
    decreases i - start,
{
    if i <= start {
        0
    } else {
        let depth = bracket_depth(bytes, mask, start, i - 1);
        let b = bytes[i - 1];
        if !mask.code(i - 1) {
            depth
        } else if b == 0x28 || b == 0x5b || b == 0x7b {
            depth + 1
        } else if b == 0x29 || b == 0x5d {
            depth - 1
        } else if b == 0x7d {
            if depth <= 1 {
                0
            } else {
                depth - 1
            }
        } else {
            depth
        }
    }
}

/// `i` is a `;` of code outside all brackets, in the part of the text that
/// begins at `start`.
pub open spec fn is_separator(bytes: Seq<u8>, mask: &CodeMask, start: int, i: int) -> bool {
    mask.code(i) && bytes[i] == 0x3b && bracket_depth(bytes, mask, start, i) == 0
}

/// `x` belongs to one of the statements.
pub open spec fn in_statement(statements: Seq<Range<usize>>, x: int) -> bool {
    exists|k: int|
        0 <= k < statements.len() && (#[trigger] statements[k]).start <= x < statements[k].end
}

/// Of the part of a text that begins at `origin`, the statements cover what
/// stands from `start` to `end`, without overlapping: they are in order, and
/// exactly the `;` outside all brackets belong to none of them.
pub open spec fn statements_tile(
    bytes: Seq<u8>,
    mask: &CodeMask,
    origin: int,
    statements: Seq<Range<usize>>,
    start: int,
    end: int,
) -> bool {
    &&& forall|k: int|
        #![trigger statements[k]]
        0 <= k < statements.len() ==> start <= statements[k].start <= statements[k].end <= end
    &&& forall|j: int, k: int|
        #![trigger statements[j], statements[k]]
        0 <= j < k < statements.len() ==> statements[j].end <= statements[k].start
    &&& forall|x: int|
        start <= x < end ==> (#[trigger] is_separator(bytes, mask, origin, x) <==> !in_statement(
            statements,
            x,
        ))
}

/// Splitting a body loses nothing but the `;` between statements.
pub proof fn law_statements_tile(bytes: Seq<u8>, mask: &CodeMask, range: Range<usize>)
    requires
        range.start <= range.end <= bytes.len(),
    ensures
        statements_tile(
            bytes,
            mask,
            range.start as int,
            top_level_statements(bytes, mask, range),
            range.start as int,
            range.end as int,
        ),
{
    let start = range.start as int;
    lemma_statements_tile(bytes, mask, start, start, range.end as int, start, 0);
}

proof fn lemma_statements_tile(
    bytes: Seq<u8>,
    mask: &CodeMask,
    origin: int,
    i: int,
    end: int,
    start: int,
    depth: int,
)
    requires
        0 <= origin <= start <= i <= end <= usize::MAX,
        depth == bracket_depth(bytes, mask, origin, i),
        forall|x: int| start <= x < i ==> !#[trigger] is_separator(bytes, mask, origin, x),
    ensures
        statements_tile(
            bytes,
            mask,
            origin,
            statements_from(bytes, mask, i, end, start, depth),
            start,
            end,
        ),
    decreases end - i,
{
    let all = statements_from(bytes, mask, i, end, start, depth);
    if i >= end {
        assert forall|x: int| start <= x < end implies (#[trigger] is_separator(
            bytes,
            mask,
            origin,
            x,
        ) <==> !in_statement(all, x)) by {
            assert(all[0].start <= x < all[0].end);
        }
    } else {
        let b = bytes[i];
        let next = bracket_depth(bytes, mask, origin, i + 1);
        if mask.code(i) && b == 0x7d && depth <= 1 {
            lemma_statements_tile(bytes, mask, origin, i + 1, end, i + 1, 0);
            let tail = statements_from(bytes, mask, i + 1, end, i + 1, 0);
            let head = Range { start: start as usize, end: (i + 1) as usize };
            lemma_tile_step(bytes, mask, origin, head, tail, start, i + 1, end);
        } else if mask.code(i) && b == 0x3b && depth == 0 {
            lemma_statements_tile(bytes, mask, origin, i + 1, end, i + 1, 0);
            let tail = statements_from(bytes, mask, i + 1, end, i + 1, 0);
            let head = Range { start: start as usize, end: i as usize };
            lemma_tile_step(bytes, mask, origin, head, tail, start, i + 1, end);
        } else {
            assert(!is_separator(bytes, mask, origin, i));
            lemma_statements_tile(bytes, mask, origin, i + 1, end, start, next);
        }
    }
}

proof fn lemma_tile_step(
    bytes: Seq<u8>,
    mask: &CodeMask,
    origin: int,
    head: Range<usize>,
    tail: Seq<Range<usize>>,
    start: int,
    next: int,
    end: int,
)
    requires
        head.start == start,
        start <= head.end <= next <= end,
        forall|x: int|
            start <= x < next ==> (#[trigger] is_separator(bytes, mask, origin, x) <==> head.end
                <= x),
        statements_tile(bytes, mask, origin, tail, next, end),
    ensures
        statements_tile(bytes, mask, origin, seq![head] + tail, start, end),
{
    let all = seq![head] + tail;
    assert forall|k: int| 1 <= k < all.len() implies #[trigger] all[k] == tail[k - 1] by {}
    assert forall|x: int| start <= x < end implies (#[trigger] is_separator(bytes, mask, origin, x)
        <==> !in_statement(all, x)) by {
        if x < head.end {
            assert(all[0].start <= x < all[0].end);
        } else if in_statement(all, x) {
            let k = choose|k: int|
                0 <= k < all.len() && (#[trigger] all[k]).start <= x < all[k].end;
            assert(all[k] == tail[k - 1]);
            assert(in_statement(tail, x));
        } else if x >= next && in_statement(tail, x) {
            let k = choose|k: int|
                0 <= k < tail.len() && (#[trigger] tail[k]).start <= x < tail[k].end;
            assert(all[k + 1] == tail[k]);
        }
    }
}

/// An identifier ends behind its last byte: where the identifier bytes stop.
pub proof fn law_ident_end(bytes: Seq<u8>, i: int, end: int)
    requires
        0 <= i <= end <= bytes.len(),
        forall|k: int| i <= k < end ==> is_ident_byte(#[trigger] bytes[k]),
        end < bytes.len() ==> !is_ident_byte(bytes[end]),
    ensures
        ident_end(bytes, i) == end,
    decreases end - i,
{
    if i < end {
        assert(is_ident_byte(bytes[i]));
        law_ident_end(bytes, i + 1, end);
    }
}

/// Whitespace ends at the first byte that is none.
pub proof fn law_after_space(bytes: Seq<u8>, i: int, end: int)
    requires
        0 <= i <= end <= bytes.len(),
        forall|k: int| i <= k < end ==> is_space_byte(#[trigger] bytes[k]),
        end < bytes.len() ==> !is_space_byte(bytes[end]),
    ensures
        after_space(bytes, i) == end,
    decreases end - i,
{
    if i < end {
        assert(is_space_byte(bytes[i]));
        law_after_space(bytes, i + 1, end);
    }
}

/// What is skipped as whitespace is whitespace, and what follows is none.
pub proof fn lemma_after_space_found(bytes: Seq<u8>, i: int)
    requires
        0 <= i <= bytes.len(),
    ensures
        i <= after_space(bytes, i) <= bytes.len(),
        forall|k: int| i <= k < after_space(bytes, i) ==> is_space_byte(#[trigger] bytes[k]),
        after_space(bytes, i) < bytes.len() ==> !is_space_byte(bytes[after_space(bytes, i)]),
    decreases bytes.len() - i,
{
    if i < bytes.len() && is_space_byte(bytes[i]) {
        lemma_after_space_found(bytes, i + 1);
    }
}

/// What is skipped as an identifier are identifier bytes, and what follows is
/// none.
pub proof fn lemma_ident_end_found(bytes: Seq<u8>, i: int)
    requires
        0 <= i <= bytes.len(),
    ensures
        i <= ident_end(bytes, i) <= bytes.len(),
        forall|k: int| i <= k < ident_end(bytes, i) ==> is_ident_byte(#[trigger] bytes[k]),
        ident_end(bytes, i) < bytes.len() ==> !is_ident_byte(bytes[ident_end(bytes, i)]),
    decreases bytes.len() - i,
{
    if i < bytes.len() && is_ident_byte(bytes[i]) {
        lemma_ident_end_found(bytes, i + 1);
    }
}

/// `i` is a `}` of code that closes the last open bracket, or has none to
/// close, in the part of the text that begins at `start`.
pub open spec fn is_closer(bytes: Seq<u8>, mask: &CodeMask, start: int, i: int) -> bool {
    mask.code(i) && bytes[i] == 0x7d && bracket_depth(bytes, mask, start, i) <= 1
}

/// The statement ends where it should, in the part of the text that begins at
/// `origin` and ends at `end`: at the end of the part, before a `;` outside all
/// brackets, or behind a `}` that closes the last open bracket; and no such `}`
/// stands in it before its last byte.
pub open spec fn ends_in_time(
    bytes: Seq<u8>,
    mask: &CodeMask,
    origin: int,
    statement: Range<usize>,
    end: int,
) -> bool {
    &&& {
        ||| statement.end == end
        ||| is_separator(bytes, mask, origin, statement.end as int)
        ||| statement.start < statement.end && is_closer(bytes, mask, origin, statement.end - 1)
    }
    &&& forall|x: int|
        statement.start <= x < statement.end - 1 ==> !#[trigger] is_closer(bytes, mask, origin, x)
}

/// Every statement of a body ends where it should: a compound statement at its
/// closing brace, any other one before its `;`, the last one perhaps at the
/// end of the body.
pub proof fn law_statements_end_in_time(
    bytes: Seq<u8>,
    mask: &CodeMask,
    range: Range<usize>,
    k: int,
)
    requires
        range.start <= range.end <= bytes.len(),
        0 <= k < top_level_statements(bytes, mask, range).len(),
    ensures
        ends_in_time(
            bytes,
            mask,
            range.start as int,
            top_level_statements(bytes, mask, range)[k],
            range.end as int,
        ),
{
    let start = range.start as int;
    lemma_statements_end_in_time(bytes, mask, start, start, range.end as int, start, 0, k);
}

proof fn lemma_statements_end_in_time(
    bytes: Seq<u8>,
    mask: &CodeMask,
    origin: int,
    i: int,
    end: int,
    start: int,
    depth: int,
    k: int,
)
    requires
        0 <= origin <= start <= i <= end <= usize::MAX,
        depth == bracket_depth(bytes, mask, origin, i),
        forall|x: int| start <= x < i ==> !#[trigger] is_closer(bytes, mask, origin, x),
        0 <= k < statements_from(bytes, mask, i, end, start, depth).len(),
    ensures
        ends_in_time(
            bytes,
            mask,
            origin,
            statements_from(bytes, mask, i, end, start, depth)[k],
            end,
        ),
    decreases end - i,
{
    let all = statements_from(bytes, mask, i, end, start, depth);
    if i < end {
        let b = bytes[i];
        let next = bracket_depth(bytes, mask, origin, i + 1);
        if mask.code(i) && b == 0x7d && depth <= 1 {
            let tail = statements_from(bytes, mask, i + 1, end, i + 1, 0);
            let head = Range { start: start as usize, end: (i + 1) as usize };
            assert(all == seq![head] + tail);
            if k > 0 {
                assert(all[k] == tail[k - 1]);
                lemma_statements_end_in_time(bytes, mask, origin, i + 1, end, i + 1, 0, k - 1);
            } else {
                assert(is_closer(bytes, mask, origin, i));
            }
        } else if mask.code(i) && b == 0x3b && depth == 0 {
            let tail = statements_from(bytes, mask, i + 1, end, i + 1, 0);
            let head = Range { start: start as usize, end: i as usize };
            assert(all == seq![head] + tail);
            if k > 0 {
                assert(all[k] == tail[k - 1]);
                lemma_statements_end_in_time(bytes, mask, origin, i + 1, end, i + 1, 0, k - 1);
            } else {
                assert(is_separator(bytes, mask, origin, i));
            }
        } else {
            assert(!is_closer(bytes, mask, origin, i));
            lemma_statements_end_in_time(bytes, mask, origin, i + 1, end, start, next, k);
        }
    }
}

/// What is visible of a part of a text has a character for each byte: that of
/// the byte where it is code, a space where it is not.
pub proof fn law_visible(bytes: Seq<u8>, mask: &CodeMask, range: Range<usize>, k: int)
    requires
        range.start <= k < range.end,
    ensures
        visible(bytes, mask, range).len() == range.end - range.start,
        mask.code(k) ==> visible(bytes, mask, range)[k - range.start] == bytes[k] as char,
        !mask.code(k) ==> visible(bytes, mask, range)[k - range.start] == ' ',
{
}

/// How often `b` stands from `start` up to `end`.
pub open spec fn occurrences(bytes: Seq<u8>, b: u8, start: int, end: int) -> nat
    decreases end - start,
{
    if end <= start {
        0
    } else {
        occurrences(bytes, b, start, end - 1) + (if bytes[end - 1] == b {
            1nat
        } else {
            0nat
        })
    }
}

/// From `start` up to `end` stands a group in brackets: it starts with `open`,
/// the brackets in it balance, and before its end they do not.
pub open spec fn is_group(bytes: Seq<u8>, start: int, end: int, open: u8, close: u8) -> bool {
    &&& 0 <= start < end <= bytes.len()
    &&& bytes[start] == open
    &&& occurrences(bytes, open, start, end) == occurrences(bytes, close, start, end)
    &&& forall|p: int|
        start < p < end ==> #[trigger] occurrences(bytes, open, start, p) > occurrences(
            bytes,
            close,
            start,
            p,
        )
}

/// A whole word stands from `start` up to `end`: identifier bytes, and none
/// right behind them.
pub open spec fn is_whole_word(bytes: Seq<u8>, start: int, end: int) -> bool {
    &&& 0 <= start < end <= bytes.len()
    &&& forall|k: int| start <= k < end ==> is_ident_byte(#[trigger] bytes[k])
    &&& end < bytes.len() ==> !is_ident_byte(bytes[end])
}

/// A piece of a type: whitespace, a `<...>` or `[...]` group, or a type
/// keyword.
pub open spec fn is_type_piece(bytes: Seq<u8>, start: int, end: int) -> bool {
    ||| {
        &&& 0 <= start < end <= bytes.len()
        &&& forall|k: int| start <= k < end ==> is_space_byte(#[trigger] bytes[k])
    }
    ||| is_group(bytes, start, end, 0x3c, 0x3e)
    ||| is_group(bytes, start, end, 0x5b, 0x5d)
    ||| is_whole_word(bytes, start, end) && is_type_word(text_between(bytes, start, end))
}

/// What stands between the `k`-th cut and the next one is a piece of a type.
pub open spec fn cut_is_piece(bytes: Seq<u8>, cuts: Seq<int>, k: int) -> bool {
    is_type_piece(bytes, cuts[k], cuts[k + 1])
}

/// The text is a declaration of the name that stands from `start` up to `end`:
/// a type keyword, after whitespace perhaps, then pieces of a type, `cuts`
/// being where they meet, and then the name, a word that is no type keyword.
pub open spec fn is_declaration(
    bytes: Seq<u8>,
    lead: int,
    cuts: Seq<int>,
    start: int,
    end: int,
) -> bool {
    &&& 0 <= lead
    &&& forall|k: int| 0 <= k < lead ==> is_space_byte(#[trigger] bytes[k])
    &&& cuts.len() > 0
    &&& is_whole_word(bytes, lead, cuts[0])
    &&& is_type_word(text_between(bytes, lead, cuts[0]))
    &&& forall|k: int| 0 <= k < cuts.len() - 1 ==> #[trigger] cut_is_piece(bytes, cuts, k)
    &&& cuts.last() == start
    &&& is_whole_word(bytes, start, end)
    &&& !is_type_word(text_between(bytes, start, end))
}

proof fn lemma_group_ends(
    bytes: Seq<u8>,
    start: int,
    end: int,
    p: int,
    depth: int,
    open: u8,
    close: u8,
)
    requires
        open != close,
        is_group(bytes, start, end, open, close),
        start <= p < end,
        depth == occurrences(bytes, open, start, p) - occurrences(bytes, close, start, p),
    ensures
        balanced_end(bytes, p, depth, open, close) == Some(end),
    decreases end - p,
{
    let opened = occurrences(bytes, open, start, p + 1);
    let closed = occurrences(bytes, close, start, p + 1);
    if p + 1 < end {
        assert(opened > closed);
        lemma_group_ends(bytes, start, end, p + 1, opened - closed, open, close);
    } else {
        assert(opened == closed);
        if p > start {
            assert(occurrences(bytes, open, start, p) > occurrences(bytes, close, start, p));
        }
    }
}

proof fn lemma_group_found(
    bytes: Seq<u8>,
    start: int,
    p: int,
    depth: int,
    open: u8,
    close: u8,
)
    requires
        open != close,
        0 <= start <= p,
        start < bytes.len(),
        bytes[start] == open,
        depth == occurrences(bytes, open, start, p) - occurrences(bytes, close, start, p),
        forall|q: int|
            start < q <= p ==> #[trigger] occurrences(bytes, open, start, q) > occurrences(
                bytes,
                close,
                start,
                q,
            ),
        balanced_end(bytes, p, depth, open, close) is Some,
    ensures
        is_group(
            bytes,
            start,
            balanced_end(bytes, p, depth, open, close)->0,
            open,
            close,
        ),
    decreases bytes.len() - p,
{
    let opened = occurrences(bytes, open, start, p + 1);
    let closed = occurrences(bytes, close, start, p + 1);
    if !(bytes[p] == close && depth == 1) {
        if p == start {
            assert(occurrences(bytes, open, start, p) == 0);
            assert(occurrences(bytes, close, start, p) == 0);
        }
        lemma_group_found(bytes, start, p + 1, opened - closed, open, close);
    }
}

proof fn lemma_space_run(bytes: Seq<u8>, start: int, end: int)
    requires
        0 <= start <= end <= bytes.len(),
        forall|k: int| start <= k < end ==> is_space_byte(#[trigger] bytes[k]),
    ensures
        after_space(bytes, start) == after_space(bytes, end),
    decreases end - start,
{
    if start < end {
        assert(is_space_byte(bytes[start]));
        lemma_space_run(bytes, start + 1, end);
    }
}

proof fn lemma_declarator_reaches(
    bytes: Seq<u8>,
    cuts: Seq<int>,
    start: int,
    end: int,
    k: int,
)
    requires
        0 <= k < cuts.len(),
        0 <= cuts[k],
        forall|j: int| 0 <= j < cuts.len() - 1 ==> #[trigger] cut_is_piece(bytes, cuts, j),
        cuts.last() == start,
        is_whole_word(bytes, start, end),
        !is_type_word(text_between(bytes, start, end)),
    ensures
        declarator(bytes, cuts[k]) == Some((start, end)),
    decreases cuts.len() - k,
{
    let i = cuts[k];
    if k == cuts.len() - 1 {
        assert(is_ident_byte(bytes[start]));
        law_after_space(bytes, start, start);
        law_ident_end(bytes, start, end);
    } else {
        let next = cuts[k + 1];
        assert(cut_is_piece(bytes, cuts, k));
        lemma_declarator_reaches(bytes, cuts, start, end, k + 1);
        if is_whole_word(bytes, i, next) && is_type_word(text_between(bytes, i, next)) {
            assert(is_ident_byte(bytes[i]));
            law_after_space(bytes, i, i);
            law_ident_end(bytes, i, next);
        } else if is_group(bytes, i, next, 0x3c, 0x3e) {
            law_after_space(bytes, i, i);
            lemma_group_ends(bytes, i, next, i, 0, 0x3c, 0x3e);
        } else if is_group(bytes, i, next, 0x5b, 0x5d) {
            law_after_space(bytes, i, i);
            lemma_group_ends(bytes, i, next, i, 0, 0x5b, 0x5d);
        } else {
            lemma_space_run(bytes, i, next);
        }
    }
}

/// A statement that is written as a declaration declares its name.
pub proof fn law_declaration_declares(
    text: Seq<char>,
    lead: int,
    cuts: Seq<int>,
    start: int,
    end: int,
)
    requires
        is_declaration(encode_utf8(text), lead, cuts, start, end),
    ensures
        declared(text) == Some(text_between(encode_utf8(text), start, end)),
{
    let bytes = encode_utf8(text);
    assert(is_ident_byte(bytes[lead]));
    law_after_space(bytes, 0, lead);
    law_ident_end(bytes, lead, cuts[0]);
    lemma_declarator_reaches(bytes, cuts, start, end, 0);
}

proof fn lemma_declarator_cuts(bytes: Seq<u8>, i: int) -> (cuts: Seq<int>)
    requires
        0 <= i <= bytes.len(),
        declarator(bytes, i) is Some,
    ensures
        ({
            let (start, end) = declarator(bytes, i)->0;
            &&& cuts.len() > 0
            &&& cuts[0] == i
            &&& cuts.last() == start
            &&& forall|k: int| 0 <= k < cuts.len() - 1 ==> #[trigger] cut_is_piece(bytes, cuts, k)
            &&& is_whole_word(bytes, start, end)
            &&& !is_type_word(text_between(bytes, start, end))
        }),
    decreases bytes.len() - i,
{
    let at = after_space(bytes, i);
    lemma_after_space_found(bytes, i);
    lemma_ident_end_found(bytes, at);
    let lead = if at > i {
        seq![i, at]
    } else {
        seq![i]
    };
    let goes_on = bytes[at] == 0x3c || bytes[at] == 0x5b || is_type_word(
        text_between(bytes, at, ident_end(bytes, at)),
    );
    if goes_on {
        let next = if bytes[at] == 0x3c {
            lemma_group_found(bytes, at, at, 0, 0x3c, 0x3e);
            balanced_end(bytes, at, 0, 0x3c, 0x3e)->0
        } else if bytes[at] == 0x5b {
            lemma_group_found(bytes, at, at, 0, 0x5b, 0x5d);
            balanced_end(bytes, at, 0, 0x5b, 0x5d)->0
        } else {
            ident_end(bytes, at)
        };
        let rest = lemma_declarator_cuts(bytes, next);
        let cuts = lead + rest;
        assert forall|k: int| 0 <= k < cuts.len() - 1 implies #[trigger] cut_is_piece(
            bytes,
            cuts,
            k,
        ) by {
            if k >= lead.len() {
                assert(cut_is_piece(bytes, rest, k - lead.len()));
            }
        }
        cuts
    } else {
        assert forall|k: int| 0 <= k < lead.len() - 1 implies #[trigger] cut_is_piece(
            bytes,
            lead,
            k,
        ) by {}
        lead
    }
}

/// A statement declares a name only if it is written as a declaration of it:
/// nothing else declares anything.
pub proof fn law_only_declarations_declare(text: Seq<char>)
    ensures
        declared(text) matches Some(name) ==> exists|
            lead: int,
            cuts: Seq<int>,
            start: int,
            end: int,
        |
            name == text_between(encode_utf8(text), start, end) && #[trigger] is_declaration(
                encode_utf8(text),
                lead,
                cuts,
                start,
                end,
            ),
{
    let bytes = encode_utf8(text);
    if let Some(name) = declared(text) {
        let lead = after_space(bytes, 0);
        let first = ident_end(bytes, lead);
        lemma_after_space_found(bytes, 0);
        lemma_ident_end_found(bytes, lead);
        let (start, end) = declarator(bytes, first)->0;
        let cuts = lemma_declarator_cuts(bytes, first);
        assert(is_declaration(bytes, lead, cuts, start, end));
    }
}

/// How many of the first `n` statements declare a name.
pub open spec fn declaring_before(
    bytes: Seq<u8>,
    mask: &CodeMask,
    statements: Seq<Range<usize>>,
    n: int,
) -> nat
    decreases n,
{
    if n <= 0 {
        0
    } else {
        declaring_before(bytes, mask, statements, n - 1) + (if declared(
            visible(bytes, mask, statements[n - 1]),
        ) is Some {
            1nat
        } else {
            0nat
        })
    }
}

/// A body declares the names that its statements declare, each in its turn:
/// the name of a statement stands behind those of the statements before it,
/// and there are no others.
pub proof fn law_declared_names(
    bytes: Seq<u8>,
    mask: &CodeMask,
    statements: Seq<Range<usize>>,
    k: int,
)
    requires
        0 <= k < statements.len(),
    ensures
        ({
            let names = declared_names(bytes, mask, statements);
            let n = statements.len() as int;
            let at = declaring_before(bytes, mask, statements, k) as int;
            &&& names.len() == declaring_before(bytes, mask, statements, n)
            &&& declared(visible(bytes, mask, statements[k])) matches Some(name) ==> at
                < names.len() && names[at] == name
        }),
    decreases statements.len(),
{
    let rest = statements.drop_last();
    lemma_declared_count(bytes, mask, statements);
    lemma_declared_count(bytes, mask, rest);
    lemma_declaring_prefix(bytes, mask, rest, statements, k);
    lemma_declaring_prefix(bytes, mask, rest, statements, rest.len() as int);
    if k < rest.len() {
        law_declared_names(bytes, mask, rest, k);
        assert(rest[k] == statements[k]);
    }
}

proof fn lemma_declared_count(bytes: Seq<u8>, mask: &CodeMask, statements: Seq<Range<usize>>)
    ensures
        declared_names(bytes, mask, statements).len() == declaring_before(
            bytes,
            mask,
            statements,
            statements.len() as int,
        ),
    decreases statements.len(),
{
    if statements.len() > 0 {
        let rest = statements.drop_last();
        lemma_declared_count(bytes, mask, rest);
        lemma_declaring_prefix(bytes, mask, rest, statements, rest.len() as int);
    }
}

proof fn lemma_declaring_prefix(
    bytes: Seq<u8>,
    mask: &CodeMask,
    a: Seq<Range<usize>>,
    b: Seq<Range<usize>>,
    n: int,
)
    requires
        n <= a.len(),
        n <= b.len(),
        forall|k: int| 0 <= k < n ==> #[trigger] a[k] == b[k],
    ensures
        declaring_before(bytes, mask, a, n) == declaring_before(bytes, mask, b, n),
    decreases n,
{
    if n > 0 {
        assert(a[n - 1] == b[n - 1]);
        lemma_declaring_prefix(bytes, mask, a, b, n - 1);
    }
}

/// A name is among those that statements declare exactly if one of them
/// declares it.
pub proof fn lemma_declared_by_some(
    bytes: Seq<u8>,
    mask: &CodeMask,
    statements: Seq<Range<usize>>,
    name: Seq<char>,
)
    ensures
        declared_names(bytes, mask, statements).contains(name) <==> exists|k: int|
            0 <= k < statements.len() && declared(visible(bytes, mask, #[trigger] statements[k]))
                == Some(name),
    decreases statements.len(),
{
    if statements.len() > 0 {
        let rest = statements.drop_last();
        let before = declared_names(bytes, mask, rest);
        let after = declared_names(bytes, mask, statements);
        lemma_declared_by_some(bytes, mask, rest, name);
        if before.contains(name) {
            let j = before.index_of(name);
            assert(after[j] == name);
            let k = choose|k: int|
                0 <= k < rest.len() && declared(visible(bytes, mask, #[trigger] rest[k])) == Some(
                    name,
                );
            assert(statements[k] == rest[k]);
        }
        if declared(visible(bytes, mask, statements.last())) == Some(name) {
            assert(after[before.len() as int] == name);
            assert(statements[statements.len() - 1] == statements.last());
        }
        if after.contains(name) {
            let j = after.index_of(name);
            if j < before.len() {
                assert(before[j] == name);
            }
        }
        if exists|k: int|
            0 <= k < statements.len() && declared(visible(bytes, mask, #[trigger] statements[k]))
                == Some(name) {
            let k = choose|k: int|
                0 <= k < statements.len() && declared(
                    visible(bytes, mask, #[trigger] statements[k]),
                ) == Some(name);
            if k < rest.len() {
                assert(rest[k] == statements[k]);
            }
        }
    }
}

/// The type keywords are those of the list, every one of them and no others.
pub proof fn law_type_keywords(word: Seq<char>, i: int)
    ensures
        0 <= i < STAN_TYPE_KEYWORDS@.len() && STAN_TYPE_KEYWORDS@[i]@ == word ==> is_type_word(
            word,
        ),
        is_type_word(word) ==> exists|k: int|
            0 <= k < STAN_TYPE_KEYWORDS@.len() && (#[trigger] STAN_TYPE_KEYWORDS@[k])@ == word,
{
}

} // verus!
