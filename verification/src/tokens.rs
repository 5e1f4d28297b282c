//! Semantic classification: every identifier of a file is tagged with the
//! role it was declared in or, where it is called, with where the function
//! comes from.

use crate::analysis::{
    Analysis, QualifiedCall, Role, TOKEN_BUILTIN_FUNCTION, TOKEN_LIBRARY_FUNCTION,
    TOKEN_USER_FUNCTION, lookup,
};
use crate::builtins::{builtin, is_builtin};
use crate::declarations::{
    after_space, ident_end, law_after_space, law_ident_end, lemma_after_space_found,
    lemma_ident_end, lemma_ident_end_found, lemma_ident_end_last, skip_ident, skip_ws,
};
use crate::mask::CodeMask;
use crate::sort::{Keyed, law_sort_permutes, law_sort_sorts, sort_by_key, sorted, stable_sort};
use crate::text::{
    is_boundary, is_ident_byte, is_ident_char, is_space_byte, lemma_ascii_run, on_boundary,
    substring, text_between,
};
use std::ops::Range;
use vstd::multiset::*;
use vstd::prelude::*;
use vstd::string::*;
use vstd::utf8::*;

verus! {

/// A classified part of a text: its byte range and its token type.
#[derive(Debug, Clone, Copy, PartialEq, Eq, Structural)]
pub struct RawToken {
    pub start: usize,
    pub end: usize,
    pub token_type: u32,
}

impl Keyed for RawToken {
    open spec fn key(self) -> (int, int) {
        (self.start as int, self.end as int)
    }

    fn key_le(&self, other: &Self) -> (r: bool) {
        self.start < other.start || (self.start == other.start && self.end <= other.end)
    }
}

/// The tokens of the library calls: each spans the whole `package::func`.
pub open spec fn library_tokens(calls: Seq<QualifiedCall>) -> Seq<RawToken> {
    Seq::new(
        calls.len(),
        |k: int|
            RawToken {
                start: calls[k].range.start,
                end: calls[k].range.end,
                token_type: TOKEN_LIBRARY_FUNCTION,
            },
    )
}

/// Offset `x` lies inside one of the library calls.
pub open spec fn in_call(calls: Seq<QualifiedCall>, x: int) -> bool {
    exists|k: int|
        0 <= k < calls.len() && (#[trigger] calls[k]).range.start <= x < calls[k].range.end
}

/// An identifier of code starts at `i`.
pub open spec fn ident_starts(bytes: Seq<u8>, mask: &CodeMask, i: int) -> bool {
    &&& 0 <= i < bytes.len()
    &&& mask.code(i)
    &&& is_ident_byte(bytes[i])
    &&& i == 0 || !is_ident_byte(bytes[i - 1])
}

/// The identifier that ends at `end` is called: a `(` follows.
pub open spec fn is_called(bytes: Seq<u8>, end: int) -> bool {
    let after = after_space(bytes, end);
    after < bytes.len() && bytes[after] == 0x28
}

/// The token type of the identifier between `start` and `end`: of a function
/// where it is called, of its role where it is not.
pub open spec fn ident_type(bytes: Seq<u8>, analysis: &Analysis, start: int, end: int) -> Option<
    u32,
> {
    let name = text_between(bytes, start, end);
    if is_called(bytes, end) {
        if analysis.user_functions@.contains(name) {
            Some(TOKEN_USER_FUNCTION)
        } else if builtin(name) {
            Some(TOKEN_BUILTIN_FUNCTION)
        } else {
            None
        }
    } else {
        match lookup(analysis.symbol_roles@, name) {
            Some(role) => Some(role.legend_index()),
            None => None,
        }
    }
}

/// The token of the identifier that starts at `i`: none inside a library
/// call, and none for a name that nothing is known of.
pub open spec fn ident_token(bytes: Seq<u8>, analysis: &Analysis, i: int) -> Option<RawToken> {
    let end = ident_end(bytes, i);
    if in_call(analysis.library_calls@, i) {
        None
    } else {
        match ident_type(bytes, analysis, i, end) {
            Some(token_type) => Some(
                RawToken { start: i as usize, end: end as usize, token_type },
            ),
            None => None,
        }
    }
}

/// The tokens of the identifiers that start at `i` or later.
pub open spec fn ident_tokens(
    bytes: Seq<u8>,
    mask: &CodeMask,
    analysis: &Analysis,
    i: int,
) -> Seq<RawToken>
    decreases bytes.len() - i,
    when 0 <= i
    via ident_tokens_decreases
{
    if i >= bytes.len() {
        seq![]
    } else if ident_starts(bytes, mask, i) {
        let rest = ident_tokens(bytes, mask, analysis, ident_end(bytes, i));
        match ident_token(bytes, analysis, i) {
            Some(token) => seq![token] + rest,
            None => rest,
        }
    } else {
        ident_tokens(bytes, mask, analysis, i + 1)
    }
}

#[via_fn]
proof fn ident_tokens_decreases(bytes: Seq<u8>, mask: &CodeMask, analysis: &Analysis, i: int) {
    lemma_ident_end(bytes, i);
}

/// All tokens of a file, in the order of the text.
pub open spec fn tokens_of(bytes: Seq<u8>, mask: &CodeMask, analysis: &Analysis) -> Seq<RawToken> {
    stable_sort(
        library_tokens(analysis.library_calls@) + ident_tokens(bytes, mask, analysis, 0),
    )
}

fn starts_in_call(calls: &Vec<QualifiedCall>, x: usize) -> (r: bool)
    ensures
        r == in_call(calls@, x as int),
{
    let mut k: usize = 0;
    while k < calls.len()
        invariant
            k <= calls@.len(),
            forall|j: int|
                0 <= j < k ==> !((#[trigger] calls@[j]).range.start <= x < calls@[j].range.end),
        decreases calls.len() - k,
    {
        if calls[k].range.start <= x && x < calls[k].range.end {
            assert(calls@[k as int].range.start <= x < calls@[k as int].range.end);
            return true;
        }
        k += 1;
    }
    false
}

/// Tag every identifier of the text, not just the declarations, with its role
/// or, where it is called, with the origin of the function. `source` must be
/// the text that `analysis` is of.
pub fn collect_tokens(source: &str, mask: &CodeMask, analysis: &Analysis) -> (r: Vec<RawToken>)
    requires
        mask.wf(encode_utf8(source@)),
    ensures
        r@ == tokens_of(encode_utf8(source@), mask, analysis),
{
    let bytes = source.as_bytes();
    proof {
        encode_utf8_valid_utf8(source@);
    }
    let calls = &analysis.library_calls;
    let mut tokens: Vec<RawToken> = Vec::new();
    let mut k: usize = 0;
    while k < calls.len()
        invariant
            k <= calls@.len(),
            tokens@ == library_tokens(calls@).subrange(0, k as int),
        decreases calls.len() - k,
    {
        tokens.push(
            RawToken {
                start: calls[k].range.start,
                end: calls[k].range.end,
                token_type: TOKEN_LIBRARY_FUNCTION,
            },
        );
        assert(tokens@ =~= library_tokens(calls@).subrange(0, k + 1));
        k += 1;
    }
    let ghost calls_part = library_tokens(calls@);
    assert(tokens@ =~= calls_part);
    let ghost idents = ident_tokens(bytes@, mask, analysis, 0);
    let mut i: usize = 0;
    while i < bytes.len()
        invariant
            bytes@ == encode_utf8(source@),
            valid_utf8(bytes@),
            mask.wf(bytes@),
            calls@ == analysis.library_calls@,
            i <= bytes@.len(),
            tokens@ + ident_tokens(bytes@, mask, analysis, i as int) == calls_part + idents,
        decreases bytes.len() - i,
    {
        let ghost rest = ident_tokens(bytes@, mask, analysis, i as int);
        if mask.is_real(i) && is_ident_char(bytes[i]) && (i == 0 || !is_ident_char(bytes[i - 1])) {
            let start = i;
            let end = skip_ident(bytes, start);
            proof {
                lemma_ident_end(bytes@, start as int);
                lemma_ascii_run(bytes@, start as int, end as int);
            }
            let ghost tail = ident_tokens(bytes@, mask, analysis, end as int);
            let mut token_type: Option<u32> = None;
            if !starts_in_call(calls, start) {
                let name = substring(source, start, end);
                let after = skip_ws(bytes, end);
                if after < bytes.len() && bytes[after] == 0x28 {
                    if analysis.user_functions.contains(name) {
                        token_type = Some(TOKEN_USER_FUNCTION);
                    } else if is_builtin(name) {
                        token_type = Some(TOKEN_BUILTIN_FUNCTION);
                    }
                } else if let Some(role) = analysis.symbol_roles.get(name) {
                    token_type = Some(role.token_type());
                }
            }
            let ghost before = tokens@;
            if let Some(token_type) = token_type {
                let token = RawToken { start, end, token_type };
                tokens.push(token);
                proof {
                    assert(ident_token(bytes@, analysis, start as int) == Some(token));
                    assert(rest == seq![token] + tail);
                    assert(before + rest =~= tokens@ + tail);
                }
            } else {
                assert(ident_token(bytes@, analysis, start as int) is None);
                assert(rest == tail);
            }
            i = end;
        } else {
            assert(!ident_starts(bytes@, mask, i as int));
            i += 1;
        }
    }
    assert(tokens@ + ident_tokens(bytes@, mask, analysis, i as int) =~= tokens@);
    sort_by_key(&tokens)
}

// ---------------------------------------------------------------------------
// Laws
// ---------------------------------------------------------------------------

/// The token lies inside the text, and the text can be cut at its ends.
pub open spec fn token_fits(bytes: Seq<u8>, token: RawToken) -> bool {
    &&& token.start <= token.end
    &&& on_boundary(bytes, token.start as int)
    &&& on_boundary(bytes, token.end as int)
}

/// All tokens lie inside the text, and it can be cut at their ends.
pub open spec fn tokens_fit(bytes: Seq<u8>, tokens: Seq<RawToken>) -> bool {
    forall|k: int| 0 <= k < tokens.len() ==> token_fits(bytes, #[trigger] tokens[k])
}

/// The library calls lie inside the text, and it can be cut at their ends.
pub open spec fn calls_fit(bytes: Seq<u8>, calls: Seq<QualifiedCall>) -> bool {
    tokens_fit(bytes, library_tokens(calls))
}

/// Whether the library calls `calls` lie inside `source` and it can be cut at
/// their ends.
pub fn calls_are_usable(source: &str, calls: &Vec<QualifiedCall>) -> (r: bool)
    ensures
        r == calls_fit(encode_utf8(source@), calls@),
{
    let bytes = source.as_bytes();
    let mut k: usize = 0;
    while k < calls.len()
        invariant
            bytes@ == encode_utf8(source@),
            k <= calls@.len(),
            forall|j: int| 0 <= j < k ==> token_fits(bytes@, #[trigger] library_tokens(calls@)[j]),
        decreases calls.len() - k,
    {
        let start = calls[k].range.start;
        let end = calls[k].range.end;
        let fits = start <= end && is_boundary(bytes, start) && is_boundary(bytes, end);
        assert(fits == token_fits(bytes@, library_tokens(calls@)[k as int]));
        if !fits {
            return false;
        }
        k += 1;
    }
    true
}

proof fn lemma_ident_tokens_fit(bytes: Seq<u8>, mask: &CodeMask, analysis: &Analysis, i: int)
    requires
        valid_utf8(bytes),
        bytes.len() <= usize::MAX,
        0 <= i,
    ensures
        tokens_fit(bytes, ident_tokens(bytes, mask, analysis, i)),
    decreases bytes.len() - i,
{
    if i < bytes.len() {
        if ident_starts(bytes, mask, i) {
            let end = ident_end(bytes, i);
            lemma_ident_end(bytes, i);
            lemma_ident_end_last(bytes, i);
            lemma_ascii_run(bytes, i, end);
            lemma_ident_tokens_fit(bytes, mask, analysis, end);
            let rest = ident_tokens(bytes, mask, analysis, end);
            if let Some(token) = ident_token(bytes, analysis, i) {
                let all = seq![token] + rest;
                assert forall|k: int| 0 <= k < all.len() implies token_fits(
                    bytes,
                    #[trigger] all[k],
                ) by {
                    if k > 0 {
                        assert(all[k] == rest[k - 1]);
                    }
                }
            }
        } else {
            lemma_ident_tokens_fit(bytes, mask, analysis, i + 1);
        }
    }
}

/// Every token can be cut out of the text, provided that the library calls
/// can.
pub proof fn law_tokens_fit(bytes: Seq<u8>, mask: &CodeMask, analysis: &Analysis)
    requires
        valid_utf8(bytes),
        bytes.len() <= usize::MAX,
        calls_fit(bytes, analysis.library_calls@),
    ensures
        tokens_fit(bytes, tokens_of(bytes, mask, analysis)),
{
    broadcast use vstd::seq_lib::group_to_multiset_ensures;

    lemma_ident_tokens_fit(bytes, mask, analysis, 0);
    let calls = library_tokens(analysis.library_calls@);
    let idents = ident_tokens(bytes, mask, analysis, 0);
    let all = calls + idents;
    let done = stable_sort(all);
    law_sort_permutes(all);
    assert forall|k: int| 0 <= k < done.len() implies token_fits(bytes, #[trigger] done[k]) by {
        assert(done.contains(done[k]));
        assert(all.to_multiset().count(done[k]) > 0);
        assert(all.contains(done[k]));
        let j = all.index_of(done[k]);
        if j < calls.len() {
            assert(calls[j] == done[k]);
        } else {
            assert(idents[j - calls.len()] == done[k]);
        }
    }
}

/// Tokens come in the order of the text, and they are the tokens of the
/// library calls and of the identifiers, no more and no fewer.
pub proof fn law_tokens_in_order(bytes: Seq<u8>, mask: &CodeMask, analysis: &Analysis)
    ensures
        sorted(tokens_of(bytes, mask, analysis)),
        tokens_of(bytes, mask, analysis).to_multiset() == (library_tokens(
            analysis.library_calls@,
        ) + ident_tokens(bytes, mask, analysis, 0)).to_multiset(),
{
    let all = library_tokens(analysis.library_calls@) + ident_tokens(bytes, mask, analysis, 0);
    law_sort_sorts(all);
    law_sort_permutes(all);
}

/// Every identifier of code that stands outside the library calls and has a
/// type gets a token, wherever in the file it stands: not just where it is
/// declared, but also where it is used.
pub proof fn law_every_use_is_tagged(
    bytes: Seq<u8>,
    mask: &CodeMask,
    analysis: &Analysis,
    i: int,
)
    requires
        ident_starts(bytes, mask, i),
        !in_call(analysis.library_calls@, i),
        ident_type(bytes, analysis, i, ident_end(bytes, i)) is Some,
    ensures
        tokens_of(bytes, mask, analysis).contains(
            RawToken {
                start: i as usize,
                end: ident_end(bytes, i) as usize,
                token_type: ident_type(bytes, analysis, i, ident_end(bytes, i))->0,
            },
        ),
{
    broadcast use vstd::seq_lib::group_to_multiset_ensures;

    let token = ident_token(bytes, analysis, i)->0;
    lemma_tagged_from(bytes, mask, analysis, 0, i);
    let calls = library_tokens(analysis.library_calls@);
    let idents = ident_tokens(bytes, mask, analysis, 0);
    let all = calls + idents;
    let j = idents.index_of(token);
    assert(all[calls.len() + j] == token);
    assert(all.contains(token));
    law_sort_permutes(all);
    assert(all.to_multiset().count(token) > 0);
    assert(stable_sort(all).contains(token));
}

proof fn lemma_tagged_from(
    bytes: Seq<u8>,
    mask: &CodeMask,
    analysis: &Analysis,
    from: int,
    i: int,
)
    requires
        0 <= from <= i,
        ident_starts(bytes, mask, i),
        ident_token(bytes, analysis, i) is Some,
    ensures
        ident_tokens(bytes, mask, analysis, from).contains(ident_token(bytes, analysis, i)->0),
    decreases i - from,
{
    let token = ident_token(bytes, analysis, i)->0;
    let all = ident_tokens(bytes, mask, analysis, from);
    if from == i {
        lemma_ident_end(bytes, i);
        let rest = ident_tokens(bytes, mask, analysis, ident_end(bytes, i));
        assert(all == seq![token] + rest);
        assert(all[0] == token);
    } else if ident_starts(bytes, mask, from) {
        let end = ident_end(bytes, from);
        lemma_ident_end(bytes, from);
        lemma_ident_end_skips(bytes, from, i);
        lemma_tagged_from(bytes, mask, analysis, end, i);
        let rest = ident_tokens(bytes, mask, analysis, end);
        let j = rest.index_of(token);
        if let Some(first) = ident_token(bytes, analysis, from) {
            assert(all == seq![first] + rest);
            assert(all[j + 1] == token);
        } else {
            assert(all == rest);
        }
    } else {
        lemma_tagged_from(bytes, mask, analysis, from + 1, i);
    }
}

/// An identifier that starts behind another one starts behind its end.
proof fn lemma_ident_end_skips(bytes: Seq<u8>, from: int, i: int)
    requires
        0 <= from < i < bytes.len(),
        !is_ident_byte(bytes[i - 1]),
    ensures
        ident_end(bytes, from) <= i,
    decreases i - from,
{
    if from < i - 1 {
        lemma_ident_end_skips(bytes, from + 1, i);
    }
}

/// None of the tokens starts inside one of the calls.
pub open spec fn outside_calls(tokens: Seq<RawToken>, calls: Seq<QualifiedCall>) -> bool {
    forall|k: int| 0 <= k < tokens.len() ==> !in_call(calls, (#[trigger] tokens[k]).start as int)
}

/// A library call is tagged as a whole: no identifier inside it gets a token
/// of its own.
pub proof fn law_calls_are_tagged_whole(bytes: Seq<u8>, mask: &CodeMask, analysis: &Analysis)
    requires
        bytes.len() <= usize::MAX,
    ensures
        outside_calls(ident_tokens(bytes, mask, analysis, 0), analysis.library_calls@),
{
    lemma_outside_calls(bytes, mask, analysis, 0);
}

proof fn lemma_outside_calls(bytes: Seq<u8>, mask: &CodeMask, analysis: &Analysis, i: int)
    requires
        bytes.len() <= usize::MAX,
        0 <= i,
    ensures
        outside_calls(ident_tokens(bytes, mask, analysis, i), analysis.library_calls@),
    decreases bytes.len() - i,
{
    if i < bytes.len() {
        if ident_starts(bytes, mask, i) {
            let end = ident_end(bytes, i);
            lemma_ident_end(bytes, i);
            lemma_outside_calls(bytes, mask, analysis, end);
            let rest = ident_tokens(bytes, mask, analysis, end);
            if let Some(token) = ident_token(bytes, analysis, i) {
                let all = seq![token] + rest;
                assert forall|k: int| 0 <= k < all.len() implies !in_call(
                    analysis.library_calls@,
                    (#[trigger] all[k]).start as int,
                ) by {
                    if k > 0 {
                        assert(all[k] == rest[k - 1]);
                    }
                }
            }
        } else {
            lemma_outside_calls(bytes, mask, analysis, i + 1);
        }
    }
}

/// The bytes from `i` up to `end` are an identifier of code: all of them are
/// identifier bytes, and none stands right before or behind them.
pub open spec fn ident_is_written(bytes: Seq<u8>, mask: &CodeMask, i: int, end: int) -> bool {
    &&& 0 <= i < end <= bytes.len()
    &&& mask.code(i)
    &&& forall|k: int| i <= k < end ==> is_ident_byte(#[trigger] bytes[k])
    &&& i > 0 ==> !is_ident_byte(bytes[i - 1])
    &&& end < bytes.len() ==> !is_ident_byte(bytes[end])
}

/// A `(` stands at `at`, with nothing but whitespace between `end` and it.
pub open spec fn opens_behind(bytes: Seq<u8>, end: int, at: int) -> bool {
    &&& end <= at < bytes.len()
    &&& bytes[at] == 0x28
    &&& forall|k: int| end <= k < at ==> is_space_byte(#[trigger] bytes[k])
}

/// A `(` follows at `end`, perhaps behind whitespace.
pub open spec fn paren_follows(bytes: Seq<u8>, end: int) -> bool {
    exists|at: int| #[trigger] opens_behind(bytes, end, at)
}

/// Offset `x` lies inside none of the library calls.
pub open spec fn outside_every_call(calls: Seq<QualifiedCall>, x: int) -> bool {
    forall|k: int|
        0 <= k < calls.len() ==> !((#[trigger] calls[k]).range.start <= x < calls[k].range.end)
}

proof fn lemma_paren_follows(bytes: Seq<u8>, end: int)
    requires
        0 <= end <= bytes.len(),
    ensures
        is_called(bytes, end) <==> paren_follows(bytes, end),
{
    lemma_after_space_found(bytes, end);
    if is_called(bytes, end) {
        assert(opens_behind(bytes, end, after_space(bytes, end)));
    }
    if paren_follows(bytes, end) {
        let at = choose|at: int| #[trigger] opens_behind(bytes, end, at);
        law_after_space(bytes, end, at);
    }
}

proof fn lemma_written_token(
    bytes: Seq<u8>,
    mask: &CodeMask,
    analysis: &Analysis,
    i: int,
    end: int,
)
    requires
        ident_is_written(bytes, mask, i, end),
        outside_every_call(analysis.library_calls@, i),
        ident_type(bytes, analysis, i, end) is Some,
    ensures
        tokens_of(bytes, mask, analysis).contains(
            RawToken {
                start: i as usize,
                end: end as usize,
                token_type: ident_type(bytes, analysis, i, end)->0,
            },
        ),
{
    law_ident_end(bytes, i, end);
    assert(is_ident_byte(bytes[i]));
    law_every_use_is_tagged(bytes, mask, analysis, i);
}

/// Every use of a declared name is tagged with its role: wherever an
/// identifier of code that the symbol table knows stands outside the library
/// calls and is not followed by `(`, there is a token over exactly that
/// identifier with the legend index of its role, whatever else follows it.
pub proof fn law_every_variable_use_is_tagged(
    bytes: Seq<u8>,
    mask: &CodeMask,
    analysis: &Analysis,
    i: int,
    end: int,
    role: Role,
)
    requires
        bytes.len() <= usize::MAX,
        ident_is_written(bytes, mask, i, end),
        outside_every_call(analysis.library_calls@, i),
        !paren_follows(bytes, end),
        lookup(analysis.symbol_roles@, text_between(bytes, i, end)) == Some(role),
    ensures
        tokens_of(bytes, mask, analysis).contains(
            RawToken { start: i as usize, end: end as usize, token_type: role.legend_index() },
        ),
{
    lemma_paren_follows(bytes, end);
    lemma_written_token(bytes, mask, analysis, i, end);
}

/// Every call of a known function is tagged with where the function comes
/// from: the file itself if it defines a function of that name, or else the
/// built-in functions.
pub proof fn law_every_call_is_tagged(
    bytes: Seq<u8>,
    mask: &CodeMask,
    analysis: &Analysis,
    i: int,
    end: int,
)
    requires
        bytes.len() <= usize::MAX,
        ident_is_written(bytes, mask, i, end),
        outside_every_call(analysis.library_calls@, i),
        paren_follows(bytes, end),
    ensures
        ({
            let name = text_between(bytes, i, end);
            let user_defined = exists|k: int|
                0 <= k < analysis.user_functions@.len() && #[trigger] analysis.user_functions@[k]
                    == name;
            let tokens = tokens_of(bytes, mask, analysis);
            &&& user_defined ==> tokens.contains(
                RawToken {
                    start: i as usize,
                    end: end as usize,
                    token_type: TOKEN_USER_FUNCTION,
                },
            )
            &&& !user_defined && builtin(name) ==> tokens.contains(
                RawToken {
                    start: i as usize,
                    end: end as usize,
                    token_type: TOKEN_BUILTIN_FUNCTION,
                },
            )
        }),
{
    let name = text_between(bytes, i, end);
    lemma_paren_follows(bytes, end);
    if ident_type(bytes, analysis, i, end) is Some {
        lemma_written_token(bytes, mask, analysis, i, end);
    }
}

/// Every library call is tagged over its whole range as such.
pub proof fn law_every_library_call_is_tagged(
    bytes: Seq<u8>,
    mask: &CodeMask,
    analysis: &Analysis,
    k: int,
)
    requires
        0 <= k < analysis.library_calls@.len(),
    ensures
        tokens_of(bytes, mask, analysis).contains(
            RawToken {
                start: analysis.library_calls@[k].range.start,
                end: analysis.library_calls@[k].range.end,
                token_type: TOKEN_LIBRARY_FUNCTION,
            },
        ),
{
    broadcast use vstd::seq_lib::group_to_multiset_ensures;

    let calls = library_tokens(analysis.library_calls@);
    let all = calls + ident_tokens(bytes, mask, analysis, 0);
    let token = calls[k];
    assert(all[k] == token);
    assert(all.contains(token));
    law_sort_permutes(all);
    assert(all.to_multiset().count(token) > 0);
    assert(stable_sort(all).contains(token));
}

/// The token is that of an identifier of code outside the library calls: of a
/// function of the file or a built-in one where a `(` follows, of a declared
/// name and its role where none does.
pub open spec fn is_identifier_token(
    bytes: Seq<u8>,
    mask: &CodeMask,
    analysis: &Analysis,
    token: RawToken,
) -> bool {
    let name = text_between(bytes, token.start as int, token.end as int);
    &&& ident_is_written(bytes, mask, token.start as int, token.end as int)
    &&& outside_every_call(analysis.library_calls@, token.start as int)
    &&& if paren_follows(bytes, token.end as int) {
        ||| analysis.user_functions@.contains(name) && token.token_type == TOKEN_USER_FUNCTION
        ||| !analysis.user_functions@.contains(name) && builtin(name) && token.token_type
            == TOKEN_BUILTIN_FUNCTION
    } else {
        lookup(analysis.symbol_roles@, name) matches Some(role) && token.token_type
            == role.legend_index()
    }
}

/// The token is that of a library call.
pub open spec fn is_library_token(analysis: &Analysis, token: RawToken) -> bool {
    exists|k: int|
        {
            &&& 0 <= k < analysis.library_calls@.len()
            &&& token.start == (#[trigger] analysis.library_calls@[k]).range.start
            &&& token.end == analysis.library_calls@[k].range.end
            &&& token.token_type == TOKEN_LIBRARY_FUNCTION
        }
}

/// Nothing else is tagged: every token is that of a library call or that of a
/// known identifier.
pub proof fn law_nothing_else_is_tagged(
    bytes: Seq<u8>,
    mask: &CodeMask,
    analysis: &Analysis,
    k: int,
)
    requires
        bytes.len() <= usize::MAX,
        0 <= k < tokens_of(bytes, mask, analysis).len(),
    ensures
        ({
            let token = tokens_of(bytes, mask, analysis)[k];
            is_library_token(analysis, token) || is_identifier_token(bytes, mask, analysis, token)
        }),
{
    broadcast use vstd::seq_lib::group_to_multiset_ensures;

    let calls = library_tokens(analysis.library_calls@);
    let idents = ident_tokens(bytes, mask, analysis, 0);
    let all = calls + idents;
    let done = stable_sort(all);
    let token = done[k];
    law_sort_permutes(all);
    lemma_ident_tokens_are_known(bytes, mask, analysis, 0);
    assert(done.contains(token));
    assert(all.to_multiset().count(token) > 0);
    assert(all.contains(token));
    let j = all.index_of(token);
    if j < calls.len() {
        assert(calls[j] == token);
        assert(token.start == analysis.library_calls@[j].range.start);
    } else {
        assert(idents[j - calls.len()] == token);
    }
}

/// The tokens are those of identifiers that start at `i` or later, one behind
/// the other.
pub open spec fn are_identifier_tokens(
    bytes: Seq<u8>,
    mask: &CodeMask,
    analysis: &Analysis,
    tokens: Seq<RawToken>,
    i: int,
) -> bool {
    &&& forall|k: int|
        #![trigger tokens[k]]
        0 <= k < tokens.len() ==> i <= tokens[k].start && is_identifier_token(
            bytes,
            mask,
            analysis,
            tokens[k],
        )
    &&& forall|j: int, k: int|
        #![trigger tokens[j], tokens[k]]
        0 <= j < k < tokens.len() ==> tokens[j].end <= tokens[k].start
}

proof fn lemma_ident_tokens_are_known(
    bytes: Seq<u8>,
    mask: &CodeMask,
    analysis: &Analysis,
    i: int,
)
    requires
        bytes.len() <= usize::MAX,
        0 <= i,
    ensures
        are_identifier_tokens(bytes, mask, analysis, ident_tokens(bytes, mask, analysis, i), i),
    decreases bytes.len() - i,
{
    if i < bytes.len() {
        let here = ident_tokens(bytes, mask, analysis, i);
        if ident_starts(bytes, mask, i) {
            let end = ident_end(bytes, i);
            lemma_ident_end(bytes, i);
            lemma_ident_end_found(bytes, i);
            lemma_paren_follows(bytes, end);
            lemma_ident_tokens_are_known(bytes, mask, analysis, end);
            let rest = ident_tokens(bytes, mask, analysis, end);
            if let Some(token) = ident_token(bytes, analysis, i) {
                assert(here == seq![token] + rest);
                assert(ident_is_written(bytes, mask, i, end));
                assert(is_identifier_token(bytes, mask, analysis, token));
                assert forall|k: int|
                    #![trigger here[k]]
                    0 <= k < here.len() implies i <= here[k].start && is_identifier_token(
                    bytes,
                    mask,
                    analysis,
                    here[k],
                ) by {
                    if k > 0 {
                        assert(here[k] == rest[k - 1]);
                    }
                }
                assert forall|j: int, k: int|
                    #![trigger here[j], here[k]]
                    0 <= j < k < here.len() implies here[j].end <= here[k].start by {
                    assert(here[k] == rest[k - 1]);
                    if j > 0 {
                        assert(here[j] == rest[j - 1]);
                    }
                }
            } else {
                assert(here == rest);
            }
        } else {
            lemma_ident_tokens_are_known(bytes, mask, analysis, i + 1);
            assert(here == ident_tokens(bytes, mask, analysis, i + 1));
        }
    } else {
        assert(ident_tokens(bytes, mask, analysis, i).len() == 0);
    }
}

/// Nothing is tagged twice: there is one token for each library call, and the
/// tokens of the identifiers do not overlap.
pub proof fn law_nothing_is_tagged_twice(bytes: Seq<u8>, mask: &CodeMask, analysis: &Analysis)
    requires
        bytes.len() <= usize::MAX,
    ensures
        ({
            let idents = ident_tokens(bytes, mask, analysis, 0);
            &&& tokens_of(bytes, mask, analysis).len() == analysis.library_calls@.len()
                + idents.len()
            &&& forall|j: int, k: int|
                #![trigger idents[j], idents[k]]
                0 <= j < k < idents.len() ==> idents[j].end <= idents[k].start
        }),
{
    let all = library_tokens(analysis.library_calls@) + ident_tokens(bytes, mask, analysis, 0);
    law_sort_permutes(all);
    lemma_ident_tokens_are_known(bytes, mask, analysis, 0);
}

} // verus!
