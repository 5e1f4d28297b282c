//! Byte offsets and protocol positions (a line and a count of UTF-16 code
//! units), and the delta encoding of semantic tokens.

use crate::analysis::Analysis;
use crate::mask::CodeMask;
use crate::sort::{
    Keyed, law_sort_permutes, law_sort_sorts, pair_le, sort_by_key, sorted, stable_sort,
};
use crate::text::{
    byte_units, lemma_after_ascii, lemma_between_valid, lemma_boundary, lemma_line_start,
    lemma_units, lemma_units_concat, line_start, on_boundary, substring, text_between, units,
    utf16_count, utf16_len,
};
use crate::tokens::{
    RawToken, calls_fit, collect_tokens, law_tokens_fit, token_fits, tokens_fit, tokens_of,
};
use vstd::prelude::*;
use vstd::string::*;
use vstd::utf8::*;

verus! {

/// A protocol position: a line and the UTF-16 code units before it on that
/// line, both counted from zero.
#[derive(Debug, Clone, Copy, PartialEq, Eq, Structural)]
pub struct Position {
    pub line: u32,
    pub character: u32,
}

/// A protocol range.
#[derive(Debug, Clone, Copy, PartialEq, Eq, Structural)]
pub struct LspRange {
    pub start: Position,
    pub end: Position,
}

/// A semantic token in the wire format: its position is relative to the token
/// before it.
#[derive(Debug, Clone, Copy, PartialEq, Eq, Structural)]
pub struct SemanticToken {
    pub delta_line: u32,
    pub delta_start: u32,
    pub length: u32,
    pub token_type: u32,
    pub token_modifiers_bitset: u32,
}

// ---------------------------------------------------------------------------
// Lines
// ---------------------------------------------------------------------------

/// How many lines end in the first `n` bytes.
pub open spec fn newline_count(bytes: Seq<u8>, n: int) -> nat
    decreases n,
{
    if n <= 0 {
        0
    } else {
        newline_count(bytes, n - 1) + (if bytes[n - 1] == 0x0a {
            1nat
        } else {
            0nat
        })
    }
}

/// The starts of the lines that begin in the first `n` bytes or right behind
/// them.
pub open spec fn line_starts_to(bytes: Seq<u8>, n: int) -> Seq<usize>
    decreases n,
{
    if n <= 0 {
        seq![0usize]
    } else if bytes[n - 1] == 0x0a {
        line_starts_to(bytes, n - 1).push(n as usize)
    } else {
        line_starts_to(bytes, n - 1)
    }
}

/// The starts of all lines of a text.
pub open spec fn line_starts_of(bytes: Seq<u8>) -> Seq<usize> {
    line_starts_to(bytes, bytes.len() as int)
}

/// The starts of all lines of `source`.
pub fn line_starts(source: &str) -> (r: Vec<usize>)
    ensures
        r@ == line_starts_of(encode_utf8(source@)),
{
    let bytes = source.as_bytes();
    let mut starts: Vec<usize> = vec![0usize];
    let mut i: usize = 0;
    assert(starts@ =~= seq![0usize]);
    while i < bytes.len()
        invariant
            i <= bytes@.len(),
            starts@ == line_starts_to(bytes@, i as int),
        decreases bytes.len() - i,
    {
        if bytes[i] == 0x0a {
            starts.push(i + 1);
        }
        i += 1;
    }
    starts
}

/// The line starts up to `n` are as many as the lines that end before `n`,
/// and one; the last of them is the start of the line of `n`; and the starts
/// up to a later offset continue them.
proof fn lemma_line_starts_to(bytes: Seq<u8>, n: int, m: int)
    requires
        0 <= n <= m <= bytes.len() <= usize::MAX,
    ensures
        line_starts_to(bytes, n).len() == newline_count(bytes, n) + 1,
        line_starts_to(bytes, n).last() == line_start(bytes, n),
        line_starts_to(bytes, n).len() <= line_starts_to(bytes, m).len(),
        forall|k: int|
            #![trigger line_starts_to(bytes, m)[k]]
            0 <= k < line_starts_to(bytes, n).len() ==> line_starts_to(bytes, m)[k]
                == line_starts_to(bytes, n)[k],
        forall|k: int|
            #![trigger line_starts_to(bytes, m)[k]]
            line_starts_to(bytes, n).len() <= k < line_starts_to(bytes, m).len()
                ==> line_starts_to(bytes, m)[k] > n,
    decreases m,
{
    if n < m {
        lemma_line_starts_to(bytes, n, m - 1);
    } else if n > 0 {
        lemma_line_starts_to(bytes, n - 1, n - 1);
    }
}

/// The starts of the lines ascend.
proof fn lemma_line_starts_ascend(bytes: Seq<u8>, n: int)
    requires
        0 <= n <= bytes.len() <= usize::MAX,
    ensures
        line_starts_to(bytes, n).len() > 0,
        forall|j: int, k: int|
            #![trigger line_starts_to(bytes, n)[j], line_starts_to(bytes, n)[k]]
            0 <= j < k < line_starts_to(bytes, n).len() ==> line_starts_to(bytes, n)[j]
                < line_starts_to(bytes, n)[k],
        forall|k: int|
            #![trigger line_starts_to(bytes, n)[k]]
            0 <= k < line_starts_to(bytes, n).len() ==> line_starts_to(bytes, n)[k] <= n,
    decreases n,
{
    if n > 0 {
        lemma_line_starts_ascend(bytes, n - 1);
    }
}

// ---------------------------------------------------------------------------
// Offsets to positions
// ---------------------------------------------------------------------------

/// The UTF-16 code units between two boundaries.
pub open spec fn units_between(bytes: Seq<u8>, start: int, end: int) -> nat {
    utf16_len(text_between(bytes, start, end))
}

/// The position of an offset: the lines that end before it, and the code
/// units between the start of its line and it.
pub open spec fn position_at(bytes: Seq<u8>, offset: int) -> Position {
    Position {
        line: newline_count(bytes, offset) as u32,
        character: units_between(bytes, line_start(bytes, offset), offset) as u32,
    }
}

/// The position of the offset `offset` in `source`, whose lines start at
/// `line_starts`.
pub fn offset_to_position(source: &str, line_starts: &[usize], offset: usize) -> (r: Position)
    requires
        line_starts@ == line_starts_of(encode_utf8(source@)),
        on_boundary(encode_utf8(source@), offset as int),
    ensures
        r == position_at(encode_utf8(source@), offset as int),
{
    let bytes = source.as_bytes();
    let length = bytes.len();
    proof {
        encode_utf8_valid_utf8(source@);
        lemma_line_starts_to(bytes@, offset as int, length as int);
        lemma_line_starts_ascend(bytes@, length as int);
        lemma_line_start(bytes@, offset as int);
    }
    let ghost line = newline_count(bytes@, offset as int) as int;
    assert(line_starts@[line] == line_start(bytes@, offset as int));
    let mut low: usize = 0;
    let mut high: usize = line_starts.len();
    while high - low > 1
        invariant
            low < high <= line_starts@.len(),
            low <= line < high,
            0 <= line < line_starts@.len(),
            line_starts@[line] <= offset,
            forall|k: int| #![trigger line_starts@[k]] line < k < line_starts@.len() ==> line_starts@[k] > offset,
            forall|j: int, k: int|
                #![trigger line_starts@[j], line_starts@[k]]
                0 <= j < k < line_starts@.len() ==> line_starts@[j] < line_starts@[k],
        decreases high - low,
    {
        let middle = low + (high - low) / 2;
        if line_starts[middle] <= offset {
            low = middle;
        } else {
            high = middle;
        }
    }
    let start = line_starts[low];
    let character = utf16_count(substring(source, start, offset));
    Position { line: low as u32, character }
}

// ---------------------------------------------------------------------------
// Positions to offsets
// ---------------------------------------------------------------------------

/// The first boundary from `at` on that has at least `target` code units
/// between `start` and it, or else `end`.
pub open spec fn offset_with_units(
    bytes: Seq<u8>,
    start: int,
    end: int,
    target: nat,
    at: int,
) -> int
    decreases end - at,
{
    if at >= end {
        end
    } else if on_boundary(bytes, at) && units_between(bytes, start, at) >= target {
        at
    } else {
        offset_with_units(bytes, start, end, target, at + 1)
    }
}

/// Where line `line` ends: where the next one starts, or the text ends.
pub open spec fn line_end(bytes: Seq<u8>, line: int) -> int {
    if line + 1 < line_starts_of(bytes).len() {
        line_starts_of(bytes)[line + 1] as int
    } else {
        bytes.len() as int
    }
}

/// The offset of a position: the end of the text for a line that is not
/// there, the end of the line for a character that is not there.
pub open spec fn offset_at(bytes: Seq<u8>, position: Position) -> int {
    let starts = line_starts_of(bytes);
    let line = position.line as int;
    if line >= starts.len() {
        bytes.len() as int
    } else {
        offset_with_units(
            bytes,
            starts[line] as int,
            line_end(bytes, line),
            position.character as nat,
            starts[line] as int,
        )
    }
}

/// The units of the bytes between two boundaries are those of the text
/// between them.
proof fn lemma_units_between(bytes: Seq<u8>, start: int, at: int)
    requires
        valid_utf8(bytes),
        on_boundary(bytes, start),
        on_boundary(bytes, at),
        start <= at,
    ensures
        units(bytes.subrange(start, at)) == units_between(bytes, start, at),
{
    lemma_between_valid(bytes, start, at);
    lemma_units(bytes.subrange(start, at));
}

/// The offset of the position `position` in `source`.
pub fn position_to_offset(source: &str, position: Position) -> (r: usize)
    ensures
        r == offset_at(encode_utf8(source@), position),
        on_boundary(encode_utf8(source@), r as int),
{
    let bytes = source.as_bytes();
    let length = bytes.len();
    let starts = line_starts(source);
    proof {
        encode_utf8_valid_utf8(source@);
        lemma_line_starts_ascend(bytes@, length as int);
    }
    if position.line as u64 >= starts.len() as u64 {
        return length;
    }
    let line = position.line as usize;
    let start = starts[line];
    let end = if line + 1 < starts.len() {
        starts[line + 1]
    } else {
        length
    };
    proof {
        lemma_line_starts_are_boundaries(bytes@, length as int, line as int);
        if line + 1 < starts@.len() {
            lemma_line_starts_are_boundaries(bytes@, length as int, line + 1);
        }
    }
    let target = position.character as u64;
    let mut count: u64 = 0;
    let mut at: usize = start;
    assert(bytes@.subrange(start as int, start as int) =~= Seq::<u8>::empty());
    while at < end
        invariant
            bytes@ == encode_utf8(source@),
            valid_utf8(bytes@),
            length == bytes@.len(),
            start <= at <= end <= length,
            on_boundary(bytes@, start as int),
            target <= u32::MAX,
            count <= target + 1,
            count == units(bytes@.subrange(start as int, at as int)),
            target == position.character,
            line == position.line,
            starts@ == line_starts_of(bytes@),
            line < starts@.len(),
            start == starts@[line as int],
            end == line_end(bytes@, line as int),
            offset_at(bytes@, position) == offset_with_units(
                bytes@,
                start as int,
                end as int,
                target as nat,
                at as int,
            ),
        decreases end - at,
    {
        let b = bytes[at];
        let starts_char = b < 0x80 || b > 0xbf;
        if starts_char {
            proof {
                lemma_units_between(bytes@, start as int, at as int);
            }
            if count >= target {
                return at;
            }
        }
        proof {
            let next = bytes@.subrange(start as int, at + 1);
            assert(next.drop_last() =~= bytes@.subrange(start as int, at as int));
        }
        if b >= 0xf0 {
            count += 2;
        } else if starts_char {
            count += 1;
        }
        at += 1;
    }
    end
}

proof fn lemma_line_starts_are_boundaries(bytes: Seq<u8>, n: int, k: int)
    requires
        valid_utf8(bytes),
        0 <= n <= bytes.len() <= usize::MAX,
        0 <= k < line_starts_to(bytes, n).len(),
    ensures
        on_boundary(bytes, line_starts_to(bytes, n)[k] as int),
        line_start(bytes, line_starts_to(bytes, n)[k] as int) == line_starts_to(bytes, n)[k],
        newline_count(bytes, line_starts_to(bytes, n)[k] as int) == k,
    decreases n,
{
    lemma_line_starts_to(bytes, n, n);
    if n == 0 {
        lemma_boundary(bytes, 0);
    } else if bytes[n - 1] == 0x0a && k == line_starts_to(bytes, n).len() - 1 {
        lemma_after_ascii(bytes, n - 1);
    } else {
        lemma_line_starts_are_boundaries(bytes, n - 1, k);
    }
}

// ---------------------------------------------------------------------------
// Semantic tokens
// ---------------------------------------------------------------------------

/// A token with its position and its length in UTF-16 code units.
#[derive(Debug, Clone, Copy, PartialEq, Eq, Structural)]
pub struct PositionedToken {
    pub position: Position,
    pub length: u32,
    pub token_type: u32,
}

impl Keyed for PositionedToken {
    open spec fn key(self) -> (int, int) {
        (self.position.line as int, self.position.character as int)
    }

    fn key_le(&self, other: &Self) -> (r: bool) {
        self.position.line < other.position.line || (self.position.line == other.position.line
            && self.position.character <= other.position.character)
    }
}

/// A token where it stands in the text.
pub open spec fn positioned(bytes: Seq<u8>, token: RawToken) -> PositionedToken {
    PositionedToken {
        position: position_at(bytes, token.start as int),
        length: units_between(bytes, token.start as int, token.end as int) as u32,
        token_type: token.token_type,
    }
}

/// The tokens where they stand in the text, in the order of their positions.
pub open spec fn positioned_tokens(bytes: Seq<u8>, raw: Seq<RawToken>) -> Seq<PositionedToken> {
    stable_sort(Seq::new(raw.len(), |k: int| positioned(bytes, raw[k])))
}

/// The position before the `k`-th token: the start of the text, or where the
/// token before it starts.
pub open spec fn previous_position(tokens: Seq<PositionedToken>, k: int) -> Position {
    if k <= 0 {
        Position { line: 0, character: 0 }
    } else {
        tokens[k - 1].position
    }
}

/// A token relative to the position before it: by lines, and on the same line
/// by characters.
pub open spec fn relative_to(previous: Position, token: PositionedToken) -> SemanticToken {
    SemanticToken {
        delta_line: (token.position.line - previous.line) as u32,
        delta_start: if token.position.line == previous.line {
            (token.position.character - previous.character) as u32
        } else {
            token.position.character
        },
        length: token.length,
        token_type: token.token_type,
        token_modifiers_bitset: 0,
    }
}

/// The wire format of the tokens.
pub open spec fn delta_encoded(tokens: Seq<PositionedToken>) -> Seq<SemanticToken> {
    Seq::new(tokens.len(), |k: int| relative_to(previous_position(tokens, k), tokens[k]))
}

/// Sort `raw` by position and encode it as the wire format wants it.
pub fn build_semantic_tokens(source: &str, raw: &[RawToken]) -> (r: Vec<SemanticToken>)
    requires
        tokens_fit(encode_utf8(source@), raw@),
    ensures
        r@ == delta_encoded(positioned_tokens(encode_utf8(source@), raw@)),
{
    let ghost bytes = encode_utf8(source@);
    let starts = line_starts(source);
    let mut placed: Vec<PositionedToken> = Vec::new();
    let ghost all = Seq::new(raw@.len(), |k: int| positioned(bytes, raw@[k]));
    let mut k: usize = 0;
    while k < raw.len()
        invariant
            bytes == encode_utf8(source@),
            tokens_fit(bytes, raw@),
            starts@ == line_starts_of(bytes),
            all == Seq::new(raw@.len(), |k: int| positioned(bytes, raw@[k])),
            k <= raw@.len(),
            placed@ == all.subrange(0, k as int),
        decreases raw.len() - k,
    {
        let token = raw[k];
        assert(token_fits(bytes, raw@[k as int]));
        let position = offset_to_position(source, starts.as_slice(), token.start);
        let length = utf16_count(substring(source, token.start, token.end));
        placed.push(PositionedToken { position, length, token_type: token.token_type });
        assert(placed@ =~= all.subrange(0, k + 1));
        k += 1;
    }
    assert(placed@ =~= all);
    let tokens = sort_by_key(&placed);
    proof {
        law_sort_sorts(all);
    }
    let ghost encoded = delta_encoded(tokens@);
    let mut out: Vec<SemanticToken> = Vec::new();
    let mut previous = Position { line: 0, character: 0 };
    let mut n: usize = 0;
    while n < tokens.len()
        invariant
            sorted(tokens@),
            encoded == delta_encoded(tokens@),
            n <= tokens@.len(),
            previous == previous_position(tokens@, n as int),
            out@ == encoded.subrange(0, n as int),
        decreases tokens.len() - n,
    {
        let token = tokens[n];
        assert(n > 0 ==> pair_le(tokens@[n - 1].key(), tokens@[n as int].key()));
        let delta_line: u32 = token.position.line - previous.line;
        let delta_start: u32 = if delta_line == 0 {
            token.position.character - previous.character
        } else {
            token.position.character
        };
        out.push(
            SemanticToken {
                delta_line,
                delta_start,
                length: token.length,
                token_type: token.token_type,
                token_modifiers_bitset: 0,
            },
        );
        previous = token.position;
        assert(out@ =~= encoded.subrange(0, n + 1));
        n += 1;
    }
    assert(out@ =~= encoded);
    out
}

/// The semantic tokens of a file in the wire format.
pub fn semantic_tokens_full(source: &str, mask: &CodeMask, analysis: &Analysis) -> (r: Vec<
    SemanticToken,
>)
    requires
        mask.wf(encode_utf8(source@)),
        calls_fit(encode_utf8(source@), analysis.library_calls@),
    ensures
        r@ == delta_encoded(
            positioned_tokens(
                encode_utf8(source@),
                tokens_of(encode_utf8(source@), mask, analysis),
            ),
        ),
{
    let length = source.as_bytes().len();
    let raw = collect_tokens(source, mask, analysis);
    proof {
        encode_utf8_valid_utf8(source@);
        law_tokens_fit(encode_utf8(source@), mask, analysis);
    }
    build_semantic_tokens(source, raw.as_slice())
}

// ---------------------------------------------------------------------------
// Laws
// ---------------------------------------------------------------------------

proof fn lemma_units_split(bytes: Seq<u8>, start: int, at: int, end: int)
    requires
        0 <= start <= at <= end <= bytes.len(),
    ensures
        units(bytes.subrange(start, end)) == units(bytes.subrange(start, at)) + units(
            bytes.subrange(at, end),
        ),
        at < end && !is_continuation_byte(bytes[at]) ==> units(bytes.subrange(at, end)) >= 1,
{
    assert(bytes.subrange(start, end) =~= bytes.subrange(start, at) + bytes.subrange(at, end));
    lemma_units_concat(bytes.subrange(start, at), bytes.subrange(at, end));
    if at < end {
        let first = bytes.subrange(at, at + 1);
        let rest = bytes.subrange(at + 1, end);
        assert(bytes.subrange(at, end) =~= first + rest);
        lemma_units_concat(first, rest);
        assert(first.drop_last() =~= Seq::<u8>::empty());
        assert(units(first.drop_last()) == 0);
    }
}

/// Of two boundaries on a line, the later one has more code units before it.
proof fn lemma_units_ascend(bytes: Seq<u8>, start: int, at: int, end: int)
    requires
        valid_utf8(bytes),
        on_boundary(bytes, start),
        on_boundary(bytes, at),
        on_boundary(bytes, end),
        start <= at < end,
    ensures
        units_between(bytes, start, at) < units_between(bytes, start, end),
{
    lemma_units_between(bytes, start, at);
    lemma_units_between(bytes, start, end);
    lemma_units_split(bytes, start, at, end);
}

proof fn lemma_finds_offset(bytes: Seq<u8>, start: int, end: int, offset: int, at: int)
    requires
        valid_utf8(bytes),
        on_boundary(bytes, start),
        on_boundary(bytes, offset),
        start <= at <= offset <= end <= bytes.len(),
    ensures
        offset_with_units(bytes, start, end, units_between(bytes, start, offset), at) == offset,
    decreases offset - at,
{
    if at < offset {
        if on_boundary(bytes, at) {
            lemma_units_ascend(bytes, start, at, offset);
        }
        lemma_finds_offset(bytes, start, end, offset, at + 1);
    }
}

/// The position of an offset leads back to the offset. Its line and its
/// character must be within the protocol's 32-bit counts.
pub proof fn law_position_leads_back(bytes: Seq<u8>, offset: int)
    requires
        valid_utf8(bytes),
        bytes.len() <= usize::MAX,
        on_boundary(bytes, offset),
        newline_count(bytes, offset) <= u32::MAX,
        units_between(bytes, line_start(bytes, offset), offset) <= u32::MAX,
    ensures
        offset_at(bytes, position_at(bytes, offset)) == offset,
{
    let n = bytes.len() as int;
    let line = newline_count(bytes, offset) as int;
    let start = line_start(bytes, offset);
    lemma_line_start(bytes, offset);
    lemma_line_starts_to(bytes, offset, n);
    lemma_line_starts_ascend(bytes, n);
    assert(line_starts_of(bytes)[line] == start);
    lemma_finds_offset(bytes, start, line_end(bytes, line), offset, start);
}

/// A later offset has a later position. The line and the character of the
/// later one must be within the protocol's 32-bit counts.
pub proof fn law_positions_ascend(bytes: Seq<u8>, first: int, second: int)
    requires
        valid_utf8(bytes),
        on_boundary(bytes, first),
        on_boundary(bytes, second),
        first < second,
        newline_count(bytes, second) <= u32::MAX,
        units_between(bytes, line_start(bytes, second), second) <= u32::MAX,
    ensures
        position_at(bytes, first).line < position_at(bytes, second).line || (position_at(
            bytes,
            first,
        ).line == position_at(bytes, second).line && position_at(bytes, first).character
            < position_at(bytes, second).character),
{
    lemma_newlines_ascend(bytes, first, second);
    lemma_line_start(bytes, first);
    lemma_line_start(bytes, second);
    if newline_count(bytes, first) == newline_count(bytes, second) {
        let start = line_start(bytes, first);
        lemma_units_ascend(bytes, start, first, second);
    }
}

proof fn lemma_newlines_ascend(bytes: Seq<u8>, first: int, second: int)
    requires
        0 <= first <= second <= bytes.len(),
    ensures
        newline_count(bytes, first) <= newline_count(bytes, second),
        newline_count(bytes, first) == newline_count(bytes, second) ==> line_start(bytes, first)
            == line_start(bytes, second),
    decreases second,
{
    if first < second {
        lemma_newlines_ascend(bytes, first, second - 1);
    }
}

/// The starts of the lines are zero and the offsets behind line feeds, in
/// ascending order.
pub proof fn law_line_starts(bytes: Seq<u8>)
    requires
        bytes.len() <= usize::MAX,
    ensures
        forall|j: int, k: int|
            #![trigger line_starts_of(bytes)[j], line_starts_of(bytes)[k]]
            0 <= j < k < line_starts_of(bytes).len() ==> line_starts_of(bytes)[j]
                < line_starts_of(bytes)[k],
        forall|x: usize| #[trigger]
            line_starts_of(bytes).contains(x) <==> x == 0 || (x <= bytes.len() && bytes[x - 1]
                == 0x0a),
{
    lemma_line_starts_ascend(bytes, bytes.len() as int);
    assert forall|x: usize| #[trigger] line_starts_of(bytes).contains(x) <==> x == 0 || (x
        <= bytes.len() && bytes[x - 1] == 0x0a) by {
        lemma_line_starts_hold(bytes, bytes.len() as int, x);
    }
}

proof fn lemma_line_starts_hold(bytes: Seq<u8>, n: int, x: usize)
    requires
        0 <= n <= bytes.len() <= usize::MAX,
    ensures
        line_starts_to(bytes, n).contains(x) <==> x == 0 || (x <= n && bytes[x - 1] == 0x0a),
    decreases n,
{
    let all = line_starts_to(bytes, n);
    if n == 0 {
        assert(all[0] == 0);
    } else {
        lemma_line_starts_hold(bytes, n - 1, x);
        let before = line_starts_to(bytes, n - 1);
        if before.contains(x) {
            let j = before.index_of(x);
            assert(all[j] == x);
        }
        if bytes[n - 1] == 0x0a {
            assert(all[before.len() as int] == n);
        }
        if all.contains(x) {
            let j = all.index_of(x);
            if j < before.len() {
                assert(before[j] == x);
            }
        }
    }
}

/// The position at which a client that adds up the deltas places the `k`-th
/// token.
pub open spec fn decoded_position(tokens: Seq<SemanticToken>, k: int) -> (int, int)
    decreases k + 1,
{
    if k < 0 {
        (0, 0)
    } else {
        let previous = decoded_position(tokens, k - 1);
        if tokens[k].delta_line == 0 {
            (previous.0, previous.1 + tokens[k].delta_start)
        } else {
            (previous.0 + tokens[k].delta_line, tokens[k].delta_start as int)
        }
    }
}

/// Adding up the deltas gives back the position of every token.
pub proof fn law_deltas_lead_back(tokens: Seq<PositionedToken>, k: int)
    requires
        sorted(tokens),
        0 <= k < tokens.len(),
    ensures
        decoded_position(delta_encoded(tokens), k) == tokens[k].key(),
    decreases k,
{
    reveal_with_fuel(decoded_position, 2);
    if k > 0 {
        law_deltas_lead_back(tokens, k - 1);
        assert(pair_le(tokens[k - 1].key(), tokens[k].key()));
    }
}

/// The tokens that are encoded are in the order of their positions, so a
/// client that adds up the deltas finds every one of them.
pub proof fn law_wire_format_is_readable(bytes: Seq<u8>, raw: Seq<RawToken>, k: int)
    requires
        0 <= k < raw.len(),
    ensures
        positioned_tokens(bytes, raw).len() == raw.len(),
        decoded_position(delta_encoded(positioned_tokens(bytes, raw)), k) == positioned_tokens(
            bytes,
            raw,
        )[k].key(),
{
    let all = Seq::new(raw.len(), |k: int| positioned(bytes, raw[k]));
    law_sort_sorts(all);
    law_sort_permutes(all);
    law_deltas_lead_back(positioned_tokens(bytes, raw), k);
}

/// Where no line feed stands between two offsets, both are on the same line.
proof fn lemma_same_line(bytes: Seq<u8>, first: int, second: int)
    requires
        0 <= first <= second <= bytes.len(),
        forall|k: int| first <= k < second ==> #[trigger] bytes[k] != 0x0a,
    ensures
        newline_count(bytes, second) == newline_count(bytes, first),
        line_start(bytes, second) == line_start(bytes, first),
    decreases second - first,
{
    if first < second {
        lemma_same_line(bytes, first, second - 1);
        assert(bytes[second - 1] != 0x0a);
    }
}

/// The code units of a character are counted at its first byte.
proof fn lemma_character_units(bytes: Seq<u8>, at: int, next: int)
    requires
        0 <= at < next <= bytes.len(),
        forall|k: int| at < k < next ==> is_continuation_byte(#[trigger] bytes[k]),
    ensures
        units(bytes.subrange(at, next)) == byte_units(bytes[at]),
    decreases next - at,
{
    let part = bytes.subrange(at, next);
    assert(part.drop_last() =~= bytes.subrange(at, next - 1));
    if next == at + 1 {
        assert(units(part.drop_last()) == 0);
    } else {
        lemma_character_units(bytes, at, next - 1);
        assert(is_continuation_byte(bytes[next - 1]));
    }
}

proof fn lemma_newlines_bounded(bytes: Seq<u8>, n: int)
    requires
        0 <= n <= bytes.len(),
    ensures
        newline_count(bytes, n) <= n,
    decreases n,
{
    if n > 0 {
        lemma_newlines_bounded(bytes, n - 1);
    }
}

/// Positions are counted character by character. The text starts at line zero,
/// character zero. Behind a line feed the next line starts at character zero;
/// behind any other character the position is on the same line, two code units
/// further if the character takes four bytes, and one if it takes fewer. The
/// offset must be within the protocol's 32-bit counts.
pub proof fn law_position_steps(bytes: Seq<u8>, offset: int, next: int)
    requires
        valid_utf8(bytes),
        on_boundary(bytes, offset),
        on_boundary(bytes, next),
        offset < next <= u32::MAX,
        forall|k: int| offset < k < next ==> !#[trigger] on_boundary(bytes, k),
    ensures
        ({
            let here = position_at(bytes, offset);
            let there = position_at(bytes, next);
            if bytes[offset] == 0x0a {
                &&& there.line == here.line + 1
                &&& there.character == 0
            } else {
                &&& there.line == here.line
                &&& there.character == here.character + (if bytes[offset] >= 0xf0 {
                    2int
                } else {
                    1int
                })
            }
        }),
{
    let start = line_start(bytes, offset);
    lemma_line_start(bytes, offset);
    lemma_line_start(bytes, next);
    lemma_newlines_bounded(bytes, next);
    assert forall|k: int| offset < k < next implies is_continuation_byte(#[trigger] bytes[k]) by {
        assert(!on_boundary(bytes, k));
    }
    if bytes[offset] == 0x0a {
        lemma_after_ascii(bytes, offset);
        assert(next == offset + 1) by {
            if offset + 1 < next {
                assert(!on_boundary(bytes, offset + 1));
            }
        }
        lemma_units_between(bytes, next, next);
        assert(bytes.subrange(next, next) =~= Seq::<u8>::empty());
    } else {
        assert forall|k: int| offset <= k < next implies #[trigger] bytes[k] != 0x0a by {
            if k > offset {
                assert(is_continuation_byte(bytes[k]));
            }
        }
        lemma_same_line(bytes, offset, next);
        lemma_units_between(bytes, start, offset);
        lemma_units_between(bytes, start, next);
        lemma_units_split(bytes, start, offset, next);
        lemma_character_units(bytes, offset, next);
        lemma_between_valid(bytes, start, next);
        lemma_units(bytes.subrange(start, next));
    }
}

/// A text starts at line zero, character zero.
pub proof fn law_first_position(bytes: Seq<u8>)
    requires
        valid_utf8(bytes),
    ensures
        position_at(bytes, 0) == (Position { line: 0, character: 0 }),
{
    lemma_boundary(bytes, 0);
    lemma_units_between(bytes, 0, 0);
    assert(bytes.subrange(0, 0) =~= Seq::<u8>::empty());
}

proof fn lemma_offset_with_units(bytes: Seq<u8>, start: int, end: int, target: nat, at: int)
    requires
        0 <= start <= at <= end <= bytes.len(),
        on_boundary(bytes, end),
    ensures
        ({
            let found = offset_with_units(bytes, start, end, target, at);
            &&& at <= found <= end
            &&& on_boundary(bytes, found)
            &&& found < end ==> units_between(bytes, start, found) >= target
            &&& forall|k: int|
                at <= k < found && #[trigger] on_boundary(bytes, k) ==> units_between(
                    bytes,
                    start,
                    k,
                ) < target
        }),
    decreases end - at,
{
    if at < end && !(on_boundary(bytes, at) && units_between(bytes, start, at) >= target) {
        lemma_offset_with_units(bytes, start, end, target, at + 1);
    }
}

/// The offset of a position is on its line, at the first character that has as
/// many code units before it as the position says, or else where the line
/// ends; a line that is not there is taken for the end of the text.
pub proof fn law_offset_of_a_position(bytes: Seq<u8>, position: Position)
    requires
        valid_utf8(bytes),
        bytes.len() <= usize::MAX,
    ensures
        ({
            let starts = line_starts_of(bytes);
            let line = position.line as int;
            let found = offset_at(bytes, position);
            let end = if line + 1 < starts.len() {
                starts[line + 1] as int
            } else {
                bytes.len() as int
            };
            &&& on_boundary(bytes, found)
            &&& line >= starts.len() ==> found == bytes.len()
            &&& line < starts.len() ==> {
                &&& starts[line] <= found <= end
                &&& found < end ==> units_between(bytes, starts[line] as int, found)
                    >= position.character
                &&& forall|k: int|
                    starts[line] <= k < found && #[trigger] on_boundary(bytes, k) ==> units_between(
                        bytes,
                        starts[line] as int,
                        k,
                    ) < position.character
            }
        }),
{
    let n = bytes.len() as int;
    let starts = line_starts_of(bytes);
    let line = position.line as int;
    lemma_line_starts_ascend(bytes, n);
    lemma_boundary(bytes, n);
    if line < starts.len() {
        lemma_line_starts_are_boundaries(bytes, n, line);
        if line + 1 < starts.len() {
            lemma_line_starts_are_boundaries(bytes, n, line + 1);
        }
        lemma_offset_with_units(
            bytes,
            starts[line] as int,
            line_end(bytes, line),
            position.character as nat,
            starts[line] as int,
        );
    }
}

/// The tokens as a client that adds up the deltas reads them.
pub open spec fn decoded(tokens: Seq<SemanticToken>) -> Seq<PositionedToken> {
    Seq::new(
        tokens.len(),
        |k: int|
            PositionedToken {
                position: Position {
                    line: decoded_position(tokens, k).0 as u32,
                    character: decoded_position(tokens, k).1 as u32,
                },
                length: tokens[k].length,
                token_type: tokens[k].token_type,
            },
    )
}

/// What a client reads out of the wire format are the tokens that were put in,
/// each as often as it was put in: its position, its length in code units and
/// its type. No token has a modifier.
pub proof fn law_every_token_reaches_the_client(bytes: Seq<u8>, raw: Seq<RawToken>)
    ensures
        ({
            let sent = delta_encoded(positioned_tokens(bytes, raw));
            &&& sent.len() == raw.len()
            &&& decoded(sent).to_multiset() == Seq::new(
                raw.len(),
                |k: int|
                    PositionedToken {
                        position: position_at(bytes, raw[k].start as int),
                        length: utf16_len(
                            text_between(bytes, raw[k].start as int, raw[k].end as int),
                        ) as u32,
                        token_type: raw[k].token_type,
                    },
            ).to_multiset()
            &&& forall|k: int|
                0 <= k < sent.len() ==> (#[trigger] sent[k]).token_modifiers_bitset == 0
        }),
{
    let all = Seq::new(raw.len(), |k: int| positioned(bytes, raw[k]));
    let put_in = Seq::new(
        raw.len(),
        |k: int|
            PositionedToken {
                position: position_at(bytes, raw[k].start as int),
                length: utf16_len(
                    text_between(bytes, raw[k].start as int, raw[k].end as int),
                ) as u32,
                token_type: raw[k].token_type,
            },
    );
    assert(all =~= put_in);
    law_sort_sorts(all);
    law_sort_permutes(all);
    let tokens = positioned_tokens(bytes, raw);
    let sent = delta_encoded(tokens);
    assert forall|k: int| 0 <= k < sent.len() implies decoded(sent)[k] == tokens[k] by {
        law_deltas_lead_back(tokens, k);
    }
    assert(decoded(sent) =~= tokens);
}

} // verus!
