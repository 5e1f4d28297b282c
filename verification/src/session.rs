//! The decisions of an editing session: which edit a diagnostics pass still
//! belongs to, what is under the cursor, and what to do with the bytes that
//! arrive before the first message.

use crate::analysis::QualifiedCall;
use crate::declarations::after_space;
use crate::diagnostics::{shown_range, to_lsp_range};
use crate::position::{LspRange, Position, line_starts, offset_at, position_at, position_to_offset};
use crate::text::{is_ascii_whitespace, is_space_byte, offset_view};
use crate::tokens::in_call;
use crate::workspace::{
    PackageFile, defined_at, definition_from, definition_is_written, find_function_definition,
    header_at, law_definition_is_the_first, law_what_a_definition_is, lemma_header_boundaries,
};
use vstd::prelude::*;
use vstd::string::*;
use vstd::utf8::*;

verus! {

// ---------------------------------------------------------------------------
// Debouncing
// ---------------------------------------------------------------------------

/// How long to wait after an edit before its diagnostics are computed, in
/// milliseconds.
pub const DIAGNOSTICS_DEBOUNCE_MILLIS: u64 = 350;

/// Counts the edits of a document. Each edit draws a ticket; a pass over the
/// document belongs to the edit whose ticket it holds.
#[derive(Debug)]
pub struct EditCounter {
    latest: u64,
}

impl View for EditCounter {
    type V = nat;

    closed spec fn view(&self) -> nat {
        self.latest as nat
    }
}

impl EditCounter {
    /// The counter of a document that has not been edited.
    pub fn new() -> (r: EditCounter)
        ensures
            r@ == 0,
    {
        EditCounter { latest: 0 }
    }

    /// How many edits there were.
    pub fn count(&self) -> (r: u64)
        ensures
            r == self@,
    {
        self.latest
    }

    /// Count an edit and draw its ticket.
    pub fn edit(&mut self) -> (ticket: u64)
        requires
            old(self)@ < u64::MAX,
        ensures
            final(self)@ == old(self)@ + 1,
            ticket == final(self)@,
    {
        self.latest = self.latest + 1;
        self.latest
    }

    /// Whether no edit came after that of `ticket`.
    pub fn is_current(&self, ticket: u64) -> (r: bool)
        ensures
            r == is_latest(self@, ticket as nat),
    {
        self.latest == ticket
    }
}

/// The ticket is that of the latest of `count` edits.
pub open spec fn is_latest(count: nat, ticket: nat) -> bool {
    ticket == count
}

/// Of the tickets that a counter has given out, from one up to its count,
/// only the last is current: an edit supersedes every earlier one.
pub proof fn law_only_the_latest_edit_is_current(count: nat, first: nat, second: nat)
    requires
        1 <= first < second <= count,
    ensures
        !is_latest(count, first),
        is_latest(count, count),
        forall|later: nat| count < later ==> !#[trigger] is_latest(later, count),
{
}

/// What becomes of a diagnostics pass once its wait is over.
#[derive(Debug, Clone, Copy, PartialEq, Eq, Structural)]
pub enum DiagnosticsStep {
    /// A newer edit has its own pass: this one ends.
    Superseded,
    /// The document is not open any more: the pass ends.
    Closed,
    /// The pass goes on.
    Compute,
}

/// What becomes of the pass with the ticket `ticket` once its wait is over.
pub fn after_wait(counter: &EditCounter, ticket: u64, is_open: bool) -> (r: DiagnosticsStep)
    ensures
        r == (if !is_latest(counter@, ticket as nat) {
            DiagnosticsStep::Superseded
        } else if !is_open {
            DiagnosticsStep::Closed
        } else {
            DiagnosticsStep::Compute
        }),
{
    if !counter.is_current(ticket) {
        DiagnosticsStep::Superseded
    } else if !is_open {
        DiagnosticsStep::Closed
    } else {
        DiagnosticsStep::Compute
    }
}

/// The text of a document after changes that each replace all of it: the last
/// one counts. `None` if there are none.
pub fn latest_change(changes: &Vec<String>) -> (r: Option<&str>)
    ensures
        r is Some <==> changes@.len() > 0,
        r matches Some(text) ==> text@ == changes@.last()@,
{
    if changes.len() == 0 {
        None
    } else {
        Some(changes[changes.len() - 1].as_str())
    }
}

// ---------------------------------------------------------------------------
// Under the cursor
// ---------------------------------------------------------------------------

/// The first call, from the `k`-th on, that `offset` lies in.
pub open spec fn call_around(calls: Seq<QualifiedCall>, offset: int, k: int) -> Option<int>
    decreases calls.len() - k,
{
    if k < 0 || k >= calls.len() {
        None
    } else if calls[k].range.start <= offset < calls[k].range.end {
        Some(k)
    } else {
        call_around(calls, offset, k + 1)
    }
}

/// The call that the position `position` of `source` lies in: the one to show
/// documentation of, or to go to the definition of.
pub fn call_at_position(source: &str, calls: &Vec<QualifiedCall>, position: Position) -> (r: Option<
    usize,
>)
    ensures
        offset_view(r) == call_around(calls@, offset_at(encode_utf8(source@), position), 0),
        r matches Some(k) ==> k < calls@.len(),
{
    let offset = position_to_offset(source, position);
    let mut k: usize = 0;
    while k < calls.len()
        invariant
            k <= calls@.len(),
            offset == offset_at(encode_utf8(source@), position),
            call_around(calls@, offset as int, 0) == call_around(calls@, offset as int, k as int),
        decreases calls.len() - k,
    {
        if calls[k].range.start <= offset && offset < calls[k].range.end {
            return Some(k);
        }
        k += 1;
    }
    None
}

/// What is under the cursor is a library call exactly if it is coloured as
/// one.
pub proof fn law_call_under_cursor(calls: Seq<QualifiedCall>, offset: int)
    ensures
        call_around(calls, offset, 0) is Some <==> in_call(calls, offset),
{
    lemma_call_around(calls, offset, 0);
}

proof fn lemma_call_around(calls: Seq<QualifiedCall>, offset: int, from: int)
    requires
        0 <= from,
    ensures
        match call_around(calls, offset, from) {
            Some(k) => from <= k < calls.len() && calls[k].range.start <= offset
                < calls[k].range.end,
            None => forall|k: int|
                from <= k < calls.len() ==> !((#[trigger] calls[k]).range.start <= offset
                    < calls[k].range.end),
        },
    decreases calls.len() - from,
{
    if from < calls.len() {
        lemma_call_around(calls, offset, from + 1);
    }
}

/// The text shown over a call: its documentation, as it is, in a code block.
pub fn hover_text(rendered: &str) -> (r: String)
    ensures
        r@ == "```\n"@ + rendered@ + "```"@,
{
    let mut s = String::new();
    s.append("```\n");
    s.append(rendered);
    s.append("```");
    assert(s@ =~= "```\n"@ + rendered@ + "```"@);
    s
}

/// Where a definition is shown: the name of the function at `offset` of
/// `source`, which is where its header was found.
fn definition_range(source: &str, offset: usize, func: &str) -> (r: LspRange)
    requires
        header_at(encode_utf8(source@), encode_utf8(func@), offset as int),
    ensures
        r == shown_range(
            encode_utf8(source@),
            (offset as int, offset + encode_utf8(func@).len()),
        ),
{
    proof {
        encode_utf8_valid_utf8(source@);
        encode_utf8_valid_utf8(func@);
        lemma_header_boundaries(encode_utf8(source@), encode_utf8(func@), offset as int);
    }
    let length = source.as_bytes().len();
    assert(offset + encode_utf8(func@).len() <= length);
    let end = offset + func.as_bytes().len();
    let starts = line_starts(source);
    to_lsp_range(source, starts.as_slice(), offset..end)
}

/// Where the definition of `func` among the files of its package is shown.
pub open spec fn definition_target(files: Seq<PackageFile>, func: Seq<char>) -> Option<
    (int, LspRange),
> {
    match definition_from(files, func, 0) {
        Some((k, offset)) => {
            let bytes = encode_utf8(files[k].source->0@);
            Some((k, shown_range(bytes, (offset, offset + encode_utf8(func).len()))))
        },
        None => None,
    }
}

/// Where to go to from a call of `func`: the index of the source file of its
/// package that defines it, and the range of its name in the header there.
pub fn goto_definition(files: &Vec<PackageFile>, func: &str) -> (r: Option<(usize, LspRange)>)
    ensures
        match r {
            Some((k, range)) => definition_target(files@, func@) == Some((k as int, range)),
            None => definition_target(files@, func@) is None,
        },
{
    match find_function_definition(files, func) {
        Some((k, offset)) => match &files[k].source {
            Some(source) => Some((k, definition_range(source.as_str(), offset, func))),
            None => None,
        },
        None => None,
    }
}

// ---------------------------------------------------------------------------
// Before the first message
// ---------------------------------------------------------------------------

/// What to do with a byte that was read.
#[derive(Debug, Clone, Copy, PartialEq, Eq, Structural)]
pub enum InputStep {
    /// Drop it and read another one.
    ReadOn,
    /// Hand it on.
    Deliver(u8),
    /// There was none: the input is at its end.
    End,
}

/// Drops the whitespace that arrives before the first message, such as the
/// line feed of a key pressed in a terminal. Everything after the first other
/// byte is handed on as it is.
#[derive(Debug)]
pub struct LeadingWhitespace {
    skipping: bool,
}

/// What to do with a byte, or with the end of the input, while `skipping`;
/// and whether to go on skipping.
pub open spec fn input_step(skipping: bool, byte: Option<u8>) -> (InputStep, bool) {
    match byte {
        None => (InputStep::End, false),
        Some(b) => if skipping && is_space_byte(b) {
            (InputStep::ReadOn, true)
        } else {
            (InputStep::Deliver(b), false)
        },
    }
}

impl View for LeadingWhitespace {
    type V = bool;

    closed spec fn view(&self) -> bool {
        self.skipping
    }
}

impl LeadingWhitespace {
    /// Skip, as nothing has been read yet.
    pub fn new() -> (r: LeadingWhitespace)
        ensures
            r@,
    {
        LeadingWhitespace { skipping: true }
    }

    /// Whether whitespace is still being dropped.
    pub fn is_skipping(&self) -> (r: bool)
        ensures
            r == self@,
    {
        self.skipping
    }

    /// Decide on the byte that was read; `None` if the input is at its end.
    pub fn step(&mut self, byte: Option<u8>) -> (r: InputStep)
        ensures
            (r, final(self)@) == input_step(old(self)@, byte),
    {
        match byte {
            None => {
                self.skipping = false;
                InputStep::End
            },
            Some(b) => {
                if self.skipping && is_ascii_whitespace(b) {
                    InputStep::ReadOn
                } else {
                    self.skipping = false;
                    InputStep::Deliver(b)
                }
            },
        }
    }
}

/// The bytes that are handed on of the input `input`.
pub open spec fn delivered(skipping: bool, input: Seq<u8>) -> Seq<u8>
    decreases input.len(),
{
    if input.len() == 0 {
        seq![]
    } else {
        let (step, next) = input_step(skipping, Some(input[0]));
        let rest = delivered(next, input.drop_first());
        match step {
            InputStep::Deliver(b) => seq![b] + rest,
            _ => rest,
        }
    }
}

/// Exactly the leading whitespace of the input is dropped: up to the first
/// other byte, everything; from it on, nothing.
pub proof fn law_only_leading_whitespace_is_dropped(input: Seq<u8>)
    ensures
        delivered(true, input) == input.subrange(after_space(input, 0), input.len() as int),
        delivered(false, input) == input,
        0 <= after_space(input, 0) <= input.len(),
    decreases input.len(),
{
    if input.len() > 0 {
        let rest = input.drop_first();
        law_only_leading_whitespace_is_dropped(rest);
        assert(seq![input[0]] + rest =~= input);
        if is_space_byte(input[0]) {
            lemma_after_space_shift(input, 1);
            assert(rest.subrange(after_space(rest, 0), rest.len() as int) =~= input.subrange(
                after_space(input, 0),
                input.len() as int,
            ));
        } else {
            assert(input.subrange(0, input.len() as int) =~= input);
        }
    }
}

proof fn lemma_after_space_shift(input: Seq<u8>, i: int)
    requires
        1 <= i <= input.len(),
    ensures
        after_space(input, i) == after_space(input.drop_first(), i - 1) + 1,
    decreases input.len() - i,
{
    if i < input.len() {
        assert(input.drop_first()[i - 1] == input[i]);
        if is_space_byte(input[i]) {
            lemma_after_space_shift(input, i + 1);
        }
    }
}

/// The first definition of `func` in the file is written at `offset`, and
/// `range` runs over the name there, in the text of the file.
pub open spec fn is_shown_definition(
    file: PackageFile,
    func: Seq<char>,
    offset: int,
    range: LspRange,
) -> bool {
    let bytes = encode_utf8(file.source->0@);
    &&& definition_is_written(file, func, offset)
    &&& range.start == position_at(bytes, offset)
    &&& range.end == position_at(bytes, offset + encode_utf8(func).len())
    &&& forall|o: int| #[trigger] definition_is_written(file, func, o) ==> offset <= o
}

/// Going to the definition of a function opens a file that defines it, at its
/// name in a header of it: the range runs over the name in the text of that
/// very file. No earlier file has a definition, nor has that file an earlier
/// one. Where there is nothing to go to, no file has a definition.
pub proof fn law_definition_is_where_the_function_is(files: Seq<PackageFile>, func: Seq<char>)
    ensures
        match definition_target(files, func) {
            Some((k, range)) => {
                &&& 0 <= k < files.len()
                &&& exists|offset: int| #[trigger]
                    is_shown_definition(files[k], func, offset, range)
                &&& forall|j: int, o: int|
                    0 <= j < k ==> !#[trigger] definition_is_written(files[j], func, o)
            },
            None => forall|j: int, o: int|
                0 <= j < files.len() ==> !#[trigger] definition_is_written(files[j], func, o),
        },
{
    law_definition_is_the_first(files, func);
    assert forall|j: int, o: int|
        0 <= j < files.len() && #[trigger] definition_is_written(files[j], func, o) implies 0 <= o
        && defined_at(files[j], func, o) by {
        law_what_a_definition_is(files[j], func, o);
    }
    if let Some((k, offset)) = definition_from(files, func, 0) {
        let (_, range) = definition_target(files, func)->0;
        law_what_a_definition_is(files[k], func, offset);
        assert forall|o: int| #[trigger] definition_is_written(files[k], func, o) implies offset
            <= o by {
            assert(defined_at(files[k], func, o));
        }
        assert(is_shown_definition(files[k], func, offset, range));
        assert forall|j: int, o: int| 0 <= j < k implies !#[trigger] definition_is_written(
            files[j],
            func,
            o,
        ) by {
            if definition_is_written(files[j], func, o) {
                assert(defined_at(files[j], func, o));
            }
        }
    }
}

/// The call under the cursor is the first one whose range holds the offset;
/// there is none if no range holds it.
pub proof fn law_call_under_cursor_is_the_first(calls: Seq<QualifiedCall>, offset: int)
    ensures
        match call_around(calls, offset, 0) {
            Some(k) => {
                &&& 0 <= k < calls.len()
                &&& calls[k].range.start <= offset < calls[k].range.end
                &&& forall|j: int|
                    0 <= j < k ==> !((#[trigger] calls[j]).range.start <= offset
                        < calls[j].range.end)
            },
            None => forall|j: int|
                0 <= j < calls.len() ==> !((#[trigger] calls[j]).range.start <= offset
                    < calls[j].range.end),
        },
{
    lemma_call_around_first(calls, offset, 0);
}

proof fn lemma_call_around_first(calls: Seq<QualifiedCall>, offset: int, from: int)
    requires
        0 <= from,
    ensures
        match call_around(calls, offset, from) {
            Some(k) => {
                &&& from <= k < calls.len()
                &&& calls[k].range.start <= offset < calls[k].range.end
                &&& forall|j: int|
                    from <= j < k ==> !((#[trigger] calls[j]).range.start <= offset
                        < calls[j].range.end)
            },
            None => forall|j: int|
                from <= j < calls.len() ==> !((#[trigger] calls[j]).range.start <= offset
                    < calls[j].range.end),
        },
    decreases calls.len() - from,
{
    if from < calls.len() {
        lemma_call_around_first(calls, offset, from + 1);
    }
}

/// What is handed on of an input that is made of whitespace and then of
/// something that does not start with whitespace is the latter, byte for byte.
pub proof fn law_the_message_arrives_whole(space: Seq<u8>, message: Seq<u8>)
    requires
        forall|i: int|
            0 <= i < space.len() ==> (#[trigger] space[i] == 0x20 || space[i] == 0x09 || space[i]
                == 0x0a || space[i] == 0x0c || space[i] == 0x0d),
        message.len() > 0 ==> !(message[0] == 0x20 || message[0] == 0x09 || message[0] == 0x0a
            || message[0] == 0x0c || message[0] == 0x0d),
    ensures
        delivered(true, space + message) == message,
    decreases space.len(),
{
    let input = space + message;
    if space.len() == 0 {
        assert(input =~= message);
        if input.len() > 0 {
            law_only_leading_whitespace_is_dropped(input.drop_first());
            assert(seq![input[0]] + input.drop_first() =~= input);
        }
    } else {
        assert(input[0] == space[0]);
        assert(input.drop_first() =~= space.drop_first() + message);
        assert forall|i: int| 0 <= i < space.drop_first().len() implies (
        #[trigger] space.drop_first()[i] == 0x20 || space.drop_first()[i] == 0x09
            || space.drop_first()[i] == 0x0a || space.drop_first()[i] == 0x0c
            || space.drop_first()[i] == 0x0d) by {
            assert(space[i + 1] == space.drop_first()[i]);
        }
        law_the_message_arrives_whole(space.drop_first(), message);
    }
}

/// What becomes of each byte: whitespace is dropped as long as nothing else
/// has come, anything else is handed on and ends the dropping, and the end of
/// the input is the end.
pub proof fn law_input_steps(b: u8)
    ensures
        ({
            let space = b == 0x20 || b == 0x09 || b == 0x0a || b == 0x0c || b == 0x0d;
            &&& space ==> input_step(true, Some(b)) == (InputStep::ReadOn, true)
            &&& !space ==> input_step(true, Some(b)) == (InputStep::Deliver(b), false)
            &&& input_step(false, Some(b)) == (InputStep::Deliver(b), false)
            &&& input_step(true, None) == (InputStep::End, false)
            &&& input_step(false, None) == (InputStep::End, false)
        }),
{
}

} // verus!
