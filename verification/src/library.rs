//! Turning a `.laplacelib` file into a program that `stanc` accepts.
//!
//! A library is a bag of function definitions, not a program. It is rewritten
//! into the program that means the same: its `library { }` blocks first, then
//! all of its definitions in a single `functions { }` block. Definitions are
//! moved, since a file may interleave them with its `library { }` block, so
//! the rewriting remembers where every byte came from.

use crate::blocks::{BlockKind, TopLevelBlock};
use crate::dialect::Dialect;
use crate::text::{
    is_boundary, lemma_boundary, lemma_encode_concat, offset_view, on_boundary, substring,
};
use std::ops::Range;
use vstd::prelude::*;
use vstd::string::*;
use vstd::utf8::*;

verus! {

/// A `.laplacelib` file rewritten as a program, and where its parts came
/// from.
#[derive(Debug)]
pub struct WrappedLibrary {
    /// The program.
    pub text: String,
    /// The ranges of the program that are copies, in ascending order, each
    /// with the offset in the file that it was copied from. The rest of the
    /// program is made up.
    pub segments: Vec<(Range<usize>, usize)>,
}

/// A program and its copied ranges.
pub struct WrappedView {
    pub bytes: Seq<u8>,
    pub segments: Seq<(Range<usize>, usize)>,
}

impl View for WrappedLibrary {
    type V = WrappedView;

    open spec fn view(&self) -> WrappedView {
        WrappedView { bytes: encode_utf8(self.text@), segments: self.segments@ }
    }
}

// ---------------------------------------------------------------------------
// Rewriting
// ---------------------------------------------------------------------------

/// The program with a range of the file copied to its end. An empty range
/// leaves it as it is.
pub open spec fn with_copy(w: WrappedView, bytes: Seq<u8>, start: int, end: int) -> WrappedView {
    if start >= end {
        w
    } else {
        let at = w.bytes.len();
        WrappedView {
            bytes: w.bytes + bytes.subrange(start, end),
            segments: w.segments.push(
                (Range { start: at as usize, end: (at + (end - start)) as usize }, start as usize),
            ),
        }
    }
}

/// The program with text made up at its end.
pub open spec fn with_text(w: WrappedView, text: Seq<char>) -> WrappedView {
    WrappedView { bytes: w.bytes + encode_utf8(text), segments: w.segments }
}

/// The program with the first `n` blocks gone through: the `library { }`
/// blocks among them are copied, each with a line feed behind it.
pub open spec fn with_libraries(
    bytes: Seq<u8>,
    blocks: Seq<TopLevelBlock>,
    n: int,
) -> WrappedView
    decreases n,
{
    if n <= 0 {
        WrappedView { bytes: seq![], segments: seq![] }
    } else {
        let before = with_libraries(bytes, blocks, n - 1);
        let block = blocks[n - 1];
        if block.kind == BlockKind::Library {
            with_text(
                with_copy(
                    before,
                    bytes,
                    block.byte_range.start as int,
                    block.byte_range.end as int,
                ),
                "\n"@,
            )
        } else {
            before
        }
    }
}

/// Where the text behind the first `n` blocks starts.
pub open spec fn behind(blocks: Seq<TopLevelBlock>, n: int) -> int {
    if n <= 0 {
        0
    } else {
        blocks[n - 1].byte_range.end as int
    }
}

/// The program with the definitions before and in the first `n` blocks: what
/// stands between the blocks, and the body of a `functions { }` block without
/// its keyword and braces.
pub open spec fn with_definitions(
    bytes: Seq<u8>,
    blocks: Seq<TopLevelBlock>,
    n: int,
) -> WrappedView
    decreases n,
{
    if n <= 0 {
        with_text(with_libraries(bytes, blocks, blocks.len() as int), "functions {\n"@)
    } else {
        let before = with_definitions(bytes, blocks, n - 1);
        let block = blocks[n - 1];
        let between = with_copy(
            before,
            bytes,
            behind(blocks, n - 1),
            block.byte_range.start as int,
        );
        if block.kind == BlockKind::Functions {
            with_copy(
                between,
                bytes,
                block.body_range.start as int,
                block.body_range.end as int,
            )
        } else {
            between
        }
    }
}

/// The file consists of what a library may contain.
pub open spec fn is_library_shaped(blocks: Seq<TopLevelBlock>) -> bool {
    forall|k: int|
        0 <= k < blocks.len() ==> Dialect::Library.permits((#[trigger] blocks[k]).kind)
}

/// The program that a library is rewritten into; `None` if the file contains
/// a block that a library may not contain.
pub open spec fn wrapped(bytes: Seq<u8>, blocks: Seq<TopLevelBlock>) -> Option<WrappedView> {
    let n = blocks.len() as int;
    if is_library_shaped(blocks) {
        Some(
            with_text(
                with_copy(
                    with_definitions(bytes, blocks, n),
                    bytes,
                    behind(blocks, n),
                    bytes.len() as int,
                ),
                "\n}\n"@,
            ),
        )
    } else {
        None
    }
}

/// The blocks lie in the text, which can be cut at their ends and at the ends
/// of their bodies.
pub open spec fn ranges_fit(bytes: Seq<u8>, blocks: Seq<TopLevelBlock>) -> bool {
    forall|k: int|
        #![trigger blocks[k]]
        0 <= k < blocks.len() ==> {
            &&& on_boundary(bytes, blocks[k].byte_range.start as int)
            &&& on_boundary(bytes, blocks[k].byte_range.end as int)
            &&& on_boundary(bytes, blocks[k].body_range.start as int)
            &&& on_boundary(bytes, blocks[k].body_range.end as int)
        }
}

/// Whether the blocks lie in `source`, which can be cut at their ends and at
/// the ends of their bodies.
pub fn ranges_are_usable(source: &str, blocks: &Vec<TopLevelBlock>) -> (r: bool)
    ensures
        r == ranges_fit(encode_utf8(source@), blocks@),
{
    let bytes = source.as_bytes();
    let mut k: usize = 0;
    while k < blocks.len()
        invariant
            bytes@ == encode_utf8(source@),
            k <= blocks@.len(),
            forall|j: int|
                #![trigger blocks@[j]]
                0 <= j < k ==> {
                    &&& on_boundary(bytes@, blocks@[j].byte_range.start as int)
                    &&& on_boundary(bytes@, blocks@[j].byte_range.end as int)
                    &&& on_boundary(bytes@, blocks@[j].body_range.start as int)
                    &&& on_boundary(bytes@, blocks@[j].body_range.end as int)
                },
        decreases blocks.len() - k,
    {
        let block = &blocks[k];
        assert(blocks@[k as int] == *block);
        if !is_boundary(bytes, block.byte_range.start) || !is_boundary(bytes, block.byte_range.end)
            || !is_boundary(bytes, block.body_range.start) || !is_boundary(
            bytes,
            block.body_range.end,
        ) {
            return false;
        }
        k += 1;
    }
    true
}

/// Whether a file with these blocks consists of what a library may contain.
pub fn blocks_are_library_shaped(blocks: &Vec<TopLevelBlock>) -> (r: bool)
    ensures
        r == is_library_shaped(blocks@),
{
    let mut k: usize = 0;
    while k < blocks.len()
        invariant
            k <= blocks@.len(),
            forall|j: int|
                0 <= j < k ==> Dialect::Library.permits((#[trigger] blocks@[j]).kind),
        decreases blocks.len() - k,
    {
        if !Dialect::Library.allows_block(blocks[k].kind) {
            return false;
        }
        k += 1;
    }
    true
}

impl WrappedLibrary {
    /// Append `range` of `source`, remembering where it came from.
    pub fn copy(&mut self, source: &str, range: Range<usize>)
        requires
            range.start < range.end ==> on_boundary(encode_utf8(source@), range.start as int)
                && on_boundary(encode_utf8(source@), range.end as int),
        ensures
            final(self)@ == with_copy(
                old(self)@,
                encode_utf8(source@),
                range.start as int,
                range.end as int,
            ),
    {
        if range.start >= range.end {
            return;
        }
        let start = self.text.as_str().as_bytes().len();
        let part = substring(source, range.start, range.end);
        proof {
            lemma_encode_concat(self.text@, part@);
        }
        self.text.append(part);
        let end = self.text.as_str().as_bytes().len();
        self.segments.push((start..end, range.start));
    }

    fn add_text(&mut self, text: &str)
        ensures
            final(self)@ == with_text(old(self)@, text@),
    {
        proof {
            lemma_encode_concat(self.text@, text@);
        }
        self.text.append(text);
    }
}

/// Rewrite the `.laplacelib` file `source`, whose top-level blocks are
/// `blocks`, into a program. `None` if it contains a block that a library may
/// not contain: no program means the same as such a file.
pub fn wrap_library_source(source: &str, blocks: &Vec<TopLevelBlock>) -> (r: Option<WrappedLibrary>)
    requires
        is_library_shaped(blocks@) ==> ranges_fit(encode_utf8(source@), blocks@),
    ensures
        match r {
            Some(w) => wrapped(encode_utf8(source@), blocks@) == Some(w@) && w.wf(),
            None => wrapped(encode_utf8(source@), blocks@) is None,
        },
{
    let ghost bytes = encode_utf8(source@);
    let length = source.as_bytes().len();
    proof {
        encode_utf8_valid_utf8(source@);
        lemma_boundary(bytes, 0);
    }
    if !blocks_are_library_shaped(blocks) {
        return None;
    }
    let mut w = WrappedLibrary { text: String::new(), segments: Vec::new() };
    assert(w@.bytes =~= Seq::<u8>::empty());
    let mut n: usize = 0;
    while n < blocks.len()
        invariant
            bytes == encode_utf8(source@),
            ranges_fit(bytes, blocks@),
            n <= blocks@.len(),
            w@ == with_libraries(bytes, blocks@, n as int),
        decreases blocks.len() - n,
    {
        let block = &blocks[n];
        if block.kind == BlockKind::Library {
            w.copy(source, block.byte_range.start..block.byte_range.end);
            w.add_text("\n");
        }
        n += 1;
    }
    w.add_text("functions {\n");
    let mut cursor: usize = 0;
    let mut m: usize = 0;
    while m < blocks.len()
        invariant
            bytes == encode_utf8(source@),
            ranges_fit(bytes, blocks@),
            m <= blocks@.len(),
            cursor == behind(blocks@, m as int),
            on_boundary(bytes, cursor as int),
            w@ == with_definitions(bytes, blocks@, m as int),
        decreases blocks.len() - m,
    {
        let block = &blocks[m];
        w.copy(source, cursor..block.byte_range.start);
        if block.kind == BlockKind::Functions {
            w.copy(source, block.body_range.start..block.body_range.end);
        }
        cursor = block.byte_range.end;
        m += 1;
    }
    w.copy(source, cursor..length);
    w.add_text("\n}\n");
    // The length of a text that is there is a machine length.
    let _size = w.text.as_str().as_bytes().len();
    proof {
        law_wrapping_is_faithful(bytes, blocks@);
    }
    Some(w)
}

// ---------------------------------------------------------------------------
// Mapping back
// ---------------------------------------------------------------------------

/// The copied ranges are in ascending order and not empty, and the offsets
/// that they came from are in range.
pub open spec fn segments_ascend(segments: Seq<(Range<usize>, usize)>) -> bool {
    &&& forall|k: int|
        #![trigger segments[k]]
        0 <= k < segments.len() ==> {
            &&& segments[k].0.start < segments[k].0.end
            &&& segments[k].1 + (segments[k].0.end - segments[k].0.start) <= usize::MAX
        }
    &&& forall|j: int, k: int|
        #![trigger segments[j], segments[k]]
        0 <= j < k < segments.len() ==> segments[j].0.end <= segments[k].0.start
}

/// Where the byte at `offset` was copied from: looked up in the first of the
/// copied ranges, from the `k`-th on, that ends behind it.
pub open spec fn origin_from(segments: Seq<(Range<usize>, usize)>, offset: int, k: int) -> Option<
    int,
>
    decreases segments.len() - k,
{
    if k < 0 || k >= segments.len() {
        None
    } else if segments[k].0.end <= offset {
        origin_from(segments, offset, k + 1)
    } else if segments[k].0.start <= offset {
        Some(segments[k].1 + (offset - segments[k].0.start))
    } else {
        None
    }
}

/// Where the byte at `offset` was copied from; `None` for one that is made up.
pub open spec fn origin_of(segments: Seq<(Range<usize>, usize)>, offset: int) -> Option<int> {
    origin_from(segments, offset, 0)
}

impl WrappedLibrary {
    /// The copied ranges are in order.
    pub open spec fn wf(&self) -> bool {
        segments_ascend(self.segments@)
    }

    /// Where the byte of the program at `offset` stands in the file; `None`
    /// for one that is made up.
    pub fn map(&self, offset: usize) -> (r: Option<usize>)
        requires
            self.wf(),
        ensures
            offset_view(r) == origin_of(self.segments@, offset as int),
    {
        let mut k: usize = 0;
        while k < self.segments.len()
            invariant
                self.wf(),
                k <= self.segments@.len(),
                origin_of(self.segments@, offset as int) == origin_from(
                    self.segments@,
                    offset as int,
                    k as int,
                ),
            decreases self.segments.len() - k,
        {
            let segment = &self.segments[k];
            assert(self.segments@[k as int] == *segment);
            if segment.0.end > offset {
                if segment.0.start <= offset {
                    return Some(segment.1 + (offset - segment.0.start));
                }
                return None;
            }
            k += 1;
        }
        None
    }
}

// ---------------------------------------------------------------------------
// Laws
// ---------------------------------------------------------------------------

/// Every copied range is a true copy of the part of the file that it came
/// from, and the ranges are in ascending order inside the program.
pub open spec fn faithful(w: WrappedView, bytes: Seq<u8>) -> bool {
    &&& segments_ascend(w.segments)
    &&& forall|k: int|
        #![trigger w.segments[k]]
        0 <= k < w.segments.len() ==> {
            let (range, origin) = w.segments[k];
            &&& range.end <= w.bytes.len()
            &&& origin + (range.end - range.start) <= bytes.len()
            &&& w.bytes.subrange(range.start as int, range.end as int) == bytes.subrange(
                origin as int,
                origin + (range.end - range.start),
            )
        }
}

proof fn lemma_copy_is_faithful(w: WrappedView, bytes: Seq<u8>, start: int, end: int)
    requires
        faithful(w, bytes),
        start < end ==> 0 <= start && end <= bytes.len(),
        bytes.len() <= usize::MAX,
        with_copy(w, bytes, start, end).bytes.len() <= usize::MAX,
    ensures
        faithful(with_copy(w, bytes, start, end), bytes),
{
    if start < end {
        let next = with_copy(w, bytes, start, end);
        let n = w.segments.len() as int;
        assert forall|k: int|
            #![trigger next.segments[k]]
            0 <= k < next.segments.len() implies {
            let (range, origin) = next.segments[k];
            &&& range.end <= next.bytes.len()
            &&& origin + (range.end - range.start) <= bytes.len()
            &&& next.bytes.subrange(range.start as int, range.end as int) == bytes.subrange(
                origin as int,
                origin + (range.end - range.start),
            )
        } by {
            let (range, origin) = next.segments[k];
            if k < n {
                assert(next.segments[k] == w.segments[k]);
                assert(next.bytes.subrange(range.start as int, range.end as int)
                    =~= w.bytes.subrange(range.start as int, range.end as int));
            } else {
                assert(next.bytes.subrange(range.start as int, range.end as int)
                    =~= bytes.subrange(start, end));
            }
        }
        assert forall|j: int, k: int|
            #![trigger next.segments[j], next.segments[k]]
            0 <= j < k < next.segments.len() implies next.segments[j].0.end
            <= next.segments[k].0.start by {
            assert(next.segments[j] == w.segments[j]);
            if k < n {
                assert(next.segments[k] == w.segments[k]);
            }
        }
        assert forall|k: int|
            #![trigger next.segments[k]]
            0 <= k < next.segments.len() implies {
            &&& next.segments[k].0.start < next.segments[k].0.end
            &&& next.segments[k].1 + (next.segments[k].0.end - next.segments[k].0.start)
                <= usize::MAX
        } by {
            if k < n {
                assert(next.segments[k] == w.segments[k]);
            }
        }
    }
}

proof fn lemma_text_is_faithful(w: WrappedView, bytes: Seq<u8>, text: Seq<char>)
    requires
        faithful(w, bytes),
    ensures
        faithful(with_text(w, text), bytes),
{
    let next = with_text(w, text);
    assert forall|k: int|
        #![trigger next.segments[k]]
        0 <= k < next.segments.len() implies {
        let (range, origin) = next.segments[k];
        &&& range.end <= next.bytes.len()
        &&& origin + (range.end - range.start) <= bytes.len()
        &&& next.bytes.subrange(range.start as int, range.end as int) == bytes.subrange(
            origin as int,
            origin + (range.end - range.start),
        )
    } by {
        let (range, origin) = w.segments[k];
        assert(next.bytes.subrange(range.start as int, range.end as int) =~= w.bytes.subrange(
            range.start as int,
            range.end as int,
        ));
    }
}

/// Rewriting copies faithfully. The program must be within the machine's
/// lengths.
pub proof fn law_wrapping_is_faithful(bytes: Seq<u8>, blocks: Seq<TopLevelBlock>)
    requires
        ranges_fit(bytes, blocks),
        is_library_shaped(blocks),
        bytes.len() <= usize::MAX,
        wrapped(bytes, blocks)->0.bytes.len() <= usize::MAX,
    ensures
        faithful(wrapped(bytes, blocks)->0, bytes),
{
    let n = blocks.len() as int;
    let all = with_definitions(bytes, blocks, n);
    lemma_definitions_are_faithful(bytes, blocks, n);
    let last = with_copy(all, bytes, behind(blocks, n), bytes.len() as int);
    lemma_copy_is_faithful(all, bytes, behind(blocks, n), bytes.len() as int);
    lemma_text_is_faithful(last, bytes, "\n}\n"@);
}

proof fn lemma_libraries_are_faithful(bytes: Seq<u8>, blocks: Seq<TopLevelBlock>, n: int)
    requires
        0 <= n <= blocks.len(),
        ranges_fit(bytes, blocks),
        bytes.len() <= usize::MAX,
        with_libraries(bytes, blocks, n).bytes.len() <= usize::MAX,
    ensures
        faithful(with_libraries(bytes, blocks, n), bytes),
    decreases n,
{
    if n > 0 {
        let block = blocks[n - 1];
        let before = with_libraries(bytes, blocks, n - 1);
        lemma_libraries_are_faithful(bytes, blocks, n - 1);
        if block.kind == BlockKind::Library {
            let start = block.byte_range.start as int;
            let end = block.byte_range.end as int;
            lemma_copy_is_faithful(before, bytes, start, end);
            lemma_text_is_faithful(with_copy(before, bytes, start, end), bytes, "\n"@);
        }
    }
}

proof fn lemma_definitions_are_faithful(bytes: Seq<u8>, blocks: Seq<TopLevelBlock>, n: int)
    requires
        0 <= n <= blocks.len(),
        ranges_fit(bytes, blocks),
        bytes.len() <= usize::MAX,
        with_definitions(bytes, blocks, n).bytes.len() <= usize::MAX,
    ensures
        faithful(with_definitions(bytes, blocks, n), bytes),
    decreases n,
{
    if n <= 0 {
        let libraries = with_libraries(bytes, blocks, blocks.len() as int);
        lemma_libraries_are_faithful(bytes, blocks, blocks.len() as int);
        lemma_text_is_faithful(libraries, bytes, "functions {\n"@);
    } else {
        let before = with_definitions(bytes, blocks, n - 1);
        let block = blocks[n - 1];
        let start = block.byte_range.start as int;
        let cursor = behind(blocks, n - 1);
        if n > 1 {
            assert(on_boundary(bytes, blocks[n - 2].byte_range.end as int));
        }
        lemma_definitions_are_faithful(bytes, blocks, n - 1);
        lemma_copy_is_faithful(before, bytes, cursor, start);
        let between = with_copy(before, bytes, cursor, start);
        if block.kind == BlockKind::Functions {
            lemma_copy_is_faithful(
                between,
                bytes,
                block.body_range.start as int,
                block.body_range.end as int,
            );
        }
    }
}

/// `offset` lies in one of the copied ranges.
pub open spec fn is_copied(segments: Seq<(Range<usize>, usize)>, offset: int) -> bool {
    exists|k: int|
        0 <= k < segments.len() && (#[trigger] segments[k]).0.start <= offset < segments[k].0.end
}

proof fn lemma_origin(segments: Seq<(Range<usize>, usize)>, offset: int, from: int, k: int)
    requires
        segments_ascend(segments),
        0 <= from <= k < segments.len(),
        segments[k].0.start <= offset < segments[k].0.end,
    ensures
        origin_from(segments, offset, from) == Some(
            segments[k].1 + (offset - segments[k].0.start),
        ),
    decreases k - from,
{
    if from < k {
        assert(segments[from].0.end <= segments[k].0.start);
        lemma_origin(segments, offset, from + 1, k);
    }
}

proof fn lemma_origin_exists(
    segments: Seq<(Range<usize>, usize)>,
    offset: int,
    from: int,
) -> (k: int)
    requires
        0 <= from,
        origin_from(segments, offset, from) is Some,
    ensures
        from <= k < segments.len(),
        segments[k].0.start <= offset < segments[k].0.end,
        origin_from(segments, offset, from) == Some(
            segments[k].1 + (offset - segments[k].0.start),
        ),
    decreases segments.len() - from,
{
    if segments[from].0.end <= offset {
        lemma_origin_exists(segments, offset, from + 1)
    } else {
        from
    }
}

/// Every copied byte maps back to the very same byte of the file, and a byte
/// that is made up maps nowhere.
pub proof fn law_mapping_leads_back(w: WrappedView, bytes: Seq<u8>, offset: int)
    requires
        faithful(w, bytes),
    ensures
        origin_of(w.segments, offset) is Some <==> is_copied(w.segments, offset),
        origin_of(w.segments, offset) matches Some(x) ==> {
            &&& 0 <= x < bytes.len()
            &&& 0 <= offset < w.bytes.len()
            &&& w.bytes[offset] == bytes[x]
        },
{
    if is_copied(w.segments, offset) {
        let k = choose|k: int|
            0 <= k < w.segments.len() && (#[trigger] w.segments[k]).0.start <= offset
                < w.segments[k].0.end;
        lemma_origin(w.segments, offset, 0, k);
    }
    if origin_of(w.segments, offset) is Some {
        let k = lemma_origin_exists(w.segments, offset, 0);
        let (range, origin) = w.segments[k];
        let i = offset - range.start;
        let copy = w.bytes.subrange(range.start as int, range.end as int);
        let part = bytes.subrange(origin as int, origin + (range.end - range.start));
        assert(copy[i] == w.bytes[offset]);
        assert(part[i] == bytes[origin + i]);
        assert(copy == part);
    }
}

/// The blocks do not overlap: they are in order, and the body of each lies
/// inside it.
pub open spec fn ranges_in_order(bytes: Seq<u8>, blocks: Seq<TopLevelBlock>) -> bool {
    &&& forall|k: int|
        #![trigger blocks[k]]
        0 <= k < blocks.len() ==> blocks[k].byte_range.start <= blocks[k].body_range.start
            <= blocks[k].body_range.end <= blocks[k].byte_range.end <= bytes.len()
    &&& forall|j: int, k: int|
        #![trigger blocks[j], blocks[k]]
        0 <= j < k < blocks.len() ==> blocks[j].byte_range.end <= blocks[k].byte_range.start
}

/// Byte `x` of the file is one of the bookends of a `functions { }` block:
/// its keyword, its braces and what stands between them.
pub open spec fn is_bookend(blocks: Seq<TopLevelBlock>, x: int) -> bool {
    exists|k: int|
        0 <= k < blocks.len() && (#[trigger] blocks[k]).kind == BlockKind::Functions
            && blocks[k].byte_range.start <= x < blocks[k].byte_range.end && !(
        blocks[k].body_range.start <= x < blocks[k].body_range.end)
}

/// Byte `x` of the file was copied.
pub open spec fn was_copied(segments: Seq<(Range<usize>, usize)>, x: int) -> bool {
    exists|k: int|
        0 <= k < segments.len() && (#[trigger] segments[k]).1 <= x < segments[k].1 + (
        segments[k].0.end - segments[k].0.start)
}

proof fn lemma_copy_keeps(w: WrappedView, bytes: Seq<u8>, start: int, end: int, x: int)
    requires
        0 <= start <= usize::MAX,
        with_copy(w, bytes, start, end).bytes.len() <= usize::MAX,
        start < end ==> end <= bytes.len(),
    ensures
        was_copied(w.segments, x) || start <= x < end ==> was_copied(
            with_copy(w, bytes, start, end).segments,
            x,
        ),
{
    let next = with_copy(w, bytes, start, end);
    if start < end {
        if start <= x < end {
            let n = w.segments.len() as int;
            assert(next.segments[n].1 <= x < next.segments[n].1 + (next.segments[n].0.end
                - next.segments[n].0.start));
        } else if was_copied(w.segments, x) {
            let k = choose|k: int|
                0 <= k < w.segments.len() && (#[trigger] w.segments[k]).1 <= x < w.segments[k].1 + (
                w.segments[k].0.end - w.segments[k].0.start);
            assert(next.segments[k] == w.segments[k]);
        }
    }
}

proof fn lemma_libraries_copied(bytes: Seq<u8>, blocks: Seq<TopLevelBlock>, n: int, j: int, x: int)
    requires
        0 <= j < n <= blocks.len(),
        ranges_in_order(bytes, blocks),
        with_libraries(bytes, blocks, n).bytes.len() <= usize::MAX,
        blocks[j].kind == BlockKind::Library,
        blocks[j].byte_range.start <= x < blocks[j].byte_range.end,
    ensures
        was_copied(with_libraries(bytes, blocks, n).segments, x),
    decreases n,
{
    let block = blocks[n - 1];
    let before = with_libraries(bytes, blocks, n - 1);
    if block.kind == BlockKind::Library {
        lemma_copy_keeps(
            before,
            bytes,
            block.byte_range.start as int,
            block.byte_range.end as int,
            x,
        );
    }
    if j < n - 1 {
        lemma_libraries_copied(bytes, blocks, n - 1, j, x);
    }
}

proof fn lemma_definitions_copied(bytes: Seq<u8>, blocks: Seq<TopLevelBlock>, n: int, x: int)
    requires
        0 <= n <= blocks.len(),
        ranges_in_order(bytes, blocks),
        is_library_shaped(blocks),
        with_definitions(bytes, blocks, n).bytes.len() <= usize::MAX,
        !is_bookend(blocks, x),
        0 <= x < bytes.len(),
        x < behind(blocks, n) || (exists|j: int|
            0 <= j < blocks.len() && (#[trigger] blocks[j]).kind == BlockKind::Library
                && blocks[j].byte_range.start <= x < blocks[j].byte_range.end),
    ensures
        was_copied(with_definitions(bytes, blocks, n).segments, x),
    decreases n,
{
    if n <= 0 {
        let j = choose|j: int|
            0 <= j < blocks.len() && (#[trigger] blocks[j]).kind == BlockKind::Library
                && blocks[j].byte_range.start <= x < blocks[j].byte_range.end;
        lemma_libraries_copied(bytes, blocks, blocks.len() as int, j, x);
    } else {
        let block = blocks[n - 1];
        let before = with_definitions(bytes, blocks, n - 1);
        let cursor = behind(blocks, n - 1);
        let start = block.byte_range.start as int;
        let between = with_copy(before, bytes, cursor, start);
        lemma_copy_keeps(before, bytes, cursor, start, x);
        if block.kind == BlockKind::Functions {
            lemma_copy_keeps(
                between,
                bytes,
                block.body_range.start as int,
                block.body_range.end as int,
                x,
            );
        }
        let in_library = exists|j: int|
            0 <= j < blocks.len() && (#[trigger] blocks[j]).kind == BlockKind::Library
                && blocks[j].byte_range.start <= x < blocks[j].byte_range.end;
        if x < cursor || in_library {
            lemma_definitions_copied(bytes, blocks, n - 1, x);
        } else if x >= start {
            assert(block.byte_range.start <= x < block.byte_range.end);
            assert(Dialect::Library.permits(blocks[n - 1].kind));
            assert(block.kind == BlockKind::Functions);
            assert(block.body_range.start <= x < block.body_range.end);
        }
    }
}

/// Rewriting loses nothing but the bookends of `functions { }` blocks: every
/// other byte of the file has a place in the program that maps back to it.
pub proof fn law_wrapping_loses_nothing(bytes: Seq<u8>, blocks: Seq<TopLevelBlock>, x: int)
    requires
        ranges_fit(bytes, blocks),
        ranges_in_order(bytes, blocks),
        is_library_shaped(blocks),
        bytes.len() <= usize::MAX,
        wrapped(bytes, blocks)->0.bytes.len() <= usize::MAX,
        0 <= x < bytes.len(),
        !is_bookend(blocks, x),
    ensures
        exists|offset: int| #[trigger]
            origin_of(wrapped(bytes, blocks)->0.segments, offset) == Some(x),
{
    let n = blocks.len() as int;
    let w = wrapped(bytes, blocks)->0;
    let all = with_definitions(bytes, blocks, n);
    let cursor = behind(blocks, n);
    law_wrapping_is_faithful(bytes, blocks);
    lemma_copy_keeps(all, bytes, cursor, bytes.len() as int, x);
    if x < cursor {
        lemma_definitions_copied(bytes, blocks, n, x);
    }
    assert(was_copied(w.segments, x));
    let k = choose|k: int|
        0 <= k < w.segments.len() && (#[trigger] w.segments[k]).1 <= x < w.segments[k].1 + (
        w.segments[k].0.end - w.segments[k].0.start);
    let offset = w.segments[k].0.start + (x - w.segments[k].1);
    lemma_origin(w.segments, offset, 0, k);
    assert(origin_of(w.segments, offset) == Some(x));
}

/// Byte `x` of the file was copied into the `k`-th copied range.
pub open spec fn copied_into(segments: Seq<(Range<usize>, usize)>, k: int, x: int) -> bool {
    segments[k].1 <= x < segments[k].1 + (segments[k].0.end - segments[k].0.start)
}

/// No byte of the file was copied twice.
pub open spec fn copied_once(segments: Seq<(Range<usize>, usize)>) -> bool {
    forall|j: int, k: int, x: int|
        0 <= j < k < segments.len() && #[trigger] copied_into(segments, j, x)
            ==> !#[trigger] copied_into(segments, k, x)
}

/// Byte `x` of the file belongs to one of the first `n` blocks, a
/// `library { }` block.
pub open spec fn in_library(blocks: Seq<TopLevelBlock>, n: int, x: int) -> bool {
    exists|j: int|
        0 <= j < n && (#[trigger] blocks[j]).kind == BlockKind::Library
            && blocks[j].byte_range.start <= x < blocks[j].byte_range.end
}

/// What was copied comes from the `library { }` blocks among the first `n`
/// blocks, or from before `limit`.
pub open spec fn copied_from(
    segments: Seq<(Range<usize>, usize)>,
    blocks: Seq<TopLevelBlock>,
    n: int,
    limit: int,
) -> bool {
    forall|k: int, x: int|
        0 <= k < segments.len() && #[trigger] copied_into(segments, k, x) ==> in_library(
            blocks,
            n,
            x,
        ) || 0 <= x < limit
}

proof fn lemma_copy_once(w: WrappedView, bytes: Seq<u8>, start: int, end: int)
    requires
        0 <= start <= usize::MAX,
        with_copy(w, bytes, start, end).bytes.len() <= usize::MAX,
        start < end ==> end <= bytes.len(),
        copied_once(w.segments),
        forall|k: int, x: int|
            0 <= k < w.segments.len() && #[trigger] copied_into(w.segments, k, x) ==> !(start <= x
                < end),
    ensures
        copied_once(with_copy(w, bytes, start, end).segments),
        forall|k: int, x: int|
            0 <= k < with_copy(w, bytes, start, end).segments.len() && #[trigger] copied_into(
                with_copy(w, bytes, start, end).segments,
                k,
                x,
            ) ==> start <= x < end || (k < w.segments.len() && copied_into(w.segments, k, x)),
{
    let next = with_copy(w, bytes, start, end).segments;
    if start < end {
        let n = w.segments.len() as int;
        assert forall|k: int, x: int|
            0 <= k < next.len() && #[trigger] copied_into(next, k, x) implies start <= x < end || (k
            < n && copied_into(w.segments, k, x)) by {
            if k < n {
                assert(next[k] == w.segments[k]);
            }
        }
        assert forall|j: int, k: int, x: int|
            0 <= j < k < next.len() && #[trigger] copied_into(next, j, x) implies
            !#[trigger] copied_into(next, k, x) by {
            assert(next[j] == w.segments[j]);
            assert(copied_into(w.segments, j, x));
            if k < n {
                assert(next[k] == w.segments[k]);
                assert(!copied_into(w.segments, k, x));
            }
        }
    }
}

proof fn lemma_libraries_once(bytes: Seq<u8>, blocks: Seq<TopLevelBlock>, n: int)
    requires
        0 <= n <= blocks.len(),
        ranges_in_order(bytes, blocks),
        with_libraries(bytes, blocks, n).bytes.len() <= usize::MAX,
    ensures
        copied_once(with_libraries(bytes, blocks, n).segments),
        copied_from(with_libraries(bytes, blocks, n).segments, blocks, n, 0),
    decreases n,
{
    if n > 0 {
        let block = blocks[n - 1];
        let before = with_libraries(bytes, blocks, n - 1);
        lemma_libraries_once(bytes, blocks, n - 1);
        let done = with_libraries(bytes, blocks, n).segments;
        if block.kind == BlockKind::Library {
            let start = block.byte_range.start as int;
            let end = block.byte_range.end as int;
            assert forall|k: int, x: int|
                0 <= k < before.segments.len() && #[trigger] copied_into(
                    before.segments,
                    k,
                    x,
                ) implies !(start <= x < end) by {
                let j = choose|j: int|
                    0 <= j < n - 1 && (#[trigger] blocks[j]).kind == BlockKind::Library
                        && blocks[j].byte_range.start <= x < blocks[j].byte_range.end;
                assert(blocks[j].byte_range.end <= blocks[n - 1].byte_range.start);
            }
            lemma_copy_once(before, bytes, start, end);
        }
        assert forall|k: int, x: int|
            0 <= k < done.len() && #[trigger] copied_into(done, k, x) implies in_library(
            blocks,
            n,
            x,
        ) by {
            if k < before.segments.len() && copied_into(before.segments, k, x) {
                let j = choose|j: int|
                    0 <= j < n - 1 && (#[trigger] blocks[j]).kind == BlockKind::Library
                        && blocks[j].byte_range.start <= x < blocks[j].byte_range.end;
                assert(blocks[j].kind == BlockKind::Library);
            } else {
                assert(blocks[n - 1].byte_range.start <= x < blocks[n - 1].byte_range.end);
            }
        }
    }
}

/// A byte between two blocks belongs to no `library { }` block.
proof fn lemma_between_blocks(bytes: Seq<u8>, blocks: Seq<TopLevelBlock>, n: int, x: int)
    requires
        0 <= n <= blocks.len(),
        ranges_in_order(bytes, blocks),
        behind(blocks, n) <= x,
        n < blocks.len() ==> x < blocks[n].byte_range.start || (x < blocks[n].byte_range.end
            && blocks[n].kind != BlockKind::Library),
    ensures
        !in_library(blocks, blocks.len() as int, x),
{
    assert forall|j: int|
        0 <= j < blocks.len() && (#[trigger] blocks[j]).kind == BlockKind::Library implies !(
    blocks[j].byte_range.start <= x < blocks[j].byte_range.end) by {
        if j < n - 1 {
            assert(blocks[j].byte_range.end <= blocks[n - 1].byte_range.start);
            assert(blocks[n - 1].byte_range.start <= blocks[n - 1].byte_range.end);
        } else if j > n {
            assert(blocks[n].byte_range.end <= blocks[j].byte_range.start);
        }
    }
}

proof fn lemma_definitions_once(bytes: Seq<u8>, blocks: Seq<TopLevelBlock>, n: int)
    requires
        0 <= n <= blocks.len(),
        ranges_in_order(bytes, blocks),
        with_definitions(bytes, blocks, n).bytes.len() <= usize::MAX,
    ensures
        copied_once(with_definitions(bytes, blocks, n).segments),
        copied_from(
            with_definitions(bytes, blocks, n).segments,
            blocks,
            blocks.len() as int,
            behind(blocks, n),
        ),
    decreases n,
{
    let all = blocks.len() as int;
    if n <= 0 {
        lemma_libraries_once(bytes, blocks, all);
    } else {
        let block = blocks[n - 1];
        let before = with_definitions(bytes, blocks, n - 1);
        let cursor = behind(blocks, n - 1);
        let start = block.byte_range.start as int;
        let between = with_copy(before, bytes, cursor, start);
        let body = block.body_range;
        lemma_definitions_once(bytes, blocks, n - 1);
        if n > 1 {
            assert(blocks[n - 2].byte_range.end <= blocks[n - 1].byte_range.start);
        }
        assert forall|k: int, x: int|
            0 <= k < before.segments.len() && #[trigger] copied_into(before.segments, k, x) implies
            !(cursor <= x < start) by {
            if cursor <= x < start {
                lemma_between_blocks(bytes, blocks, n - 1, x);
            }
        }
        lemma_copy_once(before, bytes, cursor, start);
        if block.kind == BlockKind::Functions {
            assert forall|k: int, x: int|
                0 <= k < between.segments.len() && #[trigger] copied_into(
                    between.segments,
                    k,
                    x,
                ) implies !(body.start <= x < body.end) by {
                if body.start <= x < body.end {
                    lemma_between_blocks(bytes, blocks, n - 1, x);
                    assert(k < before.segments.len() && copied_into(before.segments, k, x));
                }
            }
            lemma_copy_once(between, bytes, body.start as int, body.end as int);
        }
        let done = with_definitions(bytes, blocks, n).segments;
        assert forall|k: int, x: int|
            0 <= k < done.len() && #[trigger] copied_into(done, k, x) implies in_library(
            blocks,
            all,
            x,
        ) || 0 <= x < behind(blocks, n) by {
            if k < between.segments.len() && copied_into(between.segments, k, x) {
                if k < before.segments.len() && copied_into(before.segments, k, x) {
                    assert(in_library(blocks, all, x) || 0 <= x < cursor);
                }
            }
        }
    }
}

/// Two distinct copied offsets of the program lead back to two distinct
/// offsets of the file: nothing is copied twice.
pub proof fn law_mapping_is_one_to_one(
    bytes: Seq<u8>,
    blocks: Seq<TopLevelBlock>,
    first: int,
    second: int,
)
    requires
        ranges_fit(bytes, blocks),
        ranges_in_order(bytes, blocks),
        is_library_shaped(blocks),
        bytes.len() <= usize::MAX,
        wrapped(bytes, blocks)->0.bytes.len() <= usize::MAX,
        is_copied(wrapped(bytes, blocks)->0.segments, first),
        is_copied(wrapped(bytes, blocks)->0.segments, second),
        first != second,
    ensures
        origin_of(wrapped(bytes, blocks)->0.segments, first) is Some,
        origin_of(wrapped(bytes, blocks)->0.segments, second) is Some,
        origin_of(wrapped(bytes, blocks)->0.segments, first) != origin_of(
            wrapped(bytes, blocks)->0.segments,
            second,
        ),
{
    let n = blocks.len() as int;
    let w = wrapped(bytes, blocks)->0;
    let all = with_definitions(bytes, blocks, n);
    let cursor = behind(blocks, n);
    law_wrapping_is_faithful(bytes, blocks);
    lemma_definitions_once(bytes, blocks, n);
    assert forall|k: int, x: int|
        0 <= k < all.segments.len() && #[trigger] copied_into(all.segments, k, x) implies !(cursor
        <= x < bytes.len()) by {
        if cursor <= x < bytes.len() {
            lemma_between_blocks(bytes, blocks, n, x);
        }
    }
    lemma_copy_once(all, bytes, cursor, bytes.len() as int);
    law_mapping_leads_back(w, bytes, first);
    law_mapping_leads_back(w, bytes, second);
    let j = lemma_origin_exists(w.segments, first, 0);
    let k = lemma_origin_exists(w.segments, second, 0);
    let x = origin_of(w.segments, first)->0;
    let y = origin_of(w.segments, second)->0;
    assert(copied_into(w.segments, j, x));
    assert(copied_into(w.segments, k, y));
}

/// A library becomes a program exactly if it holds nothing but `functions { }`
/// and `library { }` blocks.
pub proof fn law_when_there_is_a_program(bytes: Seq<u8>, blocks: Seq<TopLevelBlock>)
    ensures
        wrapped(bytes, blocks) is Some <==> forall|k: int|
            0 <= k < blocks.len() ==> (#[trigger] blocks[k]).kind == BlockKind::Functions
                || blocks[k].kind == BlockKind::Library,
{
}

/// A byte of a copied range came from as far behind the origin of the range as
/// it stands behind its start.
pub proof fn law_where_a_byte_came_from(w: WrappedView, bytes: Seq<u8>, k: int, offset: int)
    requires
        faithful(w, bytes),
        0 <= k < w.segments.len(),
        w.segments[k].0.start <= offset < w.segments[k].0.end,
    ensures
        origin_of(w.segments, offset) == Some(
            w.segments[k].1 + (offset - w.segments[k].0.start),
        ),
{
    lemma_origin(w.segments, offset, 0, k);
}

/// The text that opens the block of definitions.
pub open spec fn opening() -> Seq<u8> {
    encode_utf8("functions {\n"@)
}

/// The text that closes the block of definitions.
pub open spec fn closing_text() -> Seq<u8> {
    encode_utf8("\n}\n"@)
}

/// The copied ranges from the `from`-th up to the `to`-th come from the file
/// in its order.
pub open spec fn in_file_order(segments: Seq<(Range<usize>, usize)>, from: int, to: int) -> bool {
    forall|j: int, k: int|
        #![trigger segments[j], segments[k]]
        from <= j < k < to ==> segments[j].1 + (segments[j].0.end - segments[j].0.start)
            <= segments[k].1
}

/// What stands before the definitions: the first `n` copied ranges, each out
/// of a `library { }` block and with a line feed behind it, in the order of
/// the file; whatever is not copied is a line feed.
pub open spec fn starts_with_libraries(
    w: WrappedView,
    blocks: Seq<TopLevelBlock>,
    n: int,
    size: int,
) -> bool {
    &&& 0 <= n <= w.segments.len()
    &&& 0 <= size <= w.bytes.len()
    &&& in_file_order(w.segments, 0, n)
    &&& forall|k: int|
        #![trigger w.segments[k]]
        0 <= k < n ==> {
            &&& w.segments[k].0.start < w.segments[k].0.end < size
            &&& w.bytes[w.segments[k].0.end as int] == 0x0a
            &&& forall|x: int|
                #[trigger] copied_into(w.segments, k, x) ==> in_library(
                    blocks,
                    blocks.len() as int,
                    x,
                )
        }
    &&& forall|x: int|
        0 <= x < size && !#[trigger] is_copied(w.segments, x) ==> w.bytes[x] == 0x0a
}

/// The shape of the program: the `library { }` blocks come first, then all
/// definitions in one `functions { }` block, which are copied without a gap in
/// the order of the file and out of no `library { }` block.
pub open spec fn is_program_of(
    w: WrappedView,
    blocks: Seq<TopLevelBlock>,
    n: int,
    size: int,
) -> bool {
    let first = size + opening().len();
    let last = w.bytes.len() - closing_text().len();
    &&& starts_with_libraries(w, blocks, n, size)
    &&& first <= last
    &&& w.bytes.subrange(size, first) == opening()
    &&& w.bytes.subrange(last, w.bytes.len() as int) == closing_text()
    &&& in_file_order(w.segments, n, w.segments.len() as int)
    &&& forall|k: int|
        #![trigger w.segments[k]]
        n <= k < w.segments.len() ==> {
            &&& first <= w.segments[k].0.start < w.segments[k].0.end <= last
            &&& forall|x: int|
                #[trigger] copied_into(w.segments, k, x) ==> !in_library(
                    blocks,
                    blocks.len() as int,
                    x,
                )
        }
    &&& forall|x: int| first <= x < last ==> #[trigger] is_copied(w.segments, x)
}

/// The first part of the program stays as it is when something comes behind
/// it.
proof fn lemma_libraries_stay(
    w: WrappedView,
    next: WrappedView,
    blocks: Seq<TopLevelBlock>,
    n: int,
    size: int,
)
    requires
        starts_with_libraries(w, blocks, n, size),
        w.bytes.len() <= next.bytes.len(),
        w.segments.len() <= next.segments.len(),
        forall|x: int| 0 <= x < w.bytes.len() ==> #[trigger] next.bytes[x] == w.bytes[x],
        forall|k: int| 0 <= k < w.segments.len() ==> #[trigger] next.segments[k] == w.segments[k],
    ensures
        starts_with_libraries(next, blocks, n, size),
{
    assert forall|k: int|
        #![trigger next.segments[k]]
        0 <= k < n implies {
        &&& next.segments[k].0.start < next.segments[k].0.end < size
        &&& next.bytes[next.segments[k].0.end as int] == 0x0a
        &&& forall|x: int|
            #[trigger] copied_into(next.segments, k, x) ==> in_library(
                blocks,
                blocks.len() as int,
                x,
            )
    } by {
        assert(next.segments[k] == w.segments[k]);
        assert(next.bytes[w.segments[k].0.end as int] == w.bytes[w.segments[k].0.end as int]);
        assert forall|x: int| #[trigger] copied_into(next.segments, k, x) implies in_library(
            blocks,
            blocks.len() as int,
            x,
        ) by {
            assert(copied_into(w.segments, k, x));
        }
    }
    assert forall|j: int, k: int|
        #![trigger next.segments[j], next.segments[k]]
        0 <= j < k < n implies next.segments[j].1 + (next.segments[j].0.end
        - next.segments[j].0.start) <= next.segments[k].1 by {
        assert(next.segments[j] == w.segments[j]);
        assert(next.segments[k] == w.segments[k]);
    }
    assert forall|x: int| 0 <= x < size && !#[trigger] is_copied(next.segments, x) implies
        next.bytes[x] == 0x0a by {
        if is_copied(w.segments, x) {
            let k = choose|k: int|
                0 <= k < w.segments.len() && (#[trigger] w.segments[k]).0.start <= x
                    < w.segments[k].0.end;
            assert(next.segments[k] == w.segments[k]);
        }
    }
}

proof fn lemma_line_feed()
    ensures
        encode_utf8("\n"@) == seq![0x0au8],
{
    reveal_strlit("\n");
    is_ascii_chars_encode_utf8("\n"@);
    assert(encode_utf8("\n"@) =~= seq![0x0au8]);
}

proof fn lemma_libraries_first(bytes: Seq<u8>, blocks: Seq<TopLevelBlock>, n: int)
    requires
        0 <= n <= blocks.len(),
        ranges_in_order(bytes, blocks),
        with_libraries(bytes, blocks, n).bytes.len() <= usize::MAX,
    ensures
        ({
            let w = with_libraries(bytes, blocks, n);
            &&& starts_with_libraries(w, blocks, w.segments.len() as int, w.bytes.len() as int)
            &&& forall|k: int|
                #![trigger w.segments[k]]
                0 <= k < w.segments.len() ==> w.segments[k].1 + (w.segments[k].0.end
                    - w.segments[k].0.start) <= behind(blocks, n)
        }),
    decreases n,
{
    let w = with_libraries(bytes, blocks, n);
    if n > 0 {
        let block = blocks[n - 1];
        let before = with_libraries(bytes, blocks, n - 1);
        let start = block.byte_range.start as int;
        let end = block.byte_range.end as int;
        lemma_libraries_first(bytes, blocks, n - 1);
        lemma_line_feed();
        if n > 1 {
            assert(blocks[n - 2].byte_range.end <= blocks[n - 1].byte_range.start);
        }
        if block.kind == BlockKind::Library {
            let m = before.segments.len() as int;
            let old_size = before.bytes.len() as int;
            lemma_libraries_stay(before, w, blocks, m, old_size);
            assert forall|k: int|
                #![trigger w.segments[k]]
                0 <= k < w.segments.len() implies {
                &&& w.segments[k].0.start < w.segments[k].0.end < w.bytes.len()
                &&& w.bytes[w.segments[k].0.end as int] == 0x0a
                &&& forall|x: int|
                    #[trigger] copied_into(w.segments, k, x) ==> in_library(
                        blocks,
                        blocks.len() as int,
                        x,
                    )
                &&& w.segments[k].1 + (w.segments[k].0.end - w.segments[k].0.start) <= behind(
                    blocks,
                    n,
                )
            } by {
                if k < m {
                    assert(w.segments[k] == before.segments[k]);
                } else {
                    assert forall|x: int| #[trigger] copied_into(w.segments, k, x) implies
                        in_library(blocks, blocks.len() as int, x) by {
                        assert(blocks[n - 1].byte_range.start <= x < blocks[n - 1].byte_range.end);
                    }
                }
            }
            assert forall|j: int, k: int|
                #![trigger w.segments[j], w.segments[k]]
                0 <= j < k < w.segments.len() implies w.segments[j].1 + (w.segments[j].0.end
                - w.segments[j].0.start) <= w.segments[k].1 by {
                assert(w.segments[j] == before.segments[j]);
                if k < m {
                    assert(w.segments[k] == before.segments[k]);
                }
            }
            assert forall|x: int|
                0 <= x < w.bytes.len() && !#[trigger] is_copied(w.segments, x) implies w.bytes[x]
                == 0x0a by {
                if x >= old_size && start < end && x < old_size + (end - start) {
                    assert(w.segments[m].0.start <= x < w.segments[m].0.end);
                }
            }
        } else {
            assert forall|k: int|
                #![trigger w.segments[k]]
                0 <= k < w.segments.len() implies w.segments[k].1 + (w.segments[k].0.end
                - w.segments[k].0.start) <= behind(blocks, n) by {
                assert(before.segments[k].1 + (before.segments[k].0.end
                    - before.segments[k].0.start) <= behind(blocks, n - 1));
            }
        }
    }
}

/// The definitions copied so far: without a gap from `first` to the end of the
/// program, in the order of the file and from before `limit`, out of no
/// `library { }` block.
pub open spec fn ends_with_definitions(
    w: WrappedView,
    blocks: Seq<TopLevelBlock>,
    n: int,
    first: int,
    limit: int,
) -> bool {
    &&& 0 <= n <= w.segments.len()
    &&& first <= w.bytes.len()
    &&& in_file_order(w.segments, n, w.segments.len() as int)
    &&& forall|k: int|
        #![trigger w.segments[k]]
        n <= k < w.segments.len() ==> {
            &&& first <= w.segments[k].0.start < w.segments[k].0.end <= w.bytes.len()
            &&& w.segments[k].1 + (w.segments[k].0.end - w.segments[k].0.start) <= limit
            &&& forall|x: int|
                #[trigger] copied_into(w.segments, k, x) ==> !in_library(
                    blocks,
                    blocks.len() as int,
                    x,
                )
        }
    &&& forall|x: int| first <= x < w.bytes.len() ==> #[trigger] is_copied(w.segments, x)
}

proof fn lemma_copy_defines(
    w: WrappedView,
    bytes: Seq<u8>,
    blocks: Seq<TopLevelBlock>,
    n: int,
    first: int,
    limit: int,
    start: int,
    end: int,
)
    requires
        ends_with_definitions(w, blocks, n, first, limit),
        0 <= limit <= start <= end <= bytes.len() <= usize::MAX,
        with_copy(w, bytes, start, end).bytes.len() <= usize::MAX,
        forall|x: int| start <= x < end ==> !#[trigger] in_library(blocks, blocks.len() as int, x),
    ensures
        ends_with_definitions(with_copy(w, bytes, start, end), blocks, n, first, end),
{
    let next = with_copy(w, bytes, start, end);
    let m = w.segments.len() as int;
    assert forall|k: int|
        #![trigger next.segments[k]]
        n <= k < next.segments.len() implies {
        &&& first <= next.segments[k].0.start < next.segments[k].0.end <= next.bytes.len()
        &&& next.segments[k].1 + (next.segments[k].0.end - next.segments[k].0.start) <= end
        &&& forall|x: int|
            #[trigger] copied_into(next.segments, k, x) ==> !in_library(
                blocks,
                blocks.len() as int,
                x,
            )
    } by {
        if k < m {
            assert(next.segments[k] == w.segments[k]);
            assert forall|x: int| #[trigger] copied_into(next.segments, k, x) implies !in_library(
                blocks,
                blocks.len() as int,
                x,
            ) by {
                assert(copied_into(w.segments, k, x));
            }
        } else {
            assert forall|x: int| #[trigger] copied_into(next.segments, k, x) implies !in_library(
                blocks,
                blocks.len() as int,
                x,
            ) by {
                assert(start <= x < end);
            }
        }
    }
    assert forall|j: int, k: int|
        #![trigger next.segments[j], next.segments[k]]
        n <= j < k < next.segments.len() implies next.segments[j].1 + (next.segments[j].0.end
        - next.segments[j].0.start) <= next.segments[k].1 by {
        assert(next.segments[j] == w.segments[j]);
        if k < m {
            assert(next.segments[k] == w.segments[k]);
        }
    }
    assert forall|x: int| first <= x < next.bytes.len() implies #[trigger] is_copied(
        next.segments,
        x,
    ) by {
        if x < w.bytes.len() {
            assert(is_copied(w.segments, x));
            let k = choose|k: int|
                0 <= k < w.segments.len() && (#[trigger] w.segments[k]).0.start <= x
                    < w.segments[k].0.end;
            assert(next.segments[k] == w.segments[k]);
        } else {
            assert(next.segments[m].0.start <= x < next.segments[m].0.end);
        }
    }
}

proof fn lemma_program_shape(bytes: Seq<u8>, blocks: Seq<TopLevelBlock>, n: int)
    requires
        0 <= n <= blocks.len(),
        ranges_in_order(bytes, blocks),
        is_library_shaped(blocks),
        bytes.len() <= usize::MAX,
        with_definitions(bytes, blocks, n).bytes.len() <= usize::MAX,
    ensures
        ({
            let libraries = with_libraries(bytes, blocks, blocks.len() as int);
            let m = libraries.segments.len() as int;
            let size = libraries.bytes.len() as int;
            let first = size + opening().len();
            let w = with_definitions(bytes, blocks, n);
            &&& starts_with_libraries(w, blocks, m, size)
            &&& first <= w.bytes.len()
            &&& w.bytes.subrange(size, first) == opening()
            &&& ends_with_definitions(w, blocks, m, first, behind(blocks, n))
        }),
    decreases n,
{
    let all = blocks.len() as int;
    let libraries = with_libraries(bytes, blocks, all);
    let m = libraries.segments.len() as int;
    let size = libraries.bytes.len() as int;
    let first = size + opening().len();
    let w = with_definitions(bytes, blocks, n);
    if n <= 0 {
        lemma_libraries_first(bytes, blocks, all);
        lemma_libraries_stay(libraries, w, blocks, m, size);
        assert(w.bytes.subrange(size, first) =~= opening());
    } else {
        let before = with_definitions(bytes, blocks, n - 1);
        let block = blocks[n - 1];
        let cursor = behind(blocks, n - 1);
        let start = block.byte_range.start as int;
        let between = with_copy(before, bytes, cursor, start);
        let body = block.body_range;
        if n > 1 {
            assert(blocks[n - 2].byte_range.end <= blocks[n - 1].byte_range.start);
            assert(blocks[n - 2].byte_range.end <= bytes.len());
        }
        lemma_program_shape(bytes, blocks, n - 1);
        assert forall|x: int| cursor <= x < start implies !#[trigger] in_library(blocks, all, x) by {
            lemma_between_blocks(bytes, blocks, n - 1, x);
        }
        lemma_copy_defines(before, bytes, blocks, m, first, cursor, cursor, start);
        lemma_libraries_stay(before, w, blocks, m, size);
        assert(w.bytes.subrange(size, first) =~= before.bytes.subrange(size, first));
        assert(Dialect::Library.permits(block.kind));
        if block.kind == BlockKind::Functions {
            assert forall|x: int| body.start <= x < body.end implies !#[trigger] in_library(
                blocks,
                all,
                x,
            ) by {
                lemma_between_blocks(bytes, blocks, n - 1, x);
            }
            lemma_copy_defines(
                between,
                bytes,
                blocks,
                m,
                first,
                start,
                body.start as int,
                body.end as int,
            );
        }
    }
}

/// A library is rewritten into a program of this shape, whatever the order of
/// its blocks: first its `library { }` blocks, each on lines of its own, then
/// one `functions { }` block with all of its definitions, in the order of the
/// file.
pub proof fn law_program_shape(bytes: Seq<u8>, blocks: Seq<TopLevelBlock>)
    requires
        ranges_in_order(bytes, blocks),
        is_library_shaped(blocks),
        bytes.len() <= usize::MAX,
        wrapped(bytes, blocks)->0.bytes.len() <= usize::MAX,
    ensures
        exists|n: int, size: int| #[trigger]
            is_program_of(wrapped(bytes, blocks)->0, blocks, n, size),
{
    let all = blocks.len() as int;
    let w = wrapped(bytes, blocks)->0;
    let libraries = with_libraries(bytes, blocks, all);
    let m = libraries.segments.len() as int;
    let size = libraries.bytes.len() as int;
    let first = size + opening().len();
    let before = with_definitions(bytes, blocks, all);
    let cursor = behind(blocks, all);
    let done = with_copy(before, bytes, cursor, bytes.len() as int);
    lemma_program_shape(bytes, blocks, all);
    if all > 0 {
        assert(blocks[all - 1].byte_range.end <= bytes.len());
    }
    assert forall|x: int| cursor <= x < bytes.len() implies !#[trigger] in_library(
        blocks,
        all,
        x,
    ) by {
        lemma_between_blocks(bytes, blocks, all, x);
    }
    lemma_copy_defines(before, bytes, blocks, m, first, cursor, cursor, bytes.len() as int);
    lemma_libraries_stay(before, w, blocks, m, size);
    let last = w.bytes.len() - closing_text().len();
    assert(last == done.bytes.len());
    assert(w.bytes.subrange(size, first) =~= before.bytes.subrange(size, first));
    assert(w.bytes.subrange(last, w.bytes.len() as int) =~= closing_text());
    assert(w.segments == done.segments);
    assert(is_program_of(w, blocks, m, size));
}

/// Copying puts the bytes of the range at the end of the program and remembers
/// where they are and where they came from; an empty range changes nothing.
pub proof fn law_copy(w: WrappedView, bytes: Seq<u8>, start: int, end: int)
    requires
        0 <= start <= end <= bytes.len() <= usize::MAX,
        w.bytes.len() + (end - start) <= usize::MAX,
    ensures
        ({
            let next = with_copy(w, bytes, start, end);
            &&& next.bytes == w.bytes + bytes.subrange(start, end)
            &&& start == end ==> next.segments == w.segments
            &&& start < end ==> {
                let copy = next.segments.last();
                &&& next.segments.len() == w.segments.len() + 1
                &&& forall|k: int|
                    0 <= k < w.segments.len() ==> #[trigger] next.segments[k] == w.segments[k]
                &&& copy.0.start == w.bytes.len()
                &&& copy.0.end == next.bytes.len()
                &&& copy.1 == start
            }
        }),
{
    assert(start == end ==> w.bytes + bytes.subrange(start, end) =~= w.bytes);
}

} // verus!
