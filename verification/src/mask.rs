//! Which bytes of a source text are code, as opposed to comments and string
//! literals, and which closing brace belongs to an opening one.
//!
//! Telling code from comments is the compiler's business; this type carries
//! its verdict, one entry per byte.

use crate::text::offset_view;
use vstd::prelude::*;

verus! {

/// The compiler's verdict on a source text, byte by byte.
#[derive(Debug)]
pub struct CodeMask {
    code: Vec<bool>,
    closing: Vec<Option<usize>>,
}

impl CodeMask {
    /// Byte `i` is code: neither in a comment nor in a string literal.
    pub closed spec fn code(&self, i: int) -> bool {
        self.code@[i]
    }

    /// The closing brace that belongs to the brace at `i`, where there is one.
    pub closed spec fn closing(&self, i: int) -> Option<int> {
        offset_view(self.closing@[i])
    }

    /// How many bytes the mask speaks of.
    pub closed spec fn len(&self) -> nat {
        self.code@.len()
    }

    /// The mask belongs to the text `bytes`: it speaks of every byte of it,
    /// and a closing brace is a `}` further on.
    pub open spec fn wf(&self, bytes: Seq<u8>) -> bool {
        &&& self.parts_wf()
        &&& self.len() == bytes.len()
        &&& forall|i: int|
            #![trigger self.closing(i)]
            0 <= i < bytes.len() ==> (self.closing(i) matches Some(c) ==> i < c < bytes.len()
                && bytes[c] == 0x7d)
    }

    /// Both verdicts are there for every byte.
    pub closed spec fn parts_wf(&self) -> bool {
        self.closing@.len() == self.code@.len()
    }

    /// The verdict made of its parts: `code[i]` says whether byte `i` is code,
    /// `closing[i]` names the brace that closes the one at `i`. `None` if the
    /// parts cannot belong to `source`: one entry per byte each, and each
    /// closing brace a `}` further on.
    pub fn from_parts(source: &str, code: Vec<bool>, closing: Vec<Option<usize>>) -> (r: Option<
        CodeMask,
    >)
        ensures
            r is Some <==> {
                let bytes = vstd::utf8::encode_utf8(source@);
                &&& code@.len() == bytes.len()
                &&& closing@.len() == bytes.len()
                &&& forall|i: int|
                    #![trigger closing@[i]]
                    0 <= i < closing@.len() ==> (closing@[i] matches Some(c) ==> i < c
                        < bytes.len() && bytes[c as int] == 0x7d)
            },
            r matches Some(mask) ==> {
                &&& mask.wf(vstd::utf8::encode_utf8(source@))
                &&& forall|i: int| 0 <= i < code@.len() ==> #[trigger] mask.code(i) == code@[i]
                &&& forall|i: int|
                    0 <= i < code@.len() ==> #[trigger] mask.closing(i) == offset_view(closing@[i])
            },
    {
        let bytes = source.as_bytes();
        if code.len() != bytes.len() || closing.len() != bytes.len() {
            return None;
        }
        let mut i: usize = 0;
        while i < closing.len()
            invariant
                i <= closing@.len(),
                bytes@ == vstd::utf8::encode_utf8(source@),
                closing@.len() == bytes@.len(),
                forall|j: int|
                    #![trigger closing@[j]]
                    0 <= j < i ==> (closing@[j] matches Some(c) ==> j < c < bytes@.len()
                        && bytes@[c as int] == 0x7d),
            decreases closing.len() - i,
        {
            if let Some(c) = closing[i] {
                if c <= i || c >= bytes.len() || bytes[c] != 0x7d {
                    assert(closing@[i as int] == Some(c));
                    return None;
                }
            }
            i += 1;
        }
        Some(CodeMask { code, closing })
    }

    /// Whether the mask belongs to the text `source`.
    pub fn belongs_to(&self, source: &str) -> (r: bool)
        ensures
            r == self.wf(vstd::utf8::encode_utf8(source@)),
    {
        let bytes = source.as_bytes();
        if self.closing.len() != self.code.len() || self.code.len() != bytes.len() {
            return false;
        }
        let mut i: usize = 0;
        while i < self.closing.len()
            invariant
                self.parts_wf(),
                self.len() == bytes@.len(),
                bytes@ == vstd::utf8::encode_utf8(source@),
                i <= self.closing@.len(),
                forall|j: int|
                    #![trigger self.closing(j)]
                    0 <= j < i ==> (self.closing(j) matches Some(c) ==> j < c < bytes@.len()
                        && bytes@[c] == 0x7d),
            decreases self.closing.len() - i,
        {
            assert(self.closing(i as int) == offset_view(self.closing@[i as int]));
            if let Some(c) = self.closing[i] {
                if c <= i || c >= bytes.len() || bytes[c] != 0x7d {
                    return false;
                }
            }
            i += 1;
        }
        true
    }

    /// Whether byte `i` is code.
    pub fn is_real(&self, i: usize) -> (r: bool)
        requires
            i < self.len(),
        ensures
            r == self.code(i as int),
    {
        self.code[i]
    }

    /// Whether all bytes from `start` up to `end` are code.
    pub fn all_real(&self, start: usize, end: usize) -> (r: bool)
        requires
            end <= self.len(),
        ensures
            r == forall|i: int| start <= i < end ==> #[trigger] self.code(i),
    {
        let mut i: usize = start;
        while i < end
            invariant
                end <= self.len(),
                start <= i,
                forall|j: int| start <= j < i ==> #[trigger] self.code(j),
            decreases end - i,
        {
            if !self.is_real(i) {
                return false;
            }
            i += 1;
        }
        true
    }

    /// The brace that closes the one at `i`.
    pub fn match_closing_brace(&self, i: usize) -> (r: Option<usize>)
        requires
            self.parts_wf(),
            i < self.len(),
        ensures
            offset_view(r) == self.closing(i as int),
    {
        self.closing[i]
    }
}

} // verus!
