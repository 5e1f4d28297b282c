//! The top-level blocks of a source text: `data { ... }`,
//! `transformed parameters { ... }`, `library { ... }` and the others.

use crate::mask::CodeMask;
use crate::text::{
    is_ascii_whitespace, is_ident_byte, is_ident_char, is_space_byte, lemma_after_ascii,
    lemma_same_bytes, matches_at, occurs_at, offset_view, on_boundary, views,
};
use std::ops::Range;
use vstd::prelude::*;
use vstd::utf8::*;

verus! {

/// The kinds of top-level block.
#[derive(Debug, Clone, Copy, PartialEq, Eq, Structural)]
pub enum BlockKind {
    Functions,
    Data,
    TransformedData,
    Parameters,
    TransformedParameters,
    Model,
    GeneratedQuantities,
    Library,
}

/// A block: its kind and the offsets of its two braces.
#[derive(Debug, Clone, Copy, PartialEq, Eq, Structural)]
pub struct Block {
    pub kind: BlockKind,
    pub open_brace: usize,
    pub close_brace: usize,
}

/// A block as the compiler reports it: its kind, all of its text from the
/// keyword to the closing brace, and the text between its braces.
#[derive(Debug)]
pub struct TopLevelBlock {
    pub kind: BlockKind,
    pub byte_range: Range<usize>,
    pub body_range: Range<usize>,
}

/// The order in which the kinds are tried at an offset. At most one of them
/// can be there (`law_one_keyword_per_offset`), so the order decides nothing.
pub const BLOCK_ORDER: [BlockKind; 8] = [
    BlockKind::Functions,
    BlockKind::TransformedData,
    BlockKind::Data,
    BlockKind::TransformedParameters,
    BlockKind::Parameters,
    BlockKind::Model,
    BlockKind::GeneratedQuantities,
    BlockKind::Library,
];

impl BlockKind {
    /// The words of the keyword that opens a block of this kind.
    pub open spec fn words(self) -> Seq<Seq<char>> {
        match self {
            BlockKind::Functions => seq!["functions"@],
            BlockKind::Data => seq!["data"@],
            BlockKind::TransformedData => seq!["transformed"@, "data"@],
            BlockKind::Parameters => seq!["parameters"@],
            BlockKind::TransformedParameters => seq!["transformed"@, "parameters"@],
            BlockKind::Model => seq!["model"@],
            BlockKind::GeneratedQuantities => seq!["generated"@, "quantities"@],
            BlockKind::Library => seq!["library"@],
        }
    }

    /// The keyword that opens a block of this kind.
    pub open spec fn keyword_text(self) -> Seq<char> {
        match self {
            BlockKind::Functions => "functions"@,
            BlockKind::Data => "data"@,
            BlockKind::TransformedData => "transformed data"@,
            BlockKind::Parameters => "parameters"@,
            BlockKind::TransformedParameters => "transformed parameters"@,
            BlockKind::Model => "model"@,
            BlockKind::GeneratedQuantities => "generated quantities"@,
            BlockKind::Library => "library"@,
        }
    }

    /// The keyword that opens a block of this kind.
    pub fn keyword(self) -> (r: &'static str)
        ensures
            r@ == self.keyword_text(),
    {
        match self {
            BlockKind::Functions => "functions",
            BlockKind::Data => "data",
            BlockKind::TransformedData => "transformed data",
            BlockKind::Parameters => "parameters",
            BlockKind::TransformedParameters => "transformed parameters",
            BlockKind::Model => "model",
            BlockKind::GeneratedQuantities => "generated quantities",
            BlockKind::Library => "library",
        }
    }

    fn keyword_words(self) -> (r: Vec<&'static str>)
        ensures
            views(r@) =~= self.words(),
    {
        match self {
            BlockKind::Functions => vec!["functions"],
            BlockKind::Data => vec!["data"],
            BlockKind::TransformedData => vec!["transformed", "data"],
            BlockKind::Parameters => vec!["parameters"],
            BlockKind::TransformedParameters => vec!["transformed", "parameters"],
            BlockKind::Model => vec!["model"],
            BlockKind::GeneratedQuantities => vec!["generated", "quantities"],
            BlockKind::Library => vec!["library"],
        }
    }
}

/// The first offset from `i` on that is not whitespace in code.
pub open spec fn skip_space(bytes: Seq<u8>, mask: &CodeMask, i: int) -> int
    decreases bytes.len() - i,
{
    if 0 <= i < bytes.len() && mask.code(i) && is_space_byte(bytes[i]) {
        skip_space(bytes, mask, i + 1)
    } else {
        i
    }
}

/// `word` stands at `i` as a whole word of code.
pub open spec fn word_at(bytes: Seq<u8>, mask: &CodeMask, i: int, word: Seq<u8>) -> bool {
    &&& occurs_at(bytes, word, i)
    &&& forall|k: int| i <= k < i + word.len() ==> #[trigger] mask.code(k)
    &&& i == 0 || !is_ident_byte(bytes[i - 1])
    &&& i + word.len() == bytes.len() || !is_ident_byte(bytes[i + word.len()])
}

/// Where the words from the `k`-th on end, when the words before them ended
/// at `at`: each next word stands after at least one whitespace of code.
pub open spec fn phrase_rest(
    bytes: Seq<u8>,
    mask: &CodeMask,
    at: int,
    words: Seq<Seq<char>>,
    k: int,
) -> Option<int>
    decreases words.len() - k,
{
    if k < 0 || k >= words.len() {
        Some(at)
    } else {
        let word = encode_utf8(words[k]);
        let pos = if k > 0 {
            skip_space(bytes, mask, at)
        } else {
            at
        };
        if (k > 0 && pos == at) || !word_at(bytes, mask, pos, word) {
            None
        } else {
            phrase_rest(bytes, mask, pos + word.len(), words, k + 1)
        }
    }
}

/// Where `words`, standing at `at`, end.
pub open spec fn phrase_end(
    bytes: Seq<u8>,
    mask: &CodeMask,
    at: int,
    words: Seq<Seq<char>>,
) -> Option<int> {
    phrase_rest(bytes, mask, at, words, 0)
}

/// The block of kind `kind` whose keyword stands at `i`.
pub open spec fn block_of_kind(
    bytes: Seq<u8>,
    mask: &CodeMask,
    i: int,
    kind: BlockKind,
) -> Option<Block> {
    match phrase_end(bytes, mask, i, kind.words()) {
        Some(after) => {
            let brace = skip_space(bytes, mask, after);
            if brace < bytes.len() && mask.code(brace) && bytes[brace] == 0x7b {
                match mask.closing(brace) {
                    Some(close) => Some(
                        Block { kind, open_brace: brace as usize, close_brace: close as usize },
                    ),
                    None => None,
                }
            } else {
                None
            }
        },
        None => None,
    }
}

/// The block whose keyword stands at `i`, among the kinds from the `k`-th on.
pub open spec fn block_from_kind(bytes: Seq<u8>, mask: &CodeMask, i: int, k: int) -> Option<Block>
    decreases BLOCK_ORDER@.len() - k,
{
    if k < 0 || k >= BLOCK_ORDER@.len() {
        None
    } else {
        match block_of_kind(bytes, mask, i, BLOCK_ORDER@[k]) {
            Some(block) => Some(block),
            None => block_from_kind(bytes, mask, i, k + 1),
        }
    }
}

/// The block whose keyword stands at `i`.
pub open spec fn block_at(bytes: Seq<u8>, mask: &CodeMask, i: int) -> Option<Block> {
    block_from_kind(bytes, mask, i, 0)
}

/// The blocks whose keywords stand at `i` or later, none of them inside
/// another.
pub open spec fn blocks_from(bytes: Seq<u8>, mask: &CodeMask, i: int) -> Seq<Block>
    decreases bytes.len() - i,
    when mask.wf(bytes) && 0 <= i && bytes.len() <= usize::MAX
    via blocks_from_decreases
{
    if i >= bytes.len() {
        seq![]
    } else {
        match block_at(bytes, mask, i) {
            Some(block) => seq![block] + blocks_from(bytes, mask, block.close_brace + 1),
            None => blocks_from(bytes, mask, i + 1),
        }
    }
}

#[via_fn]
proof fn blocks_from_decreases(bytes: Seq<u8>, mask: &CodeMask, i: int) {
    if i < bytes.len() {
        lemma_block_at(bytes, mask, i);
    }
}

/// The top-level blocks of a text.
pub open spec fn top_level_blocks(bytes: Seq<u8>, mask: &CodeMask) -> Seq<Block> {
    blocks_from(bytes, mask, 0)
}

/// Where the whitespace that ends at `n` starts.
pub open spec fn space_start(bytes: Seq<u8>, n: int) -> int
    decreases n,
{
    if 0 < n <= bytes.len() && is_space_byte(bytes[n - 1]) {
        space_start(bytes, n - 1)
    } else {
        n
    }
}

/// Where the first `k` of `words` start that stand before `n`, with nothing
/// but whitespace between them and behind the last one.
pub open spec fn phrase_start(bytes: Seq<u8>, words: Seq<Seq<char>>, n: int, k: int) -> Option<int>
    decreases k,
{
    if k <= 0 {
        Some(n)
    } else {
        let word = encode_utf8(words[k - 1]);
        let start = space_start(bytes, n) - word.len();
        if occurs_at(bytes, word, start) {
            phrase_start(bytes, words, start, k - 1)
        } else {
            None
        }
    }
}

/// Where a block begins: at the first byte of the keyword before its opening
/// brace. A brace without the keyword before it begins itself.
pub open spec fn keyword_start(bytes: Seq<u8>, block: Block) -> int {
    let words = block.kind.words();
    match phrase_start(bytes, words, block.open_brace as int, words.len() as int) {
        Some(start) => start,
        None => block.open_brace as int,
    }
}

/// The keyword of the block stands at its beginning, in code, and nothing but
/// whitespace stands between it and the opening brace.
pub open spec fn keyword_stands(bytes: Seq<u8>, mask: &CodeMask, block: Block) -> bool {
    phrase_end(bytes, mask, keyword_start(bytes, block), block.kind.words()) matches Some(after)
        && skip_space(bytes, mask, after) == block.open_brace
}

proof fn lemma_skip_space(bytes: Seq<u8>, mask: &CodeMask, i: int)
    requires
        0 <= i <= bytes.len(),
    ensures
        i <= skip_space(bytes, mask, i) <= bytes.len(),
    decreases bytes.len() - i,
{
    if i < bytes.len() && mask.code(i) && is_space_byte(bytes[i]) {
        lemma_skip_space(bytes, mask, i + 1);
    }
}

proof fn lemma_phrase_rest(
    bytes: Seq<u8>,
    mask: &CodeMask,
    at: int,
    words: Seq<Seq<char>>,
    k: int,
)
    requires
        0 <= at <= bytes.len(),
    ensures
        phrase_rest(bytes, mask, at, words, k) matches Some(end) ==> at <= end <= bytes.len(),
    decreases words.len() - k,
{
    if 0 <= k < words.len() {
        let word = encode_utf8(words[k]);
        lemma_skip_space(bytes, mask, at);
        let pos = if k > 0 {
            skip_space(bytes, mask, at)
        } else {
            at
        };
        if word_at(bytes, mask, pos, word) {
            lemma_phrase_rest(bytes, mask, pos + word.len(), words, k + 1);
        }
    }
}

/// The block is all there: its keyword stands before its braces, these are in
/// order and inside the text, the opening one is code, and the two belong
/// together.
pub open spec fn block_is_whole(bytes: Seq<u8>, mask: &CodeMask, b: Block) -> bool {
    &&& 0 <= keyword_start(bytes, b) < b.open_brace < b.close_brace < bytes.len()
    &&& keyword_stands(bytes, mask, b)
    &&& mask.code(b.open_brace as int)
    &&& bytes[b.open_brace as int] == 0x7b
    &&& bytes[b.close_brace as int] == 0x7d
    &&& mask.closing(b.open_brace as int) == Some(b.close_brace as int)
}

/// A block that is found at `i` begins there and is all there.
pub proof fn lemma_block_of_kind(bytes: Seq<u8>, mask: &CodeMask, i: int, kind: BlockKind)
    requires
        mask.wf(bytes),
        bytes.len() <= usize::MAX,
        0 <= i <= bytes.len(),
    ensures
        block_of_kind(bytes, mask, i, kind) matches Some(b) ==> {
            &&& b.kind == kind
            &&& i == keyword_start(bytes, b)
            &&& block_is_whole(bytes, mask, b)
        },
{
    lemma_phrase_rest(bytes, mask, i, kind.words(), 0);
    if let Some(after) = phrase_end(bytes, mask, i, kind.words()) {
        let words = kind.words();
        lemma_skip_space(bytes, mask, after);
        assert forall|k: int| 0 <= k < words.len() implies is_word(
            #[trigger] encode_utf8(words[k]),
        ) by {
            lemma_keyword_words(kind, k);
        }
        lemma_phrase_back(bytes, mask, i, i, words, 0);
        lemma_space_back(bytes, mask, after);
    }
}

/// Whitespace that is skipped forwards is skipped backwards too.
proof fn lemma_space_back(bytes: Seq<u8>, mask: &CodeMask, at: int)
    requires
        0 <= at <= bytes.len(),
    ensures
        space_start(bytes, skip_space(bytes, mask, at)) == space_start(bytes, at),
    decreases bytes.len() - at,
{
    if at < bytes.len() && mask.code(at) && is_space_byte(bytes[at]) {
        lemma_space_back(bytes, mask, at + 1);
    }
}

/// Words that are matched forwards from `i` on are found backwards from their
/// end; the first `k` of them end at `at`.
proof fn lemma_phrase_back(
    bytes: Seq<u8>,
    mask: &CodeMask,
    i: int,
    at: int,
    words: Seq<Seq<char>>,
    k: int,
)
    requires
        0 <= i <= at <= bytes.len(),
        0 <= k <= words.len(),
        forall|j: int| 0 <= j < words.len() ==> is_word(#[trigger] encode_utf8(words[j])),
        phrase_start(bytes, words, at, k) == Some(i),
        k > 0 ==> i < at && !is_space_byte(bytes[at - 1]),
        phrase_rest(bytes, mask, at, words, k) is Some,
    ensures
        ({
            let end = phrase_rest(bytes, mask, at, words, k)->0;
            &&& phrase_start(bytes, words, end, words.len() as int) == Some(i)
            &&& words.len() > 0 ==> i < end && !is_space_byte(bytes[end - 1])
        }),
    decreases words.len() - k,
{
    if k < words.len() {
        let word = encode_utf8(words[k]);
        assert(is_word(word));
        let pos = if k > 0 {
            skip_space(bytes, mask, at)
        } else {
            at
        };
        lemma_skip_space(bytes, mask, at);
        lemma_space_back(bytes, mask, at);
        let end = pos + word.len();
        let last = word.len() - 1;
        assert(bytes.subrange(pos, end)[last] == bytes[end - 1]);
        assert(is_ident_byte(word[last]));
        assert(space_start(bytes, end) == end);
        assert(phrase_start(bytes, words, end, k + 1) == phrase_start(bytes, words, pos, k));
        lemma_phrase_back(bytes, mask, i, end, words, k + 1);
    }
}

proof fn lemma_space_start(bytes: Seq<u8>, n: int)
    requires
        0 <= n,
    ensures
        0 <= space_start(bytes, n) <= n,
    decreases n,
{
    if 0 < n <= bytes.len() && is_space_byte(bytes[n - 1]) {
        lemma_space_start(bytes, n - 1);
    }
}

proof fn lemma_phrase_start(bytes: Seq<u8>, words: Seq<Seq<char>>, n: int, k: int)
    requires
        0 <= n <= bytes.len(),
        k <= words.len(),
        forall|j: int| 0 <= j < words.len() ==> is_word(#[trigger] encode_utf8(words[j])),
    ensures
        phrase_start(bytes, words, n, k) matches Some(start) ==> {
            &&& 0 <= start <= n
            &&& k > 0 ==> start < n && is_ident_byte(bytes[start])
        },
    decreases k,
{
    if k > 0 {
        let word = encode_utf8(words[k - 1]);
        assert(is_word(word));
        lemma_space_start(bytes, n);
        let start = space_start(bytes, n) - word.len();
        if occurs_at(bytes, word, start) {
            lemma_phrase_start(bytes, words, start, k - 1);
            assert(bytes.subrange(start, start + word.len())[0] == bytes[start]);
            assert(is_ident_byte(word[0]));
        }
    }
}

/// A block begins before its brace or at it, where the text can be cut.
pub proof fn lemma_keyword_start(bytes: Seq<u8>, block: Block)
    requires
        valid_utf8(bytes),
        on_boundary(bytes, block.open_brace as int),
    ensures
        0 <= keyword_start(bytes, block) <= block.open_brace,
        on_boundary(bytes, keyword_start(bytes, block)),
{
    let words = block.kind.words();
    assert forall|k: int| 0 <= k < words.len() implies is_word(#[trigger] encode_utf8(words[k])) by {
        lemma_keyword_words(block.kind, k);
    }
    lemma_phrase_start(bytes, words, block.open_brace as int, words.len() as int);
    if let Some(start) = phrase_start(
        bytes,
        words,
        block.open_brace as int,
        words.len() as int,
    ) {
        lemma_after_ascii(bytes, start);
    }
}

/// Where the block `block` of `source` begins.
pub fn find_keyword_start(source: &str, block: &Block) -> (r: usize)
    requires
        block.open_brace <= encode_utf8(source@).len(),
    ensures
        r == keyword_start(encode_utf8(source@), *block),
{
    let bytes = source.as_bytes();
    let words = block.kind.keyword_words();
    let ghost phrase = block.kind.words();
    let ghost all = phrase.len() as int;
    let mut n: usize = block.open_brace;
    let mut k: usize = words.len();
    while k > 0
        invariant
            bytes@ == encode_utf8(source@),
            phrase == block.kind.words(),
            all == phrase.len(),
            views(words@) == phrase,
            k <= words@.len(),
            n <= block.open_brace <= bytes@.len(),
            phrase_start(bytes@, phrase, block.open_brace as int, all) == phrase_start(
                bytes@,
                phrase,
                n as int,
                k as int,
            ),
        decreases k,
    {
        let mut end: usize = n;
        while end > 0 && is_ascii_whitespace(bytes[end - 1])
            invariant
                end <= n <= bytes@.len(),
                space_start(bytes@, n as int) == space_start(bytes@, end as int),
            decreases end,
        {
            end -= 1;
        }
        let word = words[k - 1].as_bytes();
        assert(word@ == encode_utf8(phrase[k - 1]));
        if end < word.len() || !matches_at(bytes, end - word.len(), word) {
            return block.open_brace;
        }
        n = end - word.len();
        k -= 1;
    }
    n
}

proof fn lemma_block_from_kind(bytes: Seq<u8>, mask: &CodeMask, i: int, k: int)
    requires
        mask.wf(bytes),
        bytes.len() <= usize::MAX,
        0 <= i <= bytes.len(),
    ensures
        block_from_kind(bytes, mask, i, k) matches Some(b) ==> block_of_kind(
            bytes,
            mask,
            i,
            b.kind,
        ) == Some(b),
    decreases BLOCK_ORDER@.len() - k,
{
    if 0 <= k < BLOCK_ORDER@.len() {
        lemma_block_of_kind(bytes, mask, i, BLOCK_ORDER@[k]);
        lemma_block_from_kind(bytes, mask, i, k + 1);
    }
}

/// A block that is found at `i` begins there and is all there.
pub proof fn lemma_block_at(bytes: Seq<u8>, mask: &CodeMask, i: int)
    requires
        mask.wf(bytes),
        bytes.len() <= usize::MAX,
        0 <= i <= bytes.len(),
    ensures
        block_at(bytes, mask, i) matches Some(b) ==> i == keyword_start(bytes, b)
            && block_is_whole(bytes, mask, b),
{
    lemma_block_from_kind(bytes, mask, i, 0);
    if let Some(b) = block_at(bytes, mask, i) {
        lemma_block_of_kind(bytes, mask, i, b.kind);
    }
}

/// Where whitespace of code that starts at `i` ends.
pub fn skip_real_ws(source: &str, mask: &CodeMask, i: usize) -> (r: usize)
    requires
        mask.wf(encode_utf8(source@)),
    ensures
        r == skip_space(encode_utf8(source@), mask, i as int),
{
    let bytes = source.as_bytes();
    let mut j = i;
    while j < bytes.len() && mask.is_real(j) && is_ascii_whitespace(bytes[j])
        invariant
            bytes@ == encode_utf8(source@),
            mask.wf(bytes@),
            i <= j,
            skip_space(bytes@, mask, i as int) == skip_space(bytes@, mask, j as int),
        decreases bytes.len() - j,
    {
        j += 1;
    }
    j
}

/// Whether `word` stands at `at` as a whole word of code.
pub fn is_word_at(bytes: &[u8], mask: &CodeMask, at: usize, word: &[u8]) -> (r: bool)
    requires
        mask.wf(bytes@),
    ensures
        r == word_at(bytes@, mask, at as int, word@),
{
    let length = bytes.len();
    if !matches_at(bytes, at, word) {
        return false;
    }
    let end = at + word.len();
    mask.all_real(at, end) && (at == 0 || !is_ident_char(bytes[at - 1])) && (end == length
        || !is_ident_char(bytes[end]))
}

/// Where `words`, each a whole word of code and separated by whitespace of
/// code, end if they stand at `at`.
pub fn match_phrase(source: &str, mask: &CodeMask, at: usize, words: &Vec<&str>) -> (r: Option<
    usize,
>)
    requires
        mask.wf(encode_utf8(source@)),
    ensures
        offset_view(r) == phrase_end(encode_utf8(source@), mask, at as int, views(words@)),
{
    let bytes = source.as_bytes();
    let len = bytes.len();
    let ghost phrase = views(words@);
    let mut pos: usize = at;
    let mut k: usize = 0;
    while k < words.len()
        invariant
            bytes@ == encode_utf8(source@),
            len == bytes@.len(),
            mask.wf(bytes@),
            phrase == views(words@),
            k <= words@.len(),
            phrase_end(bytes@, mask, at as int, phrase) == phrase_rest(
                bytes@,
                mask,
                pos as int,
                phrase,
                k as int,
            ),
        decreases words.len() - k,
    {
        let before: usize = pos;
        if k > 0 {
            pos = skip_real_ws(source, mask, before);
            if pos == before {
                return None;
            }
        }
        let word = words[k].as_bytes();
        assert(word@ == encode_utf8(phrase[k as int]));
        if !is_word_at(bytes, mask, pos, word) {
            return None;
        }
        pos = pos + word.len();
        k += 1;
    }
    Some(pos)
}

/// Every top-level block of `source`, in the order of the text. Blocks do not
/// nest, so the search goes on behind the closing brace of each block found.
pub fn find_top_level_blocks(source: &str, mask: &CodeMask) -> (r: Vec<Block>)
    requires
        mask.wf(encode_utf8(source@)),
    ensures
        r@ == top_level_blocks(encode_utf8(source@), mask),
        blocks_in_order(encode_utf8(source@), mask, r@, 0),
{
    let bytes = source.as_bytes();
    let len = bytes.len();
    let mut out: Vec<Block> = Vec::new();
    let mut i: usize = 0;
    while i < bytes.len()
        invariant
            bytes@ == encode_utf8(source@),
            mask.wf(bytes@),
            i <= len == bytes@.len(),
            out@ + blocks_from(bytes@, mask, i as int) == top_level_blocks(bytes@, mask),
        decreases bytes.len() - i,
    {
        let order = BLOCK_ORDER;
        let mut found: Option<Block> = None;
        let mut k: usize = 0;
        while k < order.len() && found.is_none()
            invariant
                order == BLOCK_ORDER,
                bytes@ == encode_utf8(source@),
                mask.wf(bytes@),
                i < len == bytes@.len(),
                k <= order@.len(),
                block_at(bytes@, mask, i as int) == (match found {
                    Some(b) => Some(b),
                    None => block_from_kind(bytes@, mask, i as int, k as int),
                }),
            decreases order.len() - k,
        {
            let kind = order[k];
            let words = kind.keyword_words();
            proof {
                lemma_phrase_rest(bytes@, mask, i as int, kind.words(), 0);
            }
            if let Some(after) = match_phrase(source, mask, i, &words) {
                let brace = skip_real_ws(source, mask, after);
                if brace < bytes.len() && mask.is_real(brace) && bytes[brace] == 0x7b {
                    if let Some(close) = mask.match_closing_brace(brace) {
                        found = Some(Block { kind, open_brace: brace, close_brace: close });
                    }
                }
            }
            assert(block_of_kind(bytes@, mask, i as int, kind) == found);
            k += 1;
        }
        proof {
            lemma_block_at(bytes@, mask, i as int);
        }
        let ghost rest = blocks_from(bytes@, mask, i as int);
        match found {
            Some(block) => {
                proof {
                    let tail = blocks_from(bytes@, mask, block.close_brace + 1);
                    assert(rest == seq![block] + tail);
                    assert(out@ + rest =~= out@.push(block) + tail);
                }
                out.push(block);
                i = block.close_brace + 1;
            },
            None => {
                i += 1;
            },
        }
    }
    assert(out@ + blocks_from(bytes@, mask, i as int) =~= out@);
    proof {
        law_blocks_in_order(bytes@, mask);
    }
    out
}

// ---------------------------------------------------------------------------
// Laws
// ---------------------------------------------------------------------------

/// A word made of identifier bytes alone, and at least one of them.
pub open spec fn is_word(word: Seq<u8>) -> bool {
    word.len() > 0 && forall|k: int| 0 <= k < word.len() ==> is_ident_byte(#[trigger] word[k])
}

/// At most one whole word stands at an offset.
pub proof fn law_one_word_per_offset(
    bytes: Seq<u8>,
    mask: &CodeMask,
    i: int,
    first: Seq<u8>,
    second: Seq<u8>,
)
    requires
        is_word(first),
        is_word(second),
        word_at(bytes, mask, i, first),
        word_at(bytes, mask, i, second),
    ensures
        first == second,
{
    let n = first.len();
    let m = second.len();
    if n < m {
        assert(bytes.subrange(i, i + m)[n as int] == bytes[i + n]);
        assert(is_ident_byte(second[n as int]));
    } else if m < n {
        assert(bytes.subrange(i, i + n)[m as int] == bytes[i + m]);
        assert(is_ident_byte(first[m as int]));
    }
}

proof fn lemma_ident_word(word: Seq<char>)
    requires
        word.len() > 0,
        forall|k: int| 0 <= k < word.len() ==> 'a' <= #[trigger] word[k] <= 'z',
    ensures
        is_word(encode_utf8(word)),
{
    is_ascii_chars_encode_utf8(word);
    let bytes = encode_utf8(word);
    assert forall|k: int| 0 <= k < bytes.len() implies is_ident_byte(#[trigger] bytes[k]) by {
        assert('a' <= word[k] <= 'z');
        assert(bytes[k] == word[k] as u8);
    }
}

/// The words of every keyword are made of letters.
proof fn lemma_keyword_words(kind: BlockKind, k: int)
    requires
        0 <= k < kind.words().len(),
    ensures
        is_word(encode_utf8(kind.words()[k])),
{
    reveal_strlit("functions");
    reveal_strlit("data");
    reveal_strlit("transformed");
    reveal_strlit("parameters");
    reveal_strlit("model");
    reveal_strlit("generated");
    reveal_strlit("quantities");
    reveal_strlit("library");
    lemma_ident_word(kind.words()[k]);
}

/// At most one keyword stands at an offset: which kind of block starts there
/// does not depend on the order in which the kinds are tried.
pub proof fn law_one_keyword_per_offset(
    bytes: Seq<u8>,
    mask: &CodeMask,
    i: int,
    first: BlockKind,
    second: BlockKind,
)
    requires
        phrase_end(bytes, mask, i, first.words()) is Some,
        phrase_end(bytes, mask, i, second.words()) is Some,
    ensures
        first == second,
{
    reveal_with_fuel(phrase_rest, 3);
    let a = first.words();
    let b = second.words();
    lemma_keyword_words(first, 0);
    lemma_keyword_words(second, 0);
    law_one_word_per_offset(bytes, mask, i, encode_utf8(a[0]), encode_utf8(b[0]));
    lemma_same_bytes(a[0], b[0]);
    reveal_strlit("functions");
    reveal_strlit("data");
    reveal_strlit("transformed");
    reveal_strlit("parameters");
    reveal_strlit("model");
    reveal_strlit("generated");
    reveal_strlit("quantities");
    reveal_strlit("library");
    assert("functions"@[0] == 'f');
    assert("data"@[0] == 'd');
    assert("transformed"@[0] == 't');
    assert("parameters"@[0] == 'p');
    assert("model"@[0] == 'm');
    assert("generated"@[0] == 'g');
    assert("library"@[0] == 'l');
    if a.len() == 2 && b.len() == 2 {
        lemma_keyword_words(first, 1);
        lemma_keyword_words(second, 1);
        let at = skip_space(bytes, mask, i + encode_utf8(a[0]).len());
        law_one_word_per_offset(bytes, mask, at, encode_utf8(a[1]), encode_utf8(b[1]));
        lemma_same_bytes(a[1], b[1]);
    }
}

/// The blocks are whole, they begin at `i` or later, and each closes before
/// the next one begins.
pub open spec fn blocks_in_order(
    bytes: Seq<u8>,
    mask: &CodeMask,
    blocks: Seq<Block>,
    i: int,
) -> bool {
    &&& forall|k: int|
        #![trigger blocks[k]]
        0 <= k < blocks.len() ==> i <= keyword_start(bytes, blocks[k]) && block_is_whole(
            bytes,
            mask,
            blocks[k],
        )
    &&& forall|j: int, k: int|
        #![trigger blocks[j], blocks[k]]
        0 <= j < k < blocks.len() ==> blocks[j].close_brace < keyword_start(bytes, blocks[k])
}

/// Blocks never nest or overlap: each closes before the next one begins.
pub proof fn law_blocks_in_order(bytes: Seq<u8>, mask: &CodeMask)
    requires
        mask.wf(bytes),
        bytes.len() <= usize::MAX,
    ensures
        blocks_in_order(bytes, mask, top_level_blocks(bytes, mask), 0),
{
    lemma_blocks_in_order(bytes, mask, 0);
}

proof fn lemma_blocks_in_order(bytes: Seq<u8>, mask: &CodeMask, i: int)
    requires
        mask.wf(bytes),
        bytes.len() <= usize::MAX,
        0 <= i,
    ensures
        blocks_in_order(bytes, mask, blocks_from(bytes, mask, i), i),
    decreases bytes.len() - i,
{
    if i < bytes.len() {
        lemma_block_at(bytes, mask, i);
        match block_at(bytes, mask, i) {
            Some(block) => {
                lemma_blocks_in_order(bytes, mask, block.close_brace + 1);
                let tail = blocks_from(bytes, mask, block.close_brace + 1);
                let all = blocks_from(bytes, mask, i);
                assert(all == seq![block] + tail);
                assert forall|k: int| 1 <= k < all.len() implies #[trigger] all[k] == tail[k
                    - 1] by {}
            },
            None => {
                lemma_blocks_in_order(bytes, mask, i + 1);
            },
        }
    }
}

/// The bytes `word` stand at `i`, all of them code, with no identifier byte
/// right before or behind them.
pub open spec fn word_is_written(bytes: Seq<u8>, mask: &CodeMask, i: int, word: Seq<u8>) -> bool {
    let end = i + word.len();
    &&& 0 <= i
    &&& end <= bytes.len()
    &&& forall|k: int| 0 <= k < word.len() ==> #[trigger] word[k] == bytes[i + k]
    &&& forall|k: int| i <= k < end ==> #[trigger] mask.code(k)
    &&& i > 0 ==> !is_ident_byte(bytes[i - 1])
    &&& end < bytes.len() ==> !is_ident_byte(bytes[end])
}

/// What counts as a whole word of code, byte by byte.
pub proof fn law_what_a_word_is(bytes: Seq<u8>, mask: &CodeMask, i: int, word: Seq<u8>)
    ensures
        word_at(bytes, mask, i, word) <==> word_is_written(bytes, mask, i, word),
{
    if word_at(bytes, mask, i, word) {
        assert forall|k: int| 0 <= k < word.len() implies #[trigger] word[k] == bytes[i + k] by {
            assert(bytes.subrange(i, i + word.len())[k] == bytes[i + k]);
        }
    }
    if word_is_written(bytes, mask, i, word) {
        assert(bytes.subrange(i, i + word.len()) =~= word);
    }
}

/// From `start` up to `end` there is nothing but whitespace of code.
pub open spec fn is_gap(bytes: Seq<u8>, mask: &CodeMask, start: int, end: int) -> bool {
    &&& start <= end
    &&& forall|k: int| start <= k < end ==> #[trigger] mask.code(k) && is_space_byte(bytes[k])
}

/// The keyword of the block is written at `i`, its second word, if it has two,
/// at `second`; then come the block's two braces, which belong together.
pub open spec fn block_is_written(
    bytes: Seq<u8>,
    mask: &CodeMask,
    i: int,
    second: int,
    block: Block,
) -> bool {
    let words = block.kind.words();
    let first_end = i + encode_utf8(words[0]).len();
    let open = block.open_brace as int;
    &&& word_is_written(bytes, mask, i, encode_utf8(words[0]))
    &&& if words.len() == 1 {
        is_gap(bytes, mask, first_end, open)
    } else {
        &&& first_end < second
        &&& is_gap(bytes, mask, first_end, second)
        &&& word_is_written(bytes, mask, second, encode_utf8(words[1]))
        &&& is_gap(bytes, mask, second + encode_utf8(words[1]).len(), open)
    }
    &&& open < bytes.len()
    &&& mask.code(open)
    &&& bytes[open] == 0x7b
    &&& mask.closing(open) == Some(block.close_brace as int)
}

proof fn lemma_skip_space_reaches(bytes: Seq<u8>, mask: &CodeMask, start: int, end: int)
    requires
        0 <= start <= end < bytes.len(),
        is_gap(bytes, mask, start, end),
        !is_space_byte(bytes[end]),
    ensures
        skip_space(bytes, mask, start) == end,
    decreases end - start,
{
    if start < end {
        assert(mask.code(start) && is_space_byte(bytes[start]));
        lemma_skip_space_reaches(bytes, mask, start + 1, end);
    }
}

proof fn lemma_skip_space_filled(bytes: Seq<u8>, mask: &CodeMask, start: int)
    requires
        0 <= start <= bytes.len(),
    ensures
        is_gap(bytes, mask, start, skip_space(bytes, mask, start)),
    decreases bytes.len() - start,
{
    if start < bytes.len() && mask.code(start) && is_space_byte(bytes[start]) {
        lemma_skip_space_filled(bytes, mask, start + 1);
    }
}

proof fn lemma_written_block(
    bytes: Seq<u8>,
    mask: &CodeMask,
    i: int,
    second: int,
    block: Block,
)
    requires
        mask.wf(bytes),
        bytes.len() <= usize::MAX,
        block_is_written(bytes, mask, i, second, block),
    ensures
        block_of_kind(bytes, mask, i, block.kind) == Some(block),
{
    reveal_with_fuel(phrase_rest, 3);
    let words = block.kind.words();
    let first = encode_utf8(words[0]);
    lemma_keyword_words(block.kind, 0);
    law_what_a_word_is(bytes, mask, i, first);
    if words.len() == 1 {
        lemma_skip_space_reaches(bytes, mask, i + first.len(), block.open_brace as int);
    } else {
        let word = encode_utf8(words[1]);
        lemma_keyword_words(block.kind, 1);
        law_what_a_word_is(bytes, mask, second, word);
        assert(word[0] == bytes[second + 0]);
        assert(is_ident_byte(word[0]));
        lemma_skip_space_reaches(bytes, mask, i + first.len(), second);
        lemma_skip_space_reaches(bytes, mask, second + word.len(), block.open_brace as int);
    }
}

proof fn lemma_found_block(bytes: Seq<u8>, mask: &CodeMask, i: int, block: Block) -> (second: int)
    requires
        mask.wf(bytes),
        bytes.len() <= usize::MAX,
        0 <= i <= bytes.len(),
        block_of_kind(bytes, mask, i, block.kind) == Some(block),
    ensures
        block_is_written(bytes, mask, i, second, block),
{
    reveal_with_fuel(phrase_rest, 3);
    let words = block.kind.words();
    let first = encode_utf8(words[0]);
    let second = skip_space(bytes, mask, i + first.len());
    law_what_a_word_is(bytes, mask, i, first);
    lemma_skip_space_filled(bytes, mask, i + first.len());
    lemma_skip_space(bytes, mask, i + first.len());
    if words.len() == 2 {
        let word = encode_utf8(words[1]);
        law_what_a_word_is(bytes, mask, second, word);
        lemma_skip_space_filled(bytes, mask, second + word.len());
        lemma_skip_space(bytes, mask, second + word.len());
    }
    second
}

proof fn lemma_block_from_finds(bytes: Seq<u8>, mask: &CodeMask, i: int, from: int, k: int)
    requires
        mask.wf(bytes),
        bytes.len() <= usize::MAX,
        0 <= i <= bytes.len(),
        0 <= from <= k < BLOCK_ORDER@.len(),
        block_of_kind(bytes, mask, i, BLOCK_ORDER@[k]) is Some,
    ensures
        block_from_kind(bytes, mask, i, from) == block_of_kind(bytes, mask, i, BLOCK_ORDER@[k]),
    decreases k - from,
{
    if from < k {
        if block_of_kind(bytes, mask, i, BLOCK_ORDER@[from]) is Some {
            law_one_keyword_per_offset(bytes, mask, i, BLOCK_ORDER@[from], BLOCK_ORDER@[k]);
        }
        lemma_block_from_finds(bytes, mask, i, from + 1, k);
    }
}

proof fn lemma_written_block_at(
    bytes: Seq<u8>,
    mask: &CodeMask,
    i: int,
    second: int,
    block: Block,
)
    requires
        mask.wf(bytes),
        bytes.len() <= usize::MAX,
        block_is_written(bytes, mask, i, second, block),
    ensures
        block_at(bytes, mask, i) == Some(block),
{
    lemma_written_block(bytes, mask, i, second, block);
    let k: int = match block.kind {
        BlockKind::Functions => 0,
        BlockKind::TransformedData => 1,
        BlockKind::Data => 2,
        BlockKind::TransformedParameters => 3,
        BlockKind::Parameters => 4,
        BlockKind::Model => 5,
        BlockKind::GeneratedQuantities => 6,
        BlockKind::Library => 7,
    };
    assert(BLOCK_ORDER@[k] == block.kind);
    lemma_block_from_finds(bytes, mask, i, 0, k);
}

/// One of the blocks begins before `i` and closes at `i` or later.
pub open spec fn lies_inside(bytes: Seq<u8>, blocks: Seq<Block>, i: int) -> bool {
    exists|k: int|
        0 <= k < blocks.len() && keyword_start(bytes, #[trigger] blocks[k]) < i
            <= blocks[k].close_brace
}

/// Every block is found: a block whose keyword and braces are written in the
/// text is among the blocks that are found, unless it begins inside one of
/// them; and it begins where its keyword is written.
pub proof fn law_every_block_is_found(
    bytes: Seq<u8>,
    mask: &CodeMask,
    i: int,
    second: int,
    block: Block,
)
    requires
        mask.wf(bytes),
        bytes.len() <= usize::MAX,
        block_is_written(bytes, mask, i, second, block),
    ensures
        top_level_blocks(bytes, mask).contains(block) || lies_inside(
            bytes,
            top_level_blocks(bytes, mask),
            i,
        ),
        keyword_start(bytes, block) == i,
{
    lemma_written_block(bytes, mask, i, second, block);
    lemma_block_of_kind(bytes, mask, i, block.kind);
    lemma_written_block_at(bytes, mask, i, second, block);
    lemma_block_is_found(bytes, mask, 0, i, block);
}

proof fn lemma_block_is_found(bytes: Seq<u8>, mask: &CodeMask, from: int, i: int, block: Block)
    requires
        mask.wf(bytes),
        bytes.len() <= usize::MAX,
        0 <= from <= i < bytes.len(),
        block_at(bytes, mask, i) == Some(block),
    ensures
        blocks_from(bytes, mask, from).contains(block) || lies_inside(
            bytes,
            blocks_from(bytes, mask, from),
            i,
        ),
    decreases i - from,
{
    let all = blocks_from(bytes, mask, from);
    lemma_block_at(bytes, mask, from);
    match block_at(bytes, mask, from) {
        Some(c) => {
            let tail = blocks_from(bytes, mask, c.close_brace + 1);
            assert(all == seq![c] + tail);
            assert(all[0] == c);
            if from < i {
                if i <= c.close_brace {
                    assert(keyword_start(bytes, all[0]) < i <= all[0].close_brace);
                } else {
                    lemma_block_is_found(bytes, mask, c.close_brace + 1, i, block);
                    if tail.contains(block) {
                        let k = tail.index_of(block);
                        assert(all[k + 1] == block);
                    } else {
                        let k = choose|k: int|
                            0 <= k < tail.len() && keyword_start(bytes, #[trigger] tail[k]) < i
                                <= tail[k].close_brace;
                        assert(all[k + 1] == tail[k]);
                    }
                }
            }
        },
        None => {
            lemma_block_is_found(bytes, mask, from + 1, i, block);
        },
    }
}

/// Nothing else is found: every block that is found is written in the text,
/// its keyword where it begins.
pub proof fn law_found_blocks_are_written(bytes: Seq<u8>, mask: &CodeMask, k: int)
    requires
        mask.wf(bytes),
        bytes.len() <= usize::MAX,
        0 <= k < top_level_blocks(bytes, mask).len(),
    ensures
        ({
            let block = top_level_blocks(bytes, mask)[k];
            exists|second: int| #[trigger]
                block_is_written(bytes, mask, keyword_start(bytes, block), second, block)
        }),
{
    lemma_found_blocks_are_written(bytes, mask, 0, k);
}

proof fn lemma_found_blocks_are_written(bytes: Seq<u8>, mask: &CodeMask, from: int, k: int)
    requires
        mask.wf(bytes),
        bytes.len() <= usize::MAX,
        0 <= from,
        0 <= k < blocks_from(bytes, mask, from).len(),
    ensures
        ({
            let block = blocks_from(bytes, mask, from)[k];
            exists|second: int| #[trigger]
                block_is_written(bytes, mask, keyword_start(bytes, block), second, block)
        }),
    decreases bytes.len() - from,
{
    if from < bytes.len() {
        let all = blocks_from(bytes, mask, from);
        lemma_block_at(bytes, mask, from);
        match block_at(bytes, mask, from) {
            Some(c) => {
                let tail = blocks_from(bytes, mask, c.close_brace + 1);
                assert(all == seq![c] + tail);
                if k == 0 {
                    lemma_block_from_kind(bytes, mask, from, 0);
                    let second = lemma_found_block(bytes, mask, from, c);
                    assert(all[0] == c);
                } else {
                    assert(all[k] == tail[k - 1]);
                    lemma_found_blocks_are_written(bytes, mask, c.close_brace + 1, k - 1);
                }
            },
            None => {
                lemma_found_blocks_are_written(bytes, mask, from + 1, k);
            },
        }
    }
}

/// The keyword of a kind of block is its words, with a space between them.
pub proof fn law_keyword_is_its_words(kind: BlockKind)
    ensures
        kind.words().len() == 1 ==> kind.keyword_text() == kind.words()[0],
        kind.words().len() != 1 ==> kind.words().len() == 2 && kind.keyword_text()
            == kind.words()[0] + seq![' '] + kind.words()[1],
{
    reveal_strlit("functions");
    reveal_strlit("data");
    reveal_strlit("transformed");
    reveal_strlit("transformed data");
    reveal_strlit("parameters");
    reveal_strlit("transformed parameters");
    reveal_strlit("model");
    reveal_strlit("generated");
    reveal_strlit("quantities");
    reveal_strlit("generated quantities");
    reveal_strlit("library");
    assert("transformed data"@ =~= "transformed"@ + seq![' '] + "data"@);
    assert("transformed parameters"@ =~= "transformed"@ + seq![' '] + "parameters"@);
    assert("generated quantities"@ =~= "generated"@ + seq![' '] + "quantities"@);
}

/// Whitespace of code ends at the first byte that is none or is not code.
pub proof fn law_skip_space(bytes: Seq<u8>, mask: &CodeMask, start: int)
    requires
        0 <= start <= bytes.len(),
    ensures
        ({
            let end = skip_space(bytes, mask, start);
            &&& start <= end <= bytes.len()
            &&& is_gap(bytes, mask, start, end)
            &&& end < bytes.len() ==> !(mask.code(end) && is_space_byte(bytes[end]))
        }),
    decreases bytes.len() - start,
{
    lemma_skip_space_filled(bytes, mask, start);
    if start < bytes.len() && mask.code(start) && is_space_byte(bytes[start]) {
        law_skip_space(bytes, mask, start + 1);
    }
}

/// Words are matched one by one: no words end where they start, and one word
/// more ends behind that word if it stands behind the others, after whitespace
/// of code unless it is the first; otherwise there is no match.
pub proof fn law_phrase_grows(
    bytes: Seq<u8>,
    mask: &CodeMask,
    at: int,
    words: Seq<Seq<char>>,
    word: Seq<char>,
)
    requires
        0 <= at <= bytes.len(),
    ensures
        phrase_end(bytes, mask, at, seq![]) == Some(at),
        ({
            let more = phrase_end(bytes, mask, at, words.push(word));
            match phrase_end(bytes, mask, at, words) {
                None => more is None,
                Some(end) => {
                    let next = if words.len() == 0 {
                        end
                    } else {
                        skip_space(bytes, mask, end)
                    };
                    if (words.len() == 0 || end < next) && word_is_written(
                        bytes,
                        mask,
                        next,
                        encode_utf8(word),
                    ) {
                        more == Some(next + encode_utf8(word).len())
                    } else {
                        more is None
                    }
                },
            }
        }),
{
    lemma_phrase_grows(bytes, mask, at, words, word, 0);
    lemma_phrase_rest(bytes, mask, at, words, 0);
    if let Some(end) = phrase_end(bytes, mask, at, words) {
        lemma_skip_space(bytes, mask, end);
        law_what_a_word_is(bytes, mask, end, encode_utf8(word));
        law_what_a_word_is(bytes, mask, skip_space(bytes, mask, end), encode_utf8(word));
        reveal_with_fuel(phrase_rest, 2);
    }
}

proof fn lemma_phrase_grows(
    bytes: Seq<u8>,
    mask: &CodeMask,
    at: int,
    words: Seq<Seq<char>>,
    word: Seq<char>,
    k: int,
)
    requires
        0 <= k <= words.len(),
    ensures
        phrase_rest(bytes, mask, at, words.push(word), k) == (match phrase_rest(
            bytes,
            mask,
            at,
            words,
            k,
        ) {
            Some(end) => phrase_rest(bytes, mask, end, words.push(word), words.len() as int),
            None => None,
        }),
    decreases words.len() - k,
{
    if k < words.len() {
        let here = encode_utf8(words[k]);
        let pos = if k > 0 {
            skip_space(bytes, mask, at)
        } else {
            at
        };
        assert(words.push(word)[k] == words[k]);
        if !((k > 0 && pos == at) || !word_at(bytes, mask, pos, here)) {
            lemma_phrase_grows(bytes, mask, pos + here.len(), words, word, k + 1);
        }
    }
}

/// A brace without a keyword before it begins its block itself: there is none
/// where what comes before it, whitespace aside, is no identifier byte.
pub proof fn law_brace_without_a_keyword(bytes: Seq<u8>, block: Block, end: int)
    requires
        0 <= end <= block.open_brace <= bytes.len(),
        forall|k: int| end <= k < block.open_brace ==> is_space_byte(#[trigger] bytes[k]),
        end > 0 ==> !is_space_byte(bytes[end - 1]) && !is_ident_byte(bytes[end - 1]),
    ensures
        keyword_start(bytes, block) == block.open_brace,
{
    let words = block.kind.words();
    let n = words.len() as int;
    let word = encode_utf8(words[n - 1]);
    lemma_keyword_words(block.kind, n - 1);
    lemma_space_start_at(bytes, end, block.open_brace as int);
    let start = end - word.len();
    if occurs_at(bytes, word, start) {
        assert(bytes.subrange(start, end)[word.len() - 1] == bytes[end - 1]);
        assert(is_ident_byte(word[word.len() - 1]));
    }
}

proof fn lemma_space_start_at(bytes: Seq<u8>, end: int, n: int)
    requires
        0 <= end <= n <= bytes.len(),
        forall|k: int| end <= k < n ==> is_space_byte(#[trigger] bytes[k]),
        end > 0 ==> !is_space_byte(bytes[end - 1]),
    ensures
        space_start(bytes, n) == end,
    decreases n - end,
{
    if n > end {
        assert(is_space_byte(bytes[n - 1]));
        lemma_space_start_at(bytes, end, n - 1);
    }
}

} // verus!
