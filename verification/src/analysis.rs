//! The per-file symbol tables behind semantic tokens and completion: which
//! names a file declares and in which role, which functions it defines, which
//! library functions it calls and which libraries it imports.
//!
//! This is not a type checker: a declared name and the block it belongs to
//! are all that is extracted, never a type, a dimension or a constraint.

use crate::blocks::{
    Block, BlockKind, block_is_written, blocks_in_order, find_keyword_start, find_top_level_blocks,
    keyword_start, law_blocks_in_order, law_every_block_is_found, lemma_keyword_start,
    top_level_blocks,
};
use crate::declarations::{
    body_declarations, declared, lemma_declared_by_some, scan_declarations, top_level_statements,
    visible,
};
use crate::mask::CodeMask;
use crate::text::{
    contains_name, lemma_after_ascii, lemma_between_valid, lemma_boundary, on_boundary, str_eq,
    substring, text_between, texts,
};
use std::ops::Range;
use vstd::prelude::*;
use vstd::string::*;
use vstd::utf8::*;

verus! {

/// The semantic token legend, in the order in which the client sees it. A
/// token type is an index into it.
pub const TOKEN_TYPES: [&'static str; 8] = [
    "laplaceData",
    "laplaceParameter",
    "laplaceTransformedParameter",
    "laplaceGeneratedQuantity",
    "laplaceLocal",
    "laplaceBuiltinFunction",
    "laplaceLibraryFunction",
    "laplaceUserFunction",
];

pub const TOKEN_DATA: u32 = 0;

pub const TOKEN_PARAMETER: u32 = 1;

pub const TOKEN_TRANSFORMED_PARAMETER: u32 = 2;

pub const TOKEN_GENERATED_QUANTITY: u32 = 3;

pub const TOKEN_LOCAL: u32 = 4;

pub const TOKEN_BUILTIN_FUNCTION: u32 = 5;

pub const TOKEN_LIBRARY_FUNCTION: u32 = 6;

pub const TOKEN_USER_FUNCTION: u32 = 7;

/// The role of a declared name: which kind of block it was declared in.
#[derive(Debug, Clone, Copy, PartialEq, Eq, Hash, Structural)]
pub enum Role {
    Data,
    Parameter,
    TransformedParameter,
    GeneratedQuantity,
    Local,
}

impl Role {
    /// The token type of a name with this role.
    pub open spec fn legend_index(self) -> u32 {
        match self {
            Role::Data => TOKEN_DATA,
            Role::Parameter => TOKEN_PARAMETER,
            Role::TransformedParameter => TOKEN_TRANSFORMED_PARAMETER,
            Role::GeneratedQuantity => TOKEN_GENERATED_QUANTITY,
            Role::Local => TOKEN_LOCAL,
        }
    }

    /// The token type of a name with this role.
    pub fn token_type(self) -> (r: u32)
        ensures
            r == self.legend_index(),
    {
        match self {
            Role::Data => TOKEN_DATA,
            Role::Parameter => TOKEN_PARAMETER,
            Role::TransformedParameter => TOKEN_TRANSFORMED_PARAMETER,
            Role::GeneratedQuantity => TOKEN_GENERATED_QUANTITY,
            Role::Local => TOKEN_LOCAL,
        }
    }
}

/// The role of the names that a block declares; `None` for the blocks that
/// are not scanned. `transformed data` behaves like precomputed local data.
pub open spec fn role_of(kind: BlockKind) -> Option<Role> {
    match kind {
        BlockKind::Data => Some(Role::Data),
        BlockKind::Parameters => Some(Role::Parameter),
        BlockKind::TransformedData => Some(Role::Local),
        BlockKind::TransformedParameters => Some(Role::TransformedParameter),
        BlockKind::GeneratedQuantities => Some(Role::GeneratedQuantity),
        BlockKind::Functions | BlockKind::Model | BlockKind::Library => None,
    }
}

/// The role of the names that a block of kind `kind` declares.
pub fn role_for_block(kind: BlockKind) -> (r: Option<Role>)
    ensures
        r == role_of(kind),
{
    match kind {
        BlockKind::Data => Some(Role::Data),
        BlockKind::Parameters => Some(Role::Parameter),
        BlockKind::TransformedData => Some(Role::Local),
        BlockKind::TransformedParameters => Some(Role::TransformedParameter),
        BlockKind::GeneratedQuantities => Some(Role::GeneratedQuantity),
        BlockKind::Functions | BlockKind::Model | BlockKind::Library => None,
    }
}

// ---------------------------------------------------------------------------
// Symbol tables
// ---------------------------------------------------------------------------

/// The declared names of a file and their roles, in the order of their first
/// declarations.
pub struct SymbolTable {
    entries: Vec<(String, Role)>,
}

impl View for SymbolTable {
    type V = Seq<(Seq<char>, Role)>;

    closed spec fn view(&self) -> Seq<(Seq<char>, Role)> {
        Seq::new(self.entries@.len(), |i: int| (self.entries@[i].0@, self.entries@[i].1))
    }
}

/// The role of `name` among `symbols`.
pub open spec fn lookup(symbols: Seq<(Seq<char>, Role)>, name: Seq<char>) -> Option<Role>
    decreases symbols.len(),
{
    if symbols.len() == 0 {
        None
    } else {
        match lookup(symbols.drop_last(), name) {
            Some(role) => Some(role),
            None => if symbols.last().0 == name {
                Some(symbols.last().1)
            } else {
                None
            },
        }
    }
}

/// `symbols` with `name` declared once more: the first declaration stays.
pub open spec fn with_symbol(
    symbols: Seq<(Seq<char>, Role)>,
    name: Seq<char>,
    role: Role,
) -> Seq<(Seq<char>, Role)> {
    if lookup(symbols, name) is Some {
        symbols
    } else {
        symbols.push((name, role))
    }
}

impl SymbolTable {
    /// The table without any name.
    pub fn new() -> (r: SymbolTable)
        ensures
            r@ == Seq::<(Seq<char>, Role)>::empty(),
    {
        let r = SymbolTable { entries: Vec::new() };
        assert(r@ =~= Seq::<(Seq<char>, Role)>::empty());
        r
    }

    /// How many names there are.
    pub fn len(&self) -> (r: usize)
        ensures
            r == self@.len(),
    {
        self.entries.len()
    }

    /// The `i`-th name.
    pub fn name(&self, i: usize) -> (r: &str)
        requires
            i < self@.len(),
        ensures
            r@ == self@[i as int].0,
    {
        self.entries[i].0.as_str()
    }

    /// The role of `name`.
    pub fn get(&self, name: &str) -> (r: Option<&Role>)
        ensures
            r matches Some(role) ==> lookup(self@, name@) == Some(*role),
            r is None ==> lookup(self@, name@) is None,
    {
        let mut i: usize = 0;
        while i < self.entries.len()
            invariant
                i <= self.entries@.len(),
                lookup(self@.subrange(0, i as int), name@) is None,
            decreases self.entries.len() - i,
        {
            let ghost next = self@.subrange(0, i + 1);
            assert(next.drop_last() =~= self@.subrange(0, i as int));
            if str_eq(self.entries[i].0.as_str(), name) {
                proof {
                    lemma_lookup_prefix(self@, i + 1, name@);
                }
                return Some(&self.entries[i].1);
            }
            i += 1;
        }
        assert(self@.subrange(0, i as int) =~= self@);
        None
    }

    /// Whether `name` is declared.
    pub fn contains_key(&self, name: &str) -> (r: bool)
        ensures
            r == (lookup(self@, name@) is Some),
    {
        self.get(name).is_some()
    }

    /// Declare `name` in the role `role`, unless it is declared already.
    pub fn declare(&mut self, name: &str, role: Role)
        ensures
            final(self)@ == with_symbol(old(self)@, name@, role),
    {
        if !self.contains_key(name) {
            self.entries.push((name.to_owned(), role));
            assert(self@ =~= old(self)@.push((name@, role)));
        }
    }
}

proof fn lemma_lookup_prefix(symbols: Seq<(Seq<char>, Role)>, n: int, name: Seq<char>)
    requires
        0 <= n <= symbols.len(),
        lookup(symbols.subrange(0, n), name) is Some,
    ensures
        lookup(symbols, name) == lookup(symbols.subrange(0, n), name),
    decreases symbols.len() - n,
{
    if n == symbols.len() {
        assert(symbols.subrange(0, n) =~= symbols);
    } else {
        assert(symbols.subrange(0, n + 1).drop_last() =~= symbols.subrange(0, n));
        lemma_lookup_prefix(symbols, n + 1, name);
    }
}

/// A set of names, in the order in which they were added.
pub struct NameSet {
    names: Vec<String>,
}

impl View for NameSet {
    type V = Seq<Seq<char>>;

    closed spec fn view(&self) -> Seq<Seq<char>> {
        texts(self.names@)
    }
}

/// `names` with `name` added once more.
pub open spec fn with_name(names: Seq<Seq<char>>, name: Seq<char>) -> Seq<Seq<char>> {
    if names.contains(name) {
        names
    } else {
        names.push(name)
    }
}

/// `names` without repetitions, each name where it first occurs.
pub open spec fn distinct(names: Seq<Seq<char>>) -> Seq<Seq<char>>
    decreases names.len(),
{
    if names.len() == 0 {
        seq![]
    } else {
        with_name(distinct(names.drop_last()), names.last())
    }
}

impl NameSet {
    /// The set without any name.
    pub fn new() -> (r: NameSet)
        ensures
            r@ == Seq::<Seq<char>>::empty(),
    {
        let r = NameSet { names: Vec::new() };
        assert(r@ =~= Seq::<Seq<char>>::empty());
        r
    }

    /// How many names there are.
    pub fn len(&self) -> (r: usize)
        ensures
            r == self@.len(),
    {
        self.names.len()
    }

    /// Whether there is no name.
    pub fn is_empty(&self) -> (r: bool)
        ensures
            r == (self@.len() == 0),
    {
        self.names.len() == 0
    }

    /// The `i`-th name.
    pub fn name(&self, i: usize) -> (r: &str)
        requires
            i < self@.len(),
        ensures
            r@ == self@[i as int],
    {
        self.names[i].as_str()
    }

    /// Whether `name` is in the set.
    pub fn contains(&self, name: &str) -> (r: bool)
        ensures
            r == self@.contains(name@),
    {
        contains_name(&self.names, name)
    }

    /// Add `name`, unless it is in the set already.
    pub fn insert(&mut self, name: &str)
        ensures
            final(self)@ == with_name(old(self)@, name@),
    {
        if !self.contains(name) {
            self.names.push(name.to_owned());
            assert(self@ =~= old(self)@.push(name@));
        }
    }
}

/// A call `package::func` and where it stands.
#[derive(Debug)]
pub struct QualifiedCall {
    pub package: String,
    pub func: String,
    pub range: Range<usize>,
}

/// An `import` statement: the library's name and the version it is pinned to.
#[derive(Debug)]
pub struct ImportStatement {
    pub name: String,
    pub version: Option<String>,
}

/// What is known of a file.
pub struct Analysis {
    pub symbol_roles: SymbolTable,
    pub user_functions: NameSet,
    pub library_calls: Vec<QualifiedCall>,
    pub imports: Vec<ImportStatement>,
}

// ---------------------------------------------------------------------------
// Cutting blocks out of the text
// ---------------------------------------------------------------------------

/// The block lies inside the text, and the text can be cut at its braces.
pub open spec fn block_fits(bytes: Seq<u8>, block: Block) -> bool {
    &&& block.open_brace < block.close_brace < bytes.len()
    &&& on_boundary(bytes, block.open_brace as int)
    &&& on_boundary(bytes, block.open_brace + 1)
    &&& on_boundary(bytes, block.close_brace as int)
    &&& on_boundary(bytes, block.close_brace + 1)
}

/// All blocks lie inside the text, and it can be cut at their braces.
pub open spec fn blocks_fit(bytes: Seq<u8>, blocks: Seq<Block>) -> bool {
    forall|k: int| 0 <= k < blocks.len() ==> block_fits(bytes, #[trigger] blocks[k])
}

/// The blocks that the search finds fit their text.
pub proof fn law_found_blocks_fit(bytes: Seq<u8>, mask: &CodeMask)
    requires
        valid_utf8(bytes),
        mask.wf(bytes),
        bytes.len() <= usize::MAX,
    ensures
        blocks_fit(bytes, top_level_blocks(bytes, mask)),
{
    law_blocks_in_order(bytes, mask);
    let blocks = top_level_blocks(bytes, mask);
    assert forall|k: int| 0 <= k < blocks.len() implies block_fits(bytes, #[trigger] blocks[k]) by {
        lemma_after_ascii(bytes, blocks[k].open_brace as int);
        lemma_after_ascii(bytes, blocks[k].close_brace as int);
    }
}

/// The index of the first block of functions from `k` on.
pub open spec fn functions_block(blocks: Seq<Block>, k: int) -> Option<int>
    decreases blocks.len() - k,
{
    if k < 0 || k >= blocks.len() {
        None
    } else if blocks[k].kind == BlockKind::Functions {
        Some(k)
    } else {
        functions_block(blocks, k + 1)
    }
}

/// The body of the first `functions { }` block: a flat sequence of function
/// definitions, without the block's own braces.
pub fn functions_body<'a>(source: &'a str, blocks: &Vec<Block>) -> (r: Option<&'a str>)
    requires
        blocks_fit(encode_utf8(source@), blocks@),
    ensures
        match functions_block(blocks@, 0) {
            Some(k) => {
                &&& r is Some
                &&& r->0@ == text_between(
                    encode_utf8(source@),
                    blocks@[k].open_brace + 1,
                    blocks@[k].close_brace as int,
                )
            },
            None => r is None,
        },
{
    let mut k: usize = 0;
    while k < blocks.len()
        invariant
            k <= blocks@.len(),
            blocks_fit(encode_utf8(source@), blocks@),
            functions_block(blocks@, 0) == functions_block(blocks@, k as int),
        decreases blocks.len() - k,
    {
        let block = blocks[k];
        assert(block_fits(encode_utf8(source@), blocks@[k as int]));
        if block.kind == BlockKind::Functions {
            return Some(substring(source, block.open_brace + 1, block.close_brace));
        }
        k += 1;
    }
    None
}

/// Byte `k` belongs to the block, its keyword and its braces included.
pub open spec fn block_covers(bytes: Seq<u8>, block: Block, k: int) -> bool {
    keyword_start(bytes, block) <= k <= block.close_brace
}

/// Byte `k` belongs to one of the blocks.
pub open spec fn blocks_cover(bytes: Seq<u8>, blocks: Seq<Block>, k: int) -> bool {
    exists|j: int| 0 <= j < blocks.len() && block_covers(bytes, #[trigger] blocks[j], k)
}

/// The text with every byte of every block replaced by a space.
pub open spec fn blanked(bytes: Seq<u8>, blocks: Seq<Block>) -> Seq<u8> {
    Seq::new(
        bytes.len(),
        |k: int|
            if blocks_cover(bytes, blocks, k) {
                0x20u8
            } else {
                bytes[k]
            },
    )
}

/// The error of decoding bytes that are not UTF-8.
#[verifier::external_type_specification]
#[verifier::external_body]
pub struct ExFromUtf8Error(std::string::FromUtf8Error);

/// Decoding bytes: `String::from_utf8` succeeds on UTF-8 and on nothing else,
/// and the string it gives has the bytes that it was given.
pub assume_specification[ String::from_utf8 ](vec: Vec<u8>) -> (r: Result<
    String,
    std::string::FromUtf8Error,
>)
    ensures
        r is Ok <==> valid_utf8(vec@),
        r matches Ok(s) ==> encode_utf8(s@) == vec@,
;

/// Replacing what stands between two boundaries by spaces keeps the text
/// valid.
proof fn lemma_blank_range(bytes: Seq<u8>, next: Seq<u8>, start: int, end: int)
    requires
        valid_utf8(bytes),
        on_boundary(bytes, start),
        on_boundary(bytes, end),
        start <= end,
        next.len() == bytes.len(),
        forall|k: int|
            #![trigger next[k]]
            0 <= k < bytes.len() ==> next[k] == (if start <= k < end {
                0x20u8
            } else {
                bytes[k]
            }),
    ensures
        valid_utf8(next),
{
    let n = bytes.len() as int;
    let head = bytes.subrange(0, start);
    let tail = bytes.subrange(end, n);
    let spaces = next.subrange(start, end);
    lemma_boundary(bytes, 0);
    lemma_between_valid(bytes, 0, start);
    lemma_between_valid(bytes, end, n);
    assert(next.subrange(0, start) =~= head);
    assert(partial_valid_utf8(spaces, 0));
    assert forall|i: int| 0 <= 0 <= i < spaces.len() <= spaces.len() implies
        #[trigger] is_leading_byte_width_1(spaces[i]) by {
        assert(spaces[i] == next[start + i]);
    }
    partial_valid_utf8_extend_ascii_block(spaces, 0, spaces.len() as int);
    assert(spaces.subrange(0, spaces.len() as int) =~= spaces);
    valid_utf8_concat(head, spaces);
    valid_utf8_concat(head + spaces, tail);
    assert(next =~= head + spaces + tail);
}

/// `source` with every top-level block (its keyword, braces and body)
/// replaced by spaces, which leaves the text between the blocks. Offsets into
/// the result are offsets into `source`.
pub fn blank_out_blocks(source: &str, blocks: &Vec<Block>) -> (r: String)
    requires
        blocks_fit(encode_utf8(source@), blocks@),
    ensures
        encode_utf8(r@) == blanked(encode_utf8(source@), blocks@),
{
    let bytes = source.as_bytes();
    let length = bytes.len();
    let mut out: Vec<u8> = source.as_bytes_vec();
    proof {
        encode_utf8_valid_utf8(source@);
        assert(out@ =~= blanked(bytes@, blocks@.subrange(0, 0)));
    }
    let mut k: usize = 0;
    while k < blocks.len()
        invariant
            bytes@ == encode_utf8(source@),
            length == bytes@.len(),
            valid_utf8(bytes@),
            blocks_fit(bytes@, blocks@),
            k <= blocks@.len(),
            valid_utf8(out@),
            out@ == blanked(bytes@, blocks@.subrange(0, k as int)),
        decreases blocks.len() - k,
    {
        let block = blocks[k];
        assert(block_fits(bytes@, blocks@[k as int]));
        let start = find_keyword_start(source, &block);
        proof {
            lemma_keyword_start(bytes@, block);
        }
        let ghost before = out@;
        let mut i: usize = start;
        while i <= block.close_brace
            invariant
                before.len() == bytes@.len(),
                out@.len() == bytes@.len(),
                block.close_brace < length == bytes@.len(),
                start <= i <= block.close_brace + 1,
                forall|j: int|
                    #![trigger out@[j]]
                    0 <= j < out@.len() ==> out@[j] == (if start <= j < i {
                        0x20u8
                    } else {
                        before[j]
                    }),
            decreases block.close_brace + 1 - i,
        {
            out.set(i, 0x20u8);
            i += 1;
        }
        proof {
            let done = blocks@.subrange(0, k as int);
            let next = blocks@.subrange(0, k + 1);
            law_blanking_keeps_offsets(bytes@, done);
            lemma_blank_range(before, out@, start as int, block.close_brace + 1);
            assert forall|j: int| 0 <= j < bytes@.len() implies #[trigger] out@[j] == blanked(
                bytes@,
                next,
            )[j] by {
                if block_covers(bytes@, block, j) {
                    assert(next[k as int] == block);
                    assert(blocks_cover(bytes@, next, j));
                } else if blocks_cover(bytes@, done, j) {
                    let m = choose|m: int|
                        0 <= m < done.len() && block_covers(bytes@, #[trigger] done[m], j);
                    assert(next[m] == done[m]);
                    assert(blocks_cover(bytes@, next, j));
                } else if blocks_cover(bytes@, next, j) {
                    let m = choose|m: int|
                        0 <= m < next.len() && block_covers(bytes@, #[trigger] next[m], j);
                    if m < k {
                        assert(done[m] == next[m]);
                    }
                }
            }
            assert(out@ =~= blanked(bytes@, next));
        }
        k += 1;
    }
    assert(blocks@.subrange(0, k as int) =~= blocks@);
    String::from_utf8(out).unwrap()
}

/// Blanking keeps every offset where it was: the text has the same length, a
/// boundary stays a boundary, all that belongs to a block is a space, and what
/// belongs to none is unchanged.
pub proof fn law_blanking_keeps_offsets(bytes: Seq<u8>, blocks: Seq<Block>)
    ensures
        blanked(bytes, blocks).len() == bytes.len(),
        forall|k: int|
            on_boundary(bytes, k) ==> #[trigger] on_boundary(blanked(bytes, blocks), k),
        forall|k: int|
            0 <= k < bytes.len() ==> #[trigger] blanked(bytes, blocks)[k] == (if blocks_cover(
                bytes,
                blocks,
                k,
            ) {
                0x20u8
            } else {
                bytes[k]
            }),
{
}

// ---------------------------------------------------------------------------
// The analysis
// ---------------------------------------------------------------------------

/// `symbols` with all of `names` declared in the role `role`.
pub open spec fn with_symbols(
    symbols: Seq<(Seq<char>, Role)>,
    names: Seq<Seq<char>>,
    role: Role,
) -> Seq<(Seq<char>, Role)>
    decreases names.len(),
{
    if names.len() == 0 {
        symbols
    } else {
        with_symbol(with_symbols(symbols, names.drop_last(), role), names.last(), role)
    }
}

/// The body of a block: what stands between its braces.
pub open spec fn body_of(block: Block) -> Range<usize> {
    Range { start: (block.open_brace + 1) as usize, end: block.close_brace }
}

/// The names that the blocks declare, with their roles.
pub open spec fn symbols_of(bytes: Seq<u8>, mask: &CodeMask, blocks: Seq<Block>) -> Seq<
    (Seq<char>, Role),
>
    decreases blocks.len(),
{
    if blocks.len() == 0 {
        seq![]
    } else {
        let before = symbols_of(bytes, mask, blocks.drop_last());
        match role_of(blocks.last().kind) {
            Some(role) => with_symbols(
                before,
                body_declarations(bytes, mask, body_of(blocks.last())),
                role,
            ),
            None => before,
        }
    }
}

/// Analyze a file. The compiler has found in it:
/// - `wrapped_functions`: the functions defined in `functions_body`;
/// - `bare_functions`: those defined in the text of `blank_out_blocks`,
///   outside every block;
/// - `library_calls` and `imports`.
///
/// A name keeps the role of its first declaration.
pub fn analyze(
    source: &str,
    mask: &CodeMask,
    wrapped_functions: &Vec<String>,
    bare_functions: &Vec<String>,
    library_calls: Vec<QualifiedCall>,
    imports: Vec<ImportStatement>,
) -> (r: Analysis)
    requires
        mask.wf(encode_utf8(source@)),
    ensures
        r.symbol_roles@ == symbols_of(
            encode_utf8(source@),
            mask,
            top_level_blocks(encode_utf8(source@), mask),
        ),
        r.user_functions@ == distinct(texts(wrapped_functions@) + texts(bare_functions@)),
        r.library_calls == library_calls,
        r.imports == imports,
{
    let ghost bytes = encode_utf8(source@);
    let blocks = find_top_level_blocks(source, mask);
    let mut symbol_roles = SymbolTable::new();
    let mut k: usize = 0;
    while k < blocks.len()
        invariant
            bytes == encode_utf8(source@),
            mask.wf(bytes),
            k <= blocks@.len(),
            blocks_in_order(bytes, mask, blocks@, 0),
            symbol_roles@ == symbols_of(bytes, mask, blocks@.subrange(0, k as int)),
        decreases blocks.len() - k,
    {
        let block = blocks[k];
        proof {
            let next = blocks@.subrange(0, k + 1);
            assert(next.drop_last() =~= blocks@.subrange(0, k as int));
            assert(next.last() == block);
        }
        if let Some(role) = role_for_block(block.kind) {
            let names = scan_declarations(source, mask, block.open_brace + 1..block.close_brace);
            let ghost before = symbol_roles@;
            let ghost all = texts(names@);
            let mut n: usize = 0;
            assert(all.subrange(0, 0) =~= Seq::<Seq<char>>::empty());
            while n < names.len()
                invariant
                    n <= names@.len(),
                    all == texts(names@),
                    symbol_roles@ == with_symbols(before, all.subrange(0, n as int), role),
                decreases names.len() - n,
            {
                proof {
                    let next = all.subrange(0, n + 1);
                    assert(next.drop_last() =~= all.subrange(0, n as int));
                    assert(next.last() == names@[n as int]@);
                }
                symbol_roles.declare(names[n].as_str(), role);
                n += 1;
            }
            assert(all.subrange(0, n as int) =~= all);
        }
        k += 1;
    }
    assert(blocks@.subrange(0, k as int) =~= blocks@);

    let mut user_functions = NameSet::new();
    add_names(&mut user_functions, wrapped_functions, Ghost(Seq::empty()));
    add_names(&mut user_functions, bare_functions, Ghost(texts(wrapped_functions@)));
    assert(Seq::<Seq<char>>::empty() + texts(wrapped_functions@) =~= texts(wrapped_functions@));
    Analysis { symbol_roles, user_functions, library_calls, imports }
}

fn add_names(set: &mut NameSet, names: &Vec<String>, Ghost(before): Ghost<Seq<Seq<char>>>)
    requires
        old(set)@ == distinct(before),
    ensures
        final(set)@ == distinct(before + texts(names@)),
{
    let ghost all = texts(names@);
    let mut n: usize = 0;
    assert(before + all.subrange(0, 0) =~= before);
    while n < names.len()
        invariant
            n <= names@.len(),
            all == texts(names@),
            set@ == distinct(before + all.subrange(0, n as int)),
        decreases names.len() - n,
    {
        proof {
            let next = before + all.subrange(0, n + 1);
            assert(next.drop_last() =~= before + all.subrange(0, n as int));
            assert(next.last() == names@[n as int]@);
        }
        set.insert(names[n].as_str());
        n += 1;
    }
    assert(all.subrange(0, n as int) =~= all);
}

// ---------------------------------------------------------------------------
// Laws
// ---------------------------------------------------------------------------

/// The legend and the token types agree.
pub proof fn law_legend_in_sync()
    ensures
        TOKEN_TYPES@[Role::Data.legend_index() as int]@ == "laplaceData"@,
        TOKEN_TYPES@[Role::Parameter.legend_index() as int]@ == "laplaceParameter"@,
        TOKEN_TYPES@[Role::TransformedParameter.legend_index() as int]@
            == "laplaceTransformedParameter"@,
        TOKEN_TYPES@[Role::GeneratedQuantity.legend_index() as int]@ == "laplaceGeneratedQuantity"@,
        TOKEN_TYPES@[Role::Local.legend_index() as int]@ == "laplaceLocal"@,
        TOKEN_TYPES@[TOKEN_BUILTIN_FUNCTION as int]@ == "laplaceBuiltinFunction"@,
        TOKEN_TYPES@[TOKEN_LIBRARY_FUNCTION as int]@ == "laplaceLibraryFunction"@,
        TOKEN_TYPES@[TOKEN_USER_FUNCTION as int]@ == "laplaceUserFunction"@,
{
}

/// A block declares `name` in the role `role`.
pub open spec fn declares(
    bytes: Seq<u8>,
    mask: &CodeMask,
    block: Block,
    name: Seq<char>,
    role: Role,
) -> bool {
    &&& role_of(block.kind) == Some(role)
    &&& body_declarations(bytes, mask, body_of(block)).contains(name)
}

/// The first of the blocks that declares `name` in some role.
pub open spec fn declared_role(
    bytes: Seq<u8>,
    mask: &CodeMask,
    blocks: Seq<Block>,
    k: int,
    name: Seq<char>,
) -> Option<Role>
    decreases blocks.len() - k,
{
    if k < 0 || k >= blocks.len() {
        None
    } else {
        match role_of(blocks[k].kind) {
            Some(role) => if declares(bytes, mask, blocks[k], name, role) {
                Some(role)
            } else {
                declared_role(bytes, mask, blocks, k + 1, name)
            },
            None => declared_role(bytes, mask, blocks, k + 1, name),
        }
    }
}

proof fn lemma_with_symbols(
    symbols: Seq<(Seq<char>, Role)>,
    names: Seq<Seq<char>>,
    role: Role,
    name: Seq<char>,
)
    ensures
        lookup(with_symbols(symbols, names, role), name) == (match lookup(symbols, name) {
            Some(role) => Some(role),
            None => if names.contains(name) {
                Some(role)
            } else {
                None
            },
        }),
    decreases names.len(),
{
    if names.len() > 0 {
        let rest = names.drop_last();
        lemma_with_symbols(symbols, rest, role, name);
        let before = with_symbols(symbols, rest, role);
        if names.contains(name) {
            let j = names.index_of(name);
            if j < rest.len() {
                assert(rest[j] == name);
            }
        }
        if rest.contains(name) {
            let j = rest.index_of(name);
            assert(names[j] == name);
        }
        if lookup(before, names.last()) is None {
            let after = before.push((names.last(), role));
            assert(after.drop_last() =~= before);
            assert(names[names.len() - 1] == names.last());
        }
    }
}

proof fn lemma_declared_role_extend(
    bytes: Seq<u8>,
    mask: &CodeMask,
    blocks: Seq<Block>,
    k: int,
    name: Seq<char>,
)
    requires
        blocks.len() > 0,
        0 <= k < blocks.len(),
    ensures
        declared_role(bytes, mask, blocks, k, name) == (match declared_role(
            bytes,
            mask,
            blocks.drop_last(),
            k,
            name,
        ) {
            Some(role) => Some(role),
            None => match role_of(blocks.last().kind) {
                Some(role) => if declares(bytes, mask, blocks.last(), name, role) {
                    Some(role)
                } else {
                    None
                },
                None => None,
            },
        }),
    decreases blocks.len() - k,
{
    if k + 1 < blocks.len() {
        lemma_declared_role_extend(bytes, mask, blocks, k + 1, name);
        assert(blocks.drop_last()[k] == blocks[k]);
    } else {
        assert(declared_role(bytes, mask, blocks, k + 1, name) is None);
    }
}

/// A name has the role of the first block that declares it, and no role if no
/// block with a role declares it: what `model { }`, `functions { }` and
/// `library { }` contain declares nothing.
pub proof fn law_first_declaration_decides(
    bytes: Seq<u8>,
    mask: &CodeMask,
    blocks: Seq<Block>,
    name: Seq<char>,
)
    ensures
        lookup(symbols_of(bytes, mask, blocks), name) == declared_role(bytes, mask, blocks, 0, name),
    decreases blocks.len(),
{
    if blocks.len() > 0 {
        law_first_declaration_decides(bytes, mask, blocks.drop_last(), name);
        lemma_declared_role_extend(bytes, mask, blocks, 0, name);
        if let Some(role) = role_of(blocks.last().kind) {
            lemma_with_symbols(
                symbols_of(bytes, mask, blocks.drop_last()),
                body_declarations(bytes, mask, body_of(blocks.last())),
                role,
                name,
            );
        }
    }
}

/// The functions of a file are those that were handed in, each of them once.
pub proof fn law_distinct(names: Seq<Seq<char>>)
    ensures
        distinct(names).no_duplicates(),
        forall|name: Seq<char>| #[trigger]
            distinct(names).contains(name) <==> names.contains(name),
    decreases names.len(),
{
    if names.len() > 0 {
        let rest = names.drop_last();
        law_distinct(rest);
        let before = distinct(rest);
        let after = distinct(names);
        assert forall|name: Seq<char>| #[trigger] after.contains(name) <==> names.contains(
            name,
        ) by {
            if names.contains(name) {
                let j = names.index_of(name);
                if j < rest.len() {
                    assert(rest[j] == name);
                    assert(before.contains(name));
                    let m = before.index_of(name);
                    assert(after[m] == name);
                } else if before.contains(name) {
                    let m = before.index_of(name);
                    assert(after[m] == name);
                } else {
                    assert(after[before.len() as int] == name);
                }
            }
            if after.contains(name) {
                let m = after.index_of(name);
                if m < before.len() {
                    assert(before[m] == name);
                    assert(before.contains(name));
                    let j = rest.index_of(name);
                    assert(names[j] == name);
                } else {
                    assert(names[names.len() - 1] == name);
                }
            }
        }
    }
}

/// The role of a name is that of the first entry of the table with that name;
/// a name without an entry has none.
pub proof fn law_lookup(symbols: Seq<(Seq<char>, Role)>, name: Seq<char>)
    ensures
        match lookup(symbols, name) {
            Some(role) => exists|k: int|
                {
                    &&& 0 <= k < symbols.len()
                    &&& #[trigger] symbols[k] == (name, role)
                    &&& forall|j: int| 0 <= j < k ==> (#[trigger] symbols[j]).0 != name
                },
            None => forall|j: int| 0 <= j < symbols.len() ==> (#[trigger] symbols[j]).0 != name,
        },
    decreases symbols.len(),
{
    if symbols.len() > 0 {
        let rest = symbols.drop_last();
        law_lookup(rest, name);
        assert forall|j: int| 0 <= j < rest.len() implies #[trigger] symbols[j] == rest[j] by {}
        if let Some(role) = lookup(rest, name) {
            let k = choose|k: int|
                {
                    &&& 0 <= k < rest.len()
                    &&& #[trigger] rest[k] == (name, role)
                    &&& forall|j: int| 0 <= j < k ==> (#[trigger] rest[j]).0 != name
                };
            assert(symbols[k] == (name, role));
        } else if symbols.last().0 == name {
            assert(symbols[symbols.len() - 1] == (name, symbols.last().1));
        }
    }
}

/// The kind of block gives the names that it declares this role.
pub open spec fn gives_role(kind: BlockKind, role: Role) -> bool {
    ||| kind == BlockKind::Data && role == Role::Data
    ||| kind == BlockKind::Parameters && role == Role::Parameter
    ||| kind == BlockKind::TransformedData && role == Role::Local
    ||| kind == BlockKind::TransformedParameters && role == Role::TransformedParameter
    ||| kind == BlockKind::GeneratedQuantities && role == Role::GeneratedQuantity
}

/// One of the statements between the braces of the block declares `name`, and
/// the block is of a kind that gives its names a role.
pub open spec fn block_declares(
    bytes: Seq<u8>,
    mask: &CodeMask,
    block: Block,
    name: Seq<char>,
) -> bool {
    let body = Range { start: (block.open_brace + 1) as usize, end: block.close_brace };
    let statements = top_level_statements(bytes, mask, body);
    &&& block.kind != BlockKind::Functions
    &&& block.kind != BlockKind::Model
    &&& block.kind != BlockKind::Library
    &&& exists|s: int|
        0 <= s < statements.len() && declared(visible(bytes, mask, #[trigger] statements[s]))
            == Some(name)
}

/// A name has the role that the first block that declares it gives, and none
/// if no block declares it.
pub proof fn law_role_of_a_name(
    bytes: Seq<u8>,
    mask: &CodeMask,
    blocks: Seq<Block>,
    name: Seq<char>,
)
    ensures
        match lookup(symbols_of(bytes, mask, blocks), name) {
            Some(role) => exists|k: int|
                {
                    &&& 0 <= k < blocks.len()
                    &&& block_declares(bytes, mask, #[trigger] blocks[k], name)
                    &&& gives_role(blocks[k].kind, role)
                    &&& forall|j: int|
                        0 <= j < k ==> !block_declares(bytes, mask, #[trigger] blocks[j], name)
                },
            None => forall|k: int|
                0 <= k < blocks.len() ==> !block_declares(bytes, mask, #[trigger] blocks[k], name),
        },
{
    law_first_declaration_decides(bytes, mask, blocks, name);
    lemma_declared_role(bytes, mask, blocks, 0, name);
}

proof fn lemma_declared_role(
    bytes: Seq<u8>,
    mask: &CodeMask,
    blocks: Seq<Block>,
    from: int,
    name: Seq<char>,
)
    requires
        0 <= from,
    ensures
        match declared_role(bytes, mask, blocks, from, name) {
            Some(role) => exists|k: int|
                {
                    &&& from <= k < blocks.len()
                    &&& block_declares(bytes, mask, #[trigger] blocks[k], name)
                    &&& gives_role(blocks[k].kind, role)
                    &&& forall|j: int|
                        from <= j < k ==> !block_declares(bytes, mask, #[trigger] blocks[j], name)
                },
            None => forall|k: int|
                from <= k < blocks.len() ==> !block_declares(
                    bytes,
                    mask,
                    #[trigger] blocks[k],
                    name,
                ),
        },
    decreases blocks.len() - from,
{
    if from < blocks.len() {
        let block = blocks[from];
        lemma_declared_role(bytes, mask, blocks, from + 1, name);
        lemma_declared_by_some(
            bytes,
            mask,
            top_level_statements(bytes, mask, body_of(block)),
            name,
        );
        if !block_declares(bytes, mask, block, name) {
            if let Some(role) = declared_role(bytes, mask, blocks, from + 1, name) {
                let k = choose|k: int|
                    {
                        &&& from + 1 <= k < blocks.len()
                        &&& block_declares(bytes, mask, #[trigger] blocks[k], name)
                        &&& gives_role(blocks[k].kind, role)
                        &&& forall|j: int|
                            from + 1 <= j < k ==> !block_declares(
                                bytes,
                                mask,
                                #[trigger] blocks[j],
                                name,
                            )
                    };
                assert(declared_role(bytes, mask, blocks, from, name) == Some(role));
                assert(block_declares(bytes, mask, blocks[k], name));
            }
        } else {
            assert(block_declares(bytes, mask, blocks[from], name));
        }
    }
}

/// No name is in the table twice.
pub proof fn law_names_are_listed_once(bytes: Seq<u8>, mask: &CodeMask, blocks: Seq<Block>)
    ensures
        ({
            let symbols = symbols_of(bytes, mask, blocks);
            forall|j: int, k: int|
                #![trigger symbols[j], symbols[k]]
                0 <= j < k < symbols.len() ==> symbols[j].0 != symbols[k].0
        }),
    decreases blocks.len(),
{
    if blocks.len() > 0 {
        law_names_are_listed_once(bytes, mask, blocks.drop_last());
        if let Some(role) = role_of(blocks.last().kind) {
            lemma_listed_once(
                symbols_of(bytes, mask, blocks.drop_last()),
                body_declarations(bytes, mask, body_of(blocks.last())),
                role,
            );
        }
    }
}

proof fn lemma_listed_once(
    symbols: Seq<(Seq<char>, Role)>,
    names: Seq<Seq<char>>,
    role: Role,
)
    requires
        forall|j: int, k: int|
            #![trigger symbols[j], symbols[k]]
            0 <= j < k < symbols.len() ==> symbols[j].0 != symbols[k].0,
    ensures
        ({
            let after = with_symbols(symbols, names, role);
            forall|j: int, k: int|
                #![trigger after[j], after[k]]
                0 <= j < k < after.len() ==> after[j].0 != after[k].0
        }),
    decreases names.len(),
{
    if names.len() > 0 {
        let before = with_symbols(symbols, names.drop_last(), role);
        lemma_listed_once(symbols, names.drop_last(), role);
        law_lookup(before, names.last());
        let after = with_symbols(symbols, names, role);
        assert forall|j: int, k: int|
            #![trigger after[j], after[k]]
            0 <= j < k < after.len() implies after[j].0 != after[k].0 by {
            assert(after[j] == before[j]);
            if k < before.len() {
                assert(after[k] == before[k]);
            }
        }
    }
}

/// The functions of a file are taken from the first `functions { }` block; a
/// file without such a block has none there.
pub proof fn law_first_functions_block(blocks: Seq<Block>)
    ensures
        match functions_block(blocks, 0) {
            Some(k) => {
                &&& 0 <= k < blocks.len()
                &&& blocks[k].kind == BlockKind::Functions
                &&& forall|j: int|
                    0 <= j < k ==> (#[trigger] blocks[j]).kind != BlockKind::Functions
            },
            None => forall|j: int|
                0 <= j < blocks.len() ==> (#[trigger] blocks[j]).kind != BlockKind::Functions,
        },
{
    lemma_functions_block(blocks, 0);
}

proof fn lemma_functions_block(blocks: Seq<Block>, from: int)
    requires
        0 <= from,
    ensures
        match functions_block(blocks, from) {
            Some(k) => {
                &&& from <= k < blocks.len()
                &&& blocks[k].kind == BlockKind::Functions
                &&& forall|j: int|
                    from <= j < k ==> (#[trigger] blocks[j]).kind != BlockKind::Functions
            },
            None => forall|j: int|
                from <= j < blocks.len() ==> (#[trigger] blocks[j]).kind != BlockKind::Functions,
        },
    decreases blocks.len() - from,
{
    if from < blocks.len() {
        lemma_functions_block(blocks, from + 1);
    }
}

/// Blanking the blocks of a text leaves a space for every byte of a block,
/// from the first byte of its keyword, at `i`, to its closing brace.
pub proof fn law_whole_blocks_are_blanked(
    bytes: Seq<u8>,
    mask: &CodeMask,
    blocks: Seq<Block>,
    j: int,
    i: int,
    second: int,
    k: int,
)
    requires
        mask.wf(bytes),
        bytes.len() <= usize::MAX,
        0 <= j < blocks.len(),
        block_is_written(bytes, mask, i, second, blocks[j]),
        i <= k <= blocks[j].close_brace,
    ensures
        blanked(bytes, blocks).len() == bytes.len(),
        blanked(bytes, blocks)[k] == 0x20,
{
    law_every_block_is_found(bytes, mask, i, second, blocks[j]);
    assert(0 <= k < bytes.len());
    assert(block_covers(bytes, blocks[j], k));
}

/// Blanking leaves what lies outside every block as it is.
pub proof fn law_text_between_blocks_stays(bytes: Seq<u8>, blocks: Seq<Block>, k: int)
    requires
        0 <= k < bytes.len(),
        forall|j: int|
            0 <= j < blocks.len() ==> k < keyword_start(bytes, #[trigger] blocks[j]) || k
                > blocks[j].close_brace,
    ensures
        blanked(bytes, blocks)[k] == bytes[k],
{
}

/// Declaring a name gives it a role if it had none, and changes nothing else.
pub proof fn law_declaring(
    symbols: Seq<(Seq<char>, Role)>,
    name: Seq<char>,
    role: Role,
    other: Seq<char>,
)
    ensures
        lookup(symbols, name) is None ==> lookup(with_symbol(symbols, name, role), name) == Some(
            role,
        ),
        lookup(symbols, name) is Some ==> with_symbol(symbols, name, role) == symbols,
        other != name ==> lookup(with_symbol(symbols, name, role), other) == lookup(
            symbols,
            other,
        ),
{
    assert(symbols.push((name, role)).drop_last() =~= symbols);
}

} // verus!
