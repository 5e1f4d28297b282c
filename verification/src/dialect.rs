//! Which of the two source dialects a document is written in.
//!
//! `.laplace` is a project file: a whole program, with `library { }` and
//! `pkg::func` on top. `.laplacelib` is the library dialect: only function
//! definitions, bare at top level or inside an optional `functions { }`
//! wrapper, and an optional `library { }` block. The model-shaped blocks are
//! rejected there.
//!
//! Almost everything is the same in both. The places that differ are which
//! blocks are legal, which block keywords are completed, and how a program is
//! put together for `stanc` to check.

use crate::blocks::BlockKind;
use crate::declarations::string_view;
use crate::text::{lemma_after_ascii, str_eq, substring, text_between};
use tower_lsp::lsp_types::Url;
use vstd::prelude::*;
use vstd::string::*;
use vstd::utf8::*;

verus! {

/// The file extension of the library dialect.
pub const LAPLACELIB_EXTENSION: &'static str = "laplacelib";

/// A source dialect.
#[derive(Debug, Clone, Copy, PartialEq, Eq, Structural)]
pub enum Dialect {
    /// A `.laplace` project file.
    Laplace,
    /// A `.laplacelib` library file.
    Library,
}

// ---------------------------------------------------------------------------
// File extensions
// ---------------------------------------------------------------------------

/// The end of the last component in the first `n` bytes of a path: trailing
/// separators and trailing `.` components do not count.
pub open spec fn component_end(path: Seq<u8>, n: int) -> int
    decreases n,
{
    if n > 0 && path[n - 1] == 0x2f {
        component_end(path, n - 1)
    } else if n > 1 && path[n - 1] == 0x2e && path[n - 2] == 0x2f {
        component_end(path, n - 1)
    } else {
        n
    }
}

/// The start of the component that ends at `n`.
pub open spec fn component_start(path: Seq<u8>, n: int) -> int
    decreases n,
{
    if n <= 0 || path[n - 1] == 0x2f {
        n
    } else {
        component_start(path, n - 1)
    }
}

/// The last `.` between `start` and `n`.
pub open spec fn last_dot(path: Seq<u8>, start: int, n: int) -> Option<int>
    decreases n - start,
{
    if n <= start {
        None
    } else if path[n - 1] == 0x2e {
        Some(n - 1)
    } else {
        last_dot(path, start, n - 1)
    }
}

/// Where the extension of the file at `path` stands: behind the last `.` of
/// its name. A name whose only `.` is its first byte has none, nor has `..`.
pub open spec fn extension_range(path: Seq<u8>) -> Option<(int, int)> {
    let end = component_end(path, path.len() as int);
    let start = component_start(path, end);
    match last_dot(path, start, end) {
        Some(dot) => if dot == start || path.subrange(start, end) == seq![0x2eu8, 0x2eu8] {
            None
        } else {
            Some((dot + 1, end))
        },
        None => None,
    }
}

/// The extension of the file at `path`.
pub open spec fn extension_of(path: Seq<char>) -> Option<Seq<char>> {
    match extension_range(encode_utf8(path)) {
        Some((start, end)) => Some(text_between(encode_utf8(path), start, end)),
        None => None,
    }
}

proof fn lemma_component_end(path: Seq<u8>, n: int)
    requires
        0 <= n <= path.len(),
        n < path.len() ==> path[n] <= 0x7f,
    ensures
        0 <= component_end(path, n) <= n,
        component_end(path, n) < path.len() ==> path[component_end(path, n)] <= 0x7f,
    decreases n,
{
    if n > 0 && path[n - 1] == 0x2f {
        lemma_component_end(path, n - 1);
    } else if n > 1 && path[n - 1] == 0x2e && path[n - 2] == 0x2f {
        lemma_component_end(path, n - 1);
    }
}

/// The extension of the file at `path`, a path whose components are separated
/// by `/`.
pub fn file_extension(path: &str) -> (r: Option<&str>)
    ensures
        match r {
            Some(extension) => extension_of(path@) == Some(extension@),
            None => extension_of(path@) is None,
        },
{
    let bytes = path.as_bytes();
    proof {
        encode_utf8_valid_utf8(path@);
        lemma_component_end(bytes@, bytes@.len() as int);
    }
    let mut end: usize = bytes.len();
    while end > 0 && (bytes[end - 1] == 0x2f || (end > 1 && bytes[end - 1] == 0x2e && bytes[end - 2]
        == 0x2f))
        invariant
            end <= bytes@.len(),
            component_end(bytes@, bytes@.len() as int) == component_end(bytes@, end as int),
        decreases end,
    {
        end -= 1;
    }
    assert(end == component_end(bytes@, bytes@.len() as int));
    let mut start: usize = end;
    while start > 0 && bytes[start - 1] != 0x2f
        invariant
            start <= end <= bytes@.len(),
            component_start(bytes@, end as int) == component_start(bytes@, start as int),
        decreases start,
    {
        start -= 1;
    }
    assert(start == component_start(bytes@, end as int));
    let mut dot: usize = end;
    while dot > start && bytes[dot - 1] != 0x2e
        invariant
            start <= dot <= end <= bytes@.len(),
            last_dot(bytes@, start as int, end as int) == last_dot(
                bytes@,
                start as int,
                dot as int,
            ),
        decreases dot - start,
    {
        dot -= 1;
    }
    if dot == start || dot == start + 1 {
        return None;
    }
    let ghost name = bytes@.subrange(start as int, end as int);
    if end - start == 2 && bytes[start] == 0x2e {
        assert(name =~= seq![0x2eu8, 0x2eu8]);
        return None;
    }
    proof {
        let parent = seq![0x2eu8, 0x2eu8];
        assert(name.len() == end - start);
        if name == parent {
            assert(name[0] == parent[0]);
            assert(name.len() == parent.len());
        }
        lemma_after_ascii(bytes@, dot - 1);
        if end < bytes@.len() {
            lemma_after_ascii(bytes@, end as int);
        }
    }
    Some(substring(path, dot, end))
}

// ---------------------------------------------------------------------------
// Dialects
// ---------------------------------------------------------------------------

/// The dialect of a file with this extension.
pub open spec fn dialect_of_extension(extension: Option<Seq<char>>) -> Dialect {
    if extension == Some("laplacelib"@) {
        Dialect::Library
    } else {
        Dialect::Laplace
    }
}

/// The dialect of the file at this path.
pub open spec fn dialect_of_path(path: Seq<char>) -> Dialect {
    dialect_of_extension(extension_of(path))
}

/// The file path that a document's URI stands for, if it stands for one.
pub uninterp spec fn uri_file_path(uri: Seq<char>) -> Option<Seq<char>>;

/// The path of the file that `uri` names, as `Url::to_file_path` gives it
/// once `Url::parse` has read `uri`: percent-encoded bytes are decoded, and
/// there is no path if `uri` cannot be parsed, if it has no hierarchical path,
/// or if its host is another one than `localhost`. The scheme is not looked
/// at. What does not decode to UTF-8 is replaced in the path. The contract
/// names the result, which is that of a Unix system, where `/` separates the
/// parts of a path; it does not say what it is.
#[verifier::external_body]
pub(crate) fn uri_to_file_path(uri: &str) -> (r: Option<String>)
    ensures
        string_view(r) == uri_file_path(uri@),
{
    match Url::parse(uri) {
        Ok(url) => match url.to_file_path() {
            Ok(path) => Some(path.to_string_lossy().into_owned()),
            Err(_) => None,
        },
        Err(_) => None,
    }
}

impl Dialect {
    /// The dialect of the file at `path`, by its extension. Whatever is not a
    /// `.laplacelib` file is taken for a project file.
    pub fn for_path(path: &str) -> (r: Dialect)
        ensures
            r == dialect_of_path(path@),
    {
        match file_extension(path) {
            Some(extension) => if str_eq(extension, LAPLACELIB_EXTENSION) {
                Dialect::Library
            } else {
                Dialect::Laplace
            },
            None => Dialect::Laplace,
        }
    }

    /// The dialect of a document by the path of its file, where it has one. A
    /// document that is not a file (an untitled buffer, say) is taken for a
    /// project file, which is the stricter of the two.
    pub fn for_file_path(path: &Option<String>) -> (r: Dialect)
        ensures
            r == (match string_view(*path) {
                Some(path) => dialect_of_path(path),
                None => Dialect::Laplace,
            }),
    {
        match path {
            Some(path) => Dialect::for_path(path.as_str()),
            None => Dialect::Laplace,
        }
    }

    /// The dialect of the document at `uri`.
    pub fn for_uri(uri: &str) -> (r: Dialect)
        ensures
            r == (match uri_file_path(uri@) {
                Some(path) => dialect_of_path(path),
                None => Dialect::Laplace,
            }),
    {
        Dialect::for_file_path(&uri_to_file_path(uri))
    }

    /// Whether this is the library dialect.
    pub fn is_library(self) -> (r: bool)
        ensures
            r == (self == Dialect::Library),
    {
        matches!(self, Dialect::Library)
    }

    /// A block of this kind is legal in this dialect: in a library only
    /// `functions { }` and `library { }` are.
    pub open spec fn permits(self, kind: BlockKind) -> bool {
        self == Dialect::Laplace || kind == BlockKind::Functions || kind == BlockKind::Library
    }

    /// Whether a block of kind `kind` is legal in this dialect.
    pub fn allows_block(self, kind: BlockKind) -> (r: bool)
        ensures
            r == self.permits(kind),
    {
        !self.is_library() || matches!(kind, BlockKind::Functions) || matches!(kind, BlockKind::Library)
    }
}

/// The extension of a path whose last component starts at `start` is what
/// stands behind its last `.`, at `dot`, unless that is its first byte or the
/// component is `..`.
pub proof fn law_extension(path: Seq<u8>, start: int, dot: int)
    requires
        0 <= start < dot < path.len(),
        start > 0 ==> path[start - 1] == 0x2f,
        forall|k: int| start <= k < path.len() ==> #[trigger] path[k] != 0x2f,
        path[dot] == 0x2e,
        forall|k: int| dot < k < path.len() ==> #[trigger] path[k] != 0x2e,
        !(path.len() == start + 2 && path[start] == 0x2e),
    ensures
        extension_range(path) == Some((dot + 1, path.len() as int)),
{
    let n = path.len() as int;
    assert(path[n - 1] != 0x2f);
    assert(path[n - 2] != 0x2f);
    lemma_component_start(path, start, n);
    lemma_last_dot(path, start, dot, n);
    let parent = seq![0x2eu8, 0x2eu8];
    if path.subrange(start, n) == parent {
        assert(path.subrange(start, n).len() == 2);
        assert(path.subrange(start, n)[0] == path[start]);
    }
}

/// A path has no extension if its last component, which starts at `start`, has
/// no `.` behind its first byte, or is `..`.
pub proof fn law_no_extension(path: Seq<u8>, start: int)
    requires
        0 <= start < path.len(),
        start > 0 ==> path[start - 1] == 0x2f,
        forall|k: int| start <= k < path.len() ==> #[trigger] path[k] != 0x2f,
        !(path.len() == start + 1 && path[start] == 0x2e),
        (forall|k: int| start < k < path.len() ==> #[trigger] path[k] != 0x2e) || path.subrange(
            start,
            path.len() as int,
        ) == seq![0x2eu8, 0x2eu8],
    ensures
        extension_range(path) is None,
{
    let n = path.len() as int;
    assert(path[n - 1] != 0x2f);
    if start < n - 1 {
        assert(path[n - 2] != 0x2f);
    }
    lemma_component_start(path, start, n);
    lemma_last_dot_found(path, start, n);
}

/// A `/` or a `/.` at the end of a path changes nothing about its extension,
/// and the empty path has none.
pub proof fn law_trailing_separators(path: Seq<u8>)
    ensures
        extension_range(path.push(0x2f)) == extension_range(path),
        extension_range(path.push(0x2f).push(0x2e)) == extension_range(path),
        extension_range(seq![]) is None,
{
    let n = path.len() as int;
    let a = path.push(0x2f);
    let b = a.push(0x2e);
    assert(component_end(a, n + 1) == component_end(a, n));
    assert(component_end(b, n + 2) == component_end(b, n + 1));
    assert(component_end(b, n + 1) == component_end(b, n));
    lemma_component_end_bounds(path, n);
    let end = component_end(path, n);
    lemma_same_path(path, a, n);
    lemma_same_path(path, b, n);
    lemma_same_path(path, a, end);
    lemma_same_path(path, b, end);
    lemma_component_start_bounds(path, end);
    let start = component_start(path, end);
    lemma_same_last_dot(path, a, start, end);
    lemma_same_last_dot(path, b, start, end);
    assert(path.subrange(start, end) =~= a.subrange(start, end));
    assert(path.subrange(start, end) =~= b.subrange(start, end));
}

proof fn lemma_component_end_bounds(path: Seq<u8>, n: int)
    requires
        0 <= n <= path.len(),
    ensures
        0 <= component_end(path, n) <= n,
    decreases n,
{
    if n > 0 && path[n - 1] == 0x2f {
        lemma_component_end_bounds(path, n - 1);
    } else if n > 1 && path[n - 1] == 0x2e && path[n - 2] == 0x2f {
        lemma_component_end_bounds(path, n - 1);
    }
}

proof fn lemma_component_start_bounds(path: Seq<u8>, n: int)
    requires
        0 <= n <= path.len(),
    ensures
        0 <= component_start(path, n) <= n,
    decreases n,
{
    if n > 0 && path[n - 1] != 0x2f {
        lemma_component_start_bounds(path, n - 1);
    }
}

proof fn lemma_same_path(a: Seq<u8>, b: Seq<u8>, n: int)
    requires
        0 <= n <= a.len(),
        n <= b.len(),
        forall|k: int| 0 <= k < n ==> #[trigger] a[k] == b[k],
    ensures
        component_end(a, n) == component_end(b, n),
        component_start(a, n) == component_start(b, n),
    decreases n,
{
    if n > 0 {
        assert(a[n - 1] == b[n - 1]);
        if n > 1 {
            assert(a[n - 2] == b[n - 2]);
        }
        lemma_same_path(a, b, n - 1);
    }
}

proof fn lemma_same_last_dot(a: Seq<u8>, b: Seq<u8>, start: int, n: int)
    requires
        0 <= start <= n <= a.len(),
        n <= b.len(),
        forall|k: int| 0 <= k < n ==> #[trigger] a[k] == b[k],
    ensures
        last_dot(a, start, n) == last_dot(b, start, n),
    decreases n - start,
{
    if n > start {
        assert(a[n - 1] == b[n - 1]);
        lemma_same_last_dot(a, b, start, n - 1);
    }
}

proof fn lemma_component_start(path: Seq<u8>, start: int, n: int)
    requires
        0 <= start <= n <= path.len(),
        start > 0 ==> path[start - 1] == 0x2f,
        forall|k: int| start <= k < n ==> #[trigger] path[k] != 0x2f,
    ensures
        component_start(path, n) == start,
    decreases n,
{
    if n > start {
        assert(path[n - 1] != 0x2f);
        lemma_component_start(path, start, n - 1);
    }
}

proof fn lemma_last_dot(path: Seq<u8>, start: int, dot: int, n: int)
    requires
        0 <= start <= dot < n <= path.len(),
        path[dot] == 0x2e,
        forall|k: int| dot < k < n ==> #[trigger] path[k] != 0x2e,
    ensures
        last_dot(path, start, n) == Some(dot),
    decreases n - dot,
{
    if n - 1 > dot {
        assert(path[n - 1] != 0x2e);
        lemma_last_dot(path, start, dot, n - 1);
    }
}

proof fn lemma_last_dot_found(path: Seq<u8>, start: int, n: int)
    requires
        0 <= start <= n <= path.len(),
    ensures
        last_dot(path, start, n) matches Some(dot) ==> start <= dot < n && path[dot] == 0x2e,
    decreases n - start,
{
    if n > start {
        lemma_last_dot_found(path, start, n - 1);
    }
}

/// The library dialect is that of the files with the extension `laplacelib`,
/// and of no others. In it only `functions { }` and `library { }` blocks are
/// legal; in the other one every block is.
pub proof fn law_dialects(path: Seq<char>, kind: BlockKind)
    ensures
        dialect_of_path(path) == Dialect::Library <==> extension_of(path) == Some("laplacelib"@),
        Dialect::Library.permits(kind) <==> kind == BlockKind::Functions || kind
            == BlockKind::Library,
        Dialect::Laplace.permits(kind),
{
}

/// The extension of a path is the text where it stands.
pub proof fn law_extension_text(path: Seq<char>)
    ensures
        match extension_range(encode_utf8(path)) {
            Some((start, end)) => extension_of(path) == Some(
                text_between(encode_utf8(path), start, end),
            ),
            None => extension_of(path) is None,
        },
{
}

} // verus!
