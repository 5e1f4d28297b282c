//! Finding a file's project and its installed packages: the nearest
//! `laplace.lock`, the source files of a package, and the place in them where
//! a function is defined.

use crate::dialect::{LAPLACELIB_EXTENSION, extension_of, file_extension};
use crate::text::{
    contains_name, is_ident_byte, is_ident_char, lemma_after_ascii, lemma_same_bytes, matches_at,
    occurs_at, offset_view, on_boundary, str_eq, texts,
};
use vstd::prelude::*;
use vstd::string::*;
use vstd::utf8::*;

verus! {

/// A place where a file may be, and whether there is one.
#[derive(Debug)]
pub struct FileCandidate {
    pub path: String,
    pub is_file: bool,
}

/// The first candidate, from the `k`-th on, that is a file.
pub open spec fn first_file(candidates: Seq<FileCandidate>, k: int) -> Option<int>
    decreases candidates.len() - k,
{
    if k < 0 || k >= candidates.len() {
        None
    } else if candidates[k].is_file {
        Some(k)
    } else {
        first_file(candidates, k + 1)
    }
}

/// The first of `candidates` that is a file.
pub fn find_first_file(candidates: &Vec<FileCandidate>) -> (r: Option<&str>)
    ensures
        match first_file(candidates@, 0) {
            Some(k) => r is Some && r->0@ == candidates@[k].path@,
            None => r is None,
        },
{
    let mut k: usize = 0;
    while k < candidates.len()
        invariant
            k <= candidates@.len(),
            first_file(candidates@, 0) == first_file(candidates@, k as int),
        decreases candidates.len() - k,
    {
        if candidates[k].is_file {
            return Some(candidates[k].path.as_str());
        }
        k += 1;
    }
    None
}

/// The lockfile of a project: the first of `candidates` that is a file. They
/// are `laplace.lock` in the directory of the document and in each directory
/// above it, the nearest first.
pub fn find_lockfile(candidates: &Vec<FileCandidate>) -> (r: Option<&str>)
    ensures
        match first_file(candidates@, 0) {
            Some(k) => r is Some && r->0@ == candidates@[k].path@,
            None => r is None,
        },
{
    find_first_file(candidates)
}

/// What is found is a file, and none of the candidates before it is; if
/// nothing is found, none of them is.
pub proof fn law_first_file(candidates: Seq<FileCandidate>)
    ensures
        match first_file(candidates, 0) {
            Some(k) => {
                &&& 0 <= k < candidates.len()
                &&& candidates[k].is_file
                &&& forall|j: int| 0 <= j < k ==> !(#[trigger] candidates[j]).is_file
            },
            None => forall|j: int| 0 <= j < candidates.len() ==> !(#[trigger] candidates[j]).is_file,
        },
{
    lemma_first_file(candidates, 0);
}

proof fn lemma_first_file(candidates: Seq<FileCandidate>, from: int)
    requires
        0 <= from,
    ensures
        match first_file(candidates, from) {
            Some(k) => {
                &&& from <= k < candidates.len()
                &&& candidates[k].is_file
                &&& forall|j: int| from <= j < k ==> !(#[trigger] candidates[j]).is_file
            },
            None => forall|j: int|
                from <= j < candidates.len() ==> !(#[trigger] candidates[j]).is_file,
        },
    decreases candidates.len() - from,
{
    if from < candidates.len() {
        lemma_first_file(candidates, from + 1);
    }
}

// ---------------------------------------------------------------------------
// Locked packages
// ---------------------------------------------------------------------------

/// A package that `laplace.lock` records.
#[derive(Debug)]
pub struct LockedPackage {
    pub name: String,
    pub version: String,
}

/// The packages that `laplace.lock` records.
#[derive(Debug)]
pub struct Lockfile {
    pub packages: Vec<LockedPackage>,
}

/// The first package called `name`, from the `k`-th on.
pub open spec fn locked_index(packages: Seq<LockedPackage>, name: Seq<char>, k: int) -> Option<int>
    decreases packages.len() - k,
{
    if k < 0 || k >= packages.len() {
        None
    } else if packages[k].name@ == name {
        Some(k)
    } else {
        locked_index(packages, name, k + 1)
    }
}

/// The index of the first locked package called `name`.
pub fn find_locked(lock: &Lockfile, name: &str) -> (r: Option<usize>)
    ensures
        offset_view(r) == locked_index(lock.packages@, name@, 0),
        r matches Some(k) ==> k < lock.packages@.len() && lock.packages@[k as int].name@ == name@,
{
    let mut k: usize = 0;
    while k < lock.packages.len()
        invariant
            k <= lock.packages@.len(),
            locked_index(lock.packages@, name@, 0) == locked_index(
                lock.packages@,
                name@,
                k as int,
            ),
        decreases lock.packages.len() - k,
    {
        if str_eq(lock.packages[k].name.as_str(), name) {
            return Some(k);
        }
        k += 1;
    }
    None
}

/// A package is found exactly if it is locked, and it is the first one of its
/// name.
pub proof fn law_locked_index(packages: Seq<LockedPackage>, name: Seq<char>, from: int)
    requires
        0 <= from,
    ensures
        match locked_index(packages, name, from) {
            Some(k) => {
                &&& from <= k < packages.len()
                &&& packages[k].name@ == name
                &&& forall|j: int| from <= j < k ==> (#[trigger] packages[j]).name@ != name
            },
            None => forall|j: int|
                from <= j < packages.len() ==> (#[trigger] packages[j]).name@ != name,
        },
    decreases packages.len() - from,
{
    if from < packages.len() {
        law_locked_index(packages, name, from + 1);
    }
}

// ---------------------------------------------------------------------------
// The order of names
// ---------------------------------------------------------------------------

/// The lexicographic order of byte strings, from offset `k` on.
pub open spec fn bytes_le_from(a: Seq<u8>, b: Seq<u8>, k: int) -> bool
    decreases a.len() - k,
{
    if k >= a.len() {
        true
    } else if k >= b.len() {
        false
    } else if a[k] != b[k] {
        a[k] < b[k]
    } else {
        bytes_le_from(a, b, k + 1)
    }
}

/// The order of file names: the lexicographic order of their bytes.
pub open spec fn name_le(a: Seq<char>, b: Seq<char>) -> bool {
    bytes_le_from(encode_utf8(a), encode_utf8(b), 0)
}

/// Whether `a` stands before `b` or equals it in the order of file names.
pub fn name_may_precede(a: &str, b: &str) -> (r: bool)
    ensures
        r == name_le(a@, b@),
{
    let x = a.as_bytes();
    let y = b.as_bytes();
    let mut k: usize = 0;
    while k < x.len()
        invariant
            x@ == encode_utf8(a@),
            y@ == encode_utf8(b@),
            k <= x@.len(),
            name_le(a@, b@) == bytes_le_from(x@, y@, k as int),
        decreases x.len() - k,
    {
        if k >= y.len() {
            return false;
        }
        if x[k] != y[k] {
            return x[k] < y[k];
        }
        k += 1;
    }
    true
}

proof fn lemma_bytes_le_total(a: Seq<u8>, b: Seq<u8>, k: int)
    requires
        0 <= k,
    ensures
        bytes_le_from(a, b, k) || bytes_le_from(b, a, k),
    decreases a.len() - k,
{
    if k < a.len() && k < b.len() && a[k] == b[k] {
        lemma_bytes_le_total(a, b, k + 1);
    }
}

proof fn lemma_bytes_le_trans(a: Seq<u8>, b: Seq<u8>, c: Seq<u8>, k: int)
    requires
        0 <= k,
        bytes_le_from(a, b, k),
        bytes_le_from(b, c, k),
    ensures
        bytes_le_from(a, c, k),
    decreases a.len() - k,
{
    if k < a.len() && k < b.len() && k < c.len() && a[k] == b[k] && b[k] == c[k] {
        lemma_bytes_le_trans(a, b, c, k + 1);
    }
}

/// The order of names is total and transitive.
pub proof fn law_name_order(a: Seq<char>, b: Seq<char>, c: Seq<char>)
    ensures
        name_le(a, a),
        name_le(a, b) || name_le(b, a),
        name_le(a, b) && name_le(b, c) ==> name_le(a, c),
{
    lemma_bytes_le_total(encode_utf8(a), encode_utf8(a), 0);
    lemma_bytes_le_total(encode_utf8(a), encode_utf8(b), 0);
    if name_le(a, b) && name_le(b, c) {
        lemma_bytes_le_trans(encode_utf8(a), encode_utf8(b), encode_utf8(c), 0);
    }
}

/// Where `name` goes among the sorted `names`, searched from `k` on: before
/// the first one that it may stand before.
pub open spec fn name_position(names: Seq<Seq<char>>, name: Seq<char>, k: int) -> int
    decreases names.len() - k,
{
    if k < 0 || k >= names.len() || name_le(name, names[k]) {
        k
    } else {
        name_position(names, name, k + 1)
    }
}

/// The names in their order.
pub open spec fn sorted_names(names: Seq<Seq<char>>) -> Seq<Seq<char>>
    decreases names.len(),
{
    if names.len() == 0 {
        seq![]
    } else {
        let before = sorted_names(names.drop_last());
        before.insert(name_position(before, names.last(), 0), names.last())
    }
}

proof fn lemma_name_position(names: Seq<Seq<char>>, name: Seq<char>, k: int)
    requires
        0 <= k <= names.len(),
    ensures
        k <= name_position(names, name, k) <= names.len(),
        name_position(names, name, k) < names.len() ==> name_le(
            name,
            names[name_position(names, name, k)],
        ),
        forall|j: int|
            k <= j < name_position(names, name, k) ==> !name_le(name, #[trigger] names[j]),
    decreases names.len() - k,
{
    if k < names.len() && !name_le(name, names[k]) {
        lemma_name_position(names, name, k + 1);
    }
}

/// Sorting puts the names in order and loses none.
pub proof fn law_names_sorted(names: Seq<Seq<char>>)
    ensures
        sorted_names(names).len() == names.len(),
        sorted_names(names).to_multiset() == names.to_multiset(),
        forall|i: int, j: int|
            #![trigger sorted_names(names)[i], sorted_names(names)[j]]
            0 <= i < j < names.len() ==> name_le(sorted_names(names)[i], sorted_names(names)[j]),
    decreases names.len(),
{
    if names.len() > 0 {
        let rest = names.drop_last();
        let x = names.last();
        law_names_sorted(rest);
        let before = sorted_names(rest);
        lemma_name_position(before, x, 0);
        let p = name_position(before, x, 0);
        let after = sorted_names(names);
        assert forall|i: int, j: int|
            #![trigger after[i], after[j]]
            0 <= i < j < names.len() implies name_le(after[i], after[j]) by {
            if i < p {
                assert(after[i] == before[i]);
                lemma_bytes_le_total(encode_utf8(x), encode_utf8(before[i]), 0);
            } else if i > p {
                assert(after[i] == before[i - 1]);
            }
            if j < p {
                assert(after[j] == before[j]);
            } else if j > p {
                assert(after[j] == before[j - 1]);
            }
            if i == p {
                assert(name_le(x, before[p]));
                if j - 1 > p {
                    assert(name_le(before[p], before[j - 1]));
                    lemma_bytes_le_trans(
                        encode_utf8(x),
                        encode_utf8(before[p]),
                        encode_utf8(before[j - 1]),
                        0,
                    );
                }
            }
        }
        vstd::seq_lib::to_multiset_insert(before, p, x);
        assert(names =~= rest.push(x));
        vstd::seq_lib::to_multiset_build(rest, x);
    } else {
        assert(sorted_names(names) =~= names);
    }
}

// ---------------------------------------------------------------------------
// Package sources
// ---------------------------------------------------------------------------

/// A file with this name holds source of a package.
pub open spec fn is_package_source(name: Seq<char>) -> bool {
    extension_of(name) == Some("stan"@) || extension_of(name) == Some("laplacelib"@)
}

/// The names of package sources among `names`, in the order they come in.
pub open spec fn package_source_names(names: Seq<Seq<char>>) -> Seq<Seq<char>>
    decreases names.len(),
{
    if names.len() == 0 {
        seq![]
    } else {
        let before = package_source_names(names.drop_last());
        if is_package_source(names.last()) {
            before.push(names.last())
        } else {
            before
        }
    }
}

/// The source files of a package: those files of its directory that are
/// `.stan` or `.laplacelib` files, in the order of their names.
pub fn package_sources(names: &Vec<String>) -> (r: Vec<String>)
    ensures
        texts(r@) == sorted_names(package_source_names(texts(names@))),
{
    let ghost all = texts(names@);
    let mut out: Vec<String> = Vec::new();
    let mut k: usize = 0;
    assert(all.subrange(0, 0) =~= Seq::<Seq<char>>::empty());
    assert(texts(out@) =~= Seq::<Seq<char>>::empty());
    while k < names.len()
        invariant
            all == texts(names@),
            k <= names@.len(),
            texts(out@) == sorted_names(package_source_names(all.subrange(0, k as int))),
        decreases names.len() - k,
    {
        let name = names[k].as_str();
        proof {
            let next = all.subrange(0, k + 1);
            assert(next.drop_last() =~= all.subrange(0, k as int));
            assert(next.last() == name@);
        }
        let is_source = match file_extension(name) {
            Some(extension) => str_eq(extension, "stan") || str_eq(extension, LAPLACELIB_EXTENSION),
            None => false,
        };
        if is_source {
            let mut p: usize = 0;
            while p < out.len() && !name_may_precede(name, out[p].as_str())
                invariant
                    p <= out@.len(),
                    name_position(texts(out@), name@, 0) == name_position(
                        texts(out@),
                        name@,
                        p as int,
                    ),
                decreases out.len() - p,
            {
                p += 1;
            }
            let ghost before = out@;
            let ghost found = package_source_names(all.subrange(0, k as int));
            out.insert(p, name.to_owned());
            assert(found.push(name@).drop_last() =~= found);
            assert(texts(out@) =~= texts(before).insert(p as int, name@));
        }
        k += 1;
    }
    assert(all.subrange(0, k as int) =~= all);
    out
}

/// A source file of a package: its name, its text if it could be read, and
/// the functions that the compiler finds defined in it at top level. A
/// `.laplacelib` file that the compiler rejects has none.
#[derive(Debug)]
pub struct PackageFile {
    pub name: String,
    pub source: Option<String>,
    pub functions: Option<Vec<String>>,
}

/// The file defines the function `func`.
pub open spec fn file_defines(functions: Option<Vec<String>>, func: Seq<char>) -> bool {
    match functions {
        Some(names) => texts(names@).contains(func),
        None => false,
    }
}

/// Whether a file in which the compiler finds `functions` defines `func`.
pub fn defines_function(functions: &Option<Vec<String>>, func: &str) -> (r: bool)
    ensures
        r == file_defines(*functions, func@),
{
    match functions {
        Some(names) => contains_name(names, func),
        None => false,
    }
}

/// `name(` stands at `i`, and not as the end of a longer name.
pub open spec fn header_at(bytes: Seq<u8>, name: Seq<u8>, i: int) -> bool {
    &&& occurs_at(bytes, name, i)
    &&& i == 0 || !is_ident_byte(bytes[i - 1])
    &&& i + name.len() < bytes.len()
    &&& bytes[i + name.len()] == 0x28
}

/// The first `name(` from `i` on.
pub open spec fn header_offset(bytes: Seq<u8>, name: Seq<u8>, i: int) -> Option<int>
    decreases bytes.len() + 1 - i,
{
    if i < 0 || i + name.len() > bytes.len() {
        None
    } else if header_at(bytes, name, i) {
        Some(i)
    } else {
        header_offset(bytes, name, i + 1)
    }
}

/// The text can be cut around a header.
pub proof fn lemma_header_boundaries(bytes: Seq<u8>, name: Seq<u8>, i: int)
    requires
        valid_utf8(bytes),
        valid_utf8(name),
        header_at(bytes, name, i),
    ensures
        on_boundary(bytes, i),
        on_boundary(bytes, i + name.len()),
{
    lemma_after_ascii(bytes, i + name.len());
    if name.len() > 0 {
        assert(bytes.subrange(i, i + name.len())[0] == bytes[i]);
        assert(valid_first_scalar(name));
    }
}

/// Where `name(` first stands in `source` as a whole word.
pub fn find_function_header_offset(source: &str, name: &str) -> (r: Option<usize>)
    ensures
        offset_view(r) == header_offset(encode_utf8(source@), encode_utf8(name@), 0),
        r matches Some(i) ==> header_at(encode_utf8(source@), encode_utf8(name@), i as int),
{
    let bytes = source.as_bytes();
    let length = bytes.len();
    let name_bytes = name.as_bytes();
    let mut i: usize = 0;
    while i <= length && length - i >= name_bytes.len()
        invariant
            bytes@ == encode_utf8(source@),
            name_bytes@ == encode_utf8(name@),
            length == bytes@.len(),
            i <= length + 1,
            header_offset(bytes@, name_bytes@, 0) == header_offset(bytes@, name_bytes@, i as int),
        decreases length + 1 - i,
    {
        if matches_at(bytes, i, name_bytes) {
            let before_ok = i == 0 || !is_ident_char(bytes[i - 1]);
            let end = i + name_bytes.len();
            if before_ok && end < length && bytes[end] == 0x28 {
                return Some(i);
            }
        }
        if i == length {
            assert(header_offset(bytes@, name_bytes@, i + 1) is None);
            return None;
        }
        i += 1;
    }
    None
}

/// Where `func` is defined, in the files from the `k`-th on: the first file
/// that defines it and in which its header is found, and the header's offset.
pub open spec fn definition_from(files: Seq<PackageFile>, func: Seq<char>, k: int) -> Option<
    (int, int),
>
    decreases files.len() - k,
{
    if k < 0 || k >= files.len() {
        None
    } else {
        let header = match files[k].source {
            Some(source) => if file_defines(files[k].functions, func) {
                header_offset(encode_utf8(source@), encode_utf8(func), 0)
            } else {
                None
            },
            None => None,
        };
        match header {
            Some(offset) => Some((k, offset)),
            None => definition_from(files, func, k + 1),
        }
    }
}

/// The file defines `func`, and a header of it stands at `offset`.
pub open spec fn defined_at(file: PackageFile, func: Seq<char>, offset: int) -> bool {
    &&& file_defines(file.functions, func)
    &&& file.source matches Some(source) && header_at(
        encode_utf8(source@),
        encode_utf8(func),
        offset,
    )
}

/// A definition is looked up in the first file that has one: what is found is
/// a header of the function in a file that defines it, and neither an earlier
/// file nor an earlier place in the same file has one.
pub proof fn law_definition_is_the_first(files: Seq<PackageFile>, func: Seq<char>)
    ensures
        match definition_from(files, func, 0) {
            Some((k, offset)) => {
                &&& 0 <= k < files.len()
                &&& defined_at(files[k], func, offset)
                &&& forall|j: int, o: int|
                    0 <= j < files.len() && 0 <= o && #[trigger] defined_at(files[j], func, o)
                        ==> k < j || (k == j && offset <= o)
            },
            None => forall|j: int, o: int|
                0 <= j < files.len() && 0 <= o ==> !#[trigger] defined_at(files[j], func, o),
        },
{
    lemma_definition_from(files, func, 0);
}

proof fn lemma_definition_from(files: Seq<PackageFile>, func: Seq<char>, from: int)
    requires
        0 <= from,
    ensures
        match definition_from(files, func, from) {
            Some((k, offset)) => {
                &&& from <= k < files.len()
                &&& defined_at(files[k], func, offset)
                &&& forall|j: int, o: int|
                    from <= j < files.len() && 0 <= o && #[trigger] defined_at(files[j], func, o)
                        ==> k < j || (k == j && offset <= o)
            },
            None => forall|j: int, o: int|
                from <= j < files.len() && 0 <= o ==> !#[trigger] defined_at(files[j], func, o),
        },
    decreases files.len() - from,
{
    if from < files.len() {
        lemma_definition_from(files, func, from + 1);
        if let Some(source) = files[from].source {
            lemma_header_offset(encode_utf8(source@), encode_utf8(func), 0);
        }
    }
}

proof fn lemma_header_offset(bytes: Seq<u8>, name: Seq<u8>, from: int)
    requires
        0 <= from,
    ensures
        match header_offset(bytes, name, from) {
            Some(i) => {
                &&& from <= i
                &&& header_at(bytes, name, i)
                &&& forall|j: int| from <= j < i ==> !#[trigger] header_at(bytes, name, j)
            },
            None => forall|j: int| from <= j ==> !#[trigger] header_at(bytes, name, j),
        },
    decreases bytes.len() + 1 - from,
{
    if from + name.len() <= bytes.len() && !header_at(bytes, name, from) {
        lemma_header_offset(bytes, name, from + 1);
    }
}

/// Where `func` is defined among the source files of a package: the index of
/// the file and the offset of the function's header in it. Files that could
/// not be read are passed over.
pub fn find_function_definition(files: &Vec<PackageFile>, func: &str) -> (r: Option<(usize, usize)>)
    ensures
        match r {
            Some((k, offset)) => {
                &&& definition_from(files@, func@, 0) == Some((k as int, offset as int))
                &&& k < files@.len()
                &&& defined_at(files@[k as int], func@, offset as int)
            },
            None => definition_from(files@, func@, 0) is None,
        },
{
    let mut k: usize = 0;
    while k < files.len()
        invariant
            k <= files@.len(),
            definition_from(files@, func@, 0) == definition_from(files@, func@, k as int),
        decreases files.len() - k,
    {
        if let Some(source) = &files[k].source {
            if defines_function(&files[k].functions, func) {
                if let Some(offset) = find_function_header_offset(source.as_str(), func) {
                    return Some((k, offset));
                }
            }
        }
        k += 1;
    }
    None
}

/// The bytes `name`, then `(`, stand at `i`, and no identifier byte stands
/// before them.
pub open spec fn header_is_written(bytes: Seq<u8>, name: Seq<u8>, i: int) -> bool {
    &&& 0 <= i
    &&& i + name.len() < bytes.len()
    &&& forall|j: int| 0 <= j < name.len() ==> #[trigger] name[j] == bytes[i + j]
    &&& i == 0 || !is_ident_byte(bytes[i - 1])
    &&& bytes[i + name.len()] == 0x28
}

/// The text of the file could be read, the compiler found `func` among the
/// functions that it defines, and a header of it stands at `offset`.
pub open spec fn definition_is_written(file: PackageFile, func: Seq<char>, offset: int) -> bool {
    &&& file.source matches Some(source) && header_is_written(
        encode_utf8(source@),
        encode_utf8(func),
        offset,
    )
    &&& file.functions matches Some(names) && exists|j: int|
        0 <= j < names@.len() && (#[trigger] names@[j])@ == func
}

/// What counts as a definition, byte by byte.
pub proof fn law_what_a_definition_is(file: PackageFile, func: Seq<char>, offset: int)
    ensures
        defined_at(file, func, offset) <==> definition_is_written(file, func, offset),
{
    if let Some(source) = file.source {
        let bytes = encode_utf8(source@);
        let name = encode_utf8(func);
        if header_at(bytes, name, offset) {
            assert forall|j: int| 0 <= j < name.len() implies #[trigger] name[j] == bytes[offset
                + j] by {
                assert(bytes.subrange(offset, offset + name.len())[j] == bytes[offset + j]);
            }
        }
        if header_is_written(bytes, name, offset) {
            assert(bytes.subrange(offset, offset + name.len()) =~= name);
        }
    }
    if let Some(names) = file.functions {
        if texts(names@).contains(func) {
            let j = texts(names@).index_of(func);
            assert(names@[j]@ == func);
        }
        if exists|j: int| 0 <= j < names@.len() && (#[trigger] names@[j])@ == func {
            let j = choose|j: int| 0 <= j < names@.len() && (#[trigger] names@[j])@ == func;
            assert(texts(names@)[j] == func);
        }
    }
}

/// The header of a function is the first place in the text where its name
/// stands as a whole word with `(` right behind it; if none is found, there is
/// none.
pub proof fn law_header_is_the_first(bytes: Seq<u8>, name: Seq<u8>)
    ensures
        match header_offset(bytes, name, 0) {
            Some(i) => header_is_written(bytes, name, i) && forall|j: int|
                #[trigger] header_is_written(bytes, name, j) ==> i <= j,
            None => forall|j: int| !#[trigger] header_is_written(bytes, name, j),
        },
{
    lemma_header_offset(bytes, name, 0);
    if let Some(i) = header_offset(bytes, name, 0) {
        assert forall|j: int| 0 <= j < name.len() implies #[trigger] name[j] == bytes[i + j] by {
            assert(bytes.subrange(i, i + name.len())[j] == bytes[i + j]);
        }
    }
    assert forall|j: int| #[trigger] header_is_written(bytes, name, j) implies header_at(
        bytes,
        name,
        j,
    ) by {
        assert(bytes.subrange(j, j + name.len()) =~= name);
    }
}

/// Names are ordered as their bytes are: where two first differ, the smaller
/// byte comes first, and a name comes before every longer one that it begins.
pub proof fn law_first_difference_decides(a: Seq<char>, b: Seq<char>, k: int)
    requires
        0 <= k < encode_utf8(b).len(),
        k <= encode_utf8(a).len(),
        forall|j: int| 0 <= j < k ==> #[trigger] encode_utf8(a)[j] == encode_utf8(b)[j],
        k < encode_utf8(a).len() ==> encode_utf8(a)[k] < encode_utf8(b)[k],
    ensures
        name_le(a, b),
        !name_le(b, a),
{
    lemma_first_difference(encode_utf8(a), encode_utf8(b), k, 0);
}

proof fn lemma_first_difference(a: Seq<u8>, b: Seq<u8>, k: int, i: int)
    requires
        0 <= i <= k < b.len(),
        k <= a.len(),
        forall|j: int| 0 <= j < k ==> #[trigger] a[j] == b[j],
        k < a.len() ==> a[k] < b[k],
    ensures
        bytes_le_from(a, b, i),
        !bytes_le_from(b, a, i),
    decreases k - i,
{
    if i < k {
        assert(a[i] == b[i]);
        lemma_first_difference(a, b, k, i + 1);
    }
}

/// Of the files of a directory exactly those whose extension is `stan` or
/// `laplacelib` are sources, each as often as it is there.
pub proof fn law_package_sources(names: Seq<Seq<char>>, name: Seq<char>)
    ensures
        sorted_names(package_source_names(names)).to_multiset().count(name) == (if extension_of(
            name,
        ) == Some("stan"@) || extension_of(name) == Some("laplacelib"@) {
            names.to_multiset().count(name)
        } else {
            0
        }),
{
    law_names_sorted(package_source_names(names));
    lemma_package_sources(names, name);
}

proof fn lemma_package_sources(names: Seq<Seq<char>>, name: Seq<char>)
    ensures
        package_source_names(names).to_multiset().count(name) == (if extension_of(name) == Some(
            "stan"@,
        ) || extension_of(name) == Some("laplacelib"@) {
            names.to_multiset().count(name)
        } else {
            0
        }),
    decreases names.len(),
{
    broadcast use vstd::multiset::group_multiset_axioms;

    if names.len() == 0 {
        assert(names =~= Seq::<Seq<char>>::empty());
        assert(package_source_names(names) =~= Seq::<Seq<char>>::empty());
        vstd::seq_lib::to_multiset_len(names);
        vstd::seq_lib::to_multiset_len(package_source_names(names));
    } else {
        let rest = names.drop_last();
        let before = package_source_names(rest);
        lemma_package_sources(rest, name);
        assert(names =~= rest.push(names.last()));
        vstd::seq_lib::to_multiset_build(rest, names.last());
        vstd::seq_lib::to_multiset_build(before, names.last());
    }
}

/// Two names that come before each other are the same name.
pub proof fn law_names_are_told_apart(a: Seq<char>, b: Seq<char>)
    requires
        name_le(a, b),
        name_le(b, a),
    ensures
        a == b,
{
    lemma_bytes_antisymmetric(encode_utf8(a), encode_utf8(b), 0);
    assert(encode_utf8(a) =~= encode_utf8(b));
    lemma_same_bytes(a, b);
}

proof fn lemma_bytes_antisymmetric(a: Seq<u8>, b: Seq<u8>, i: int)
    requires
        0 <= i,
        i <= a.len() || i <= b.len(),
        forall|k: int| 0 <= k < i && k < a.len() && k < b.len() ==> #[trigger] a[k] == b[k],
        bytes_le_from(a, b, i),
        bytes_le_from(b, a, i),
    ensures
        i <= a.len() && i <= b.len() ==> a.len() == b.len(),
        i <= a.len() && i <= b.len() ==> forall|k: int|
            0 <= k < a.len() ==> #[trigger] a[k] == b[k],
    decreases a.len() - i,
{
    if i < a.len() && i < b.len() {
        lemma_bytes_antisymmetric(a, b, i + 1);
    }
}

} // verus!
