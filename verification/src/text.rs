//! Text as the rest of the library sees it: the UTF-8 bytes of a `&str`,
//! addressed by byte offset.
//!
//! Offsets are only ever used to cut a text at character boundaries, so the
//! first half of this module is about which offsets those are; the second
//! half holds the searches, comparisons and counts that work on bytes.

use vstd::prelude::*;
use vstd::string::*;
use vstd::utf8::*;

verus! {

/// A byte that can be part of an identifier: an ASCII letter or digit, or `_`.
pub open spec fn is_ident_byte(b: u8) -> bool {
    ||| 0x30 <= b <= 0x39
    ||| 0x41 <= b <= 0x5a
    ||| 0x61 <= b <= 0x7a
    ||| b == 0x5f
}

/// Whether `b` can be part of an identifier.
pub fn is_ident_char(b: u8) -> (r: bool)
    ensures
        r == is_ident_byte(b),
{
    (0x30 <= b && b <= 0x39) || (0x41 <= b && b <= 0x5a) || (0x61 <= b && b <= 0x7a) || b == 0x5f
}

/// Space, tab, line feed, form feed or carriage return.
pub open spec fn is_space_byte(b: u8) -> bool {
    b == 0x20 || b == 0x09 || b == 0x0a || b == 0x0c || b == 0x0d
}

/// Whether `b` is ASCII whitespace.
pub fn is_ascii_whitespace(b: u8) -> (r: bool)
    ensures
        r == is_space_byte(b),
{
    b == 0x20 || b == 0x09 || b == 0x0a || b == 0x0c || b == 0x0d
}

// ---------------------------------------------------------------------------
// Character boundaries
// ---------------------------------------------------------------------------

/// `i` is an offset at which the text `bytes` may be cut: its end, or the
/// first byte of a character.
pub open spec fn on_boundary(bytes: Seq<u8>, i: int) -> bool {
    &&& 0 <= i <= bytes.len()
    &&& i < bytes.len() ==> !is_continuation_byte(bytes[i])
}

/// Whether the text `bytes` may be cut at `i`.
pub fn is_boundary(bytes: &[u8], i: usize) -> (r: bool)
    ensures
        r == on_boundary(bytes@, i as int),
{
    i == bytes.len() || (i < bytes.len() && (bytes[i] < 0x80 || bytes[i] > 0xbf))
}

/// The characters of `bytes` between two boundaries.
pub open spec fn text_between(bytes: Seq<u8>, start: int, end: int) -> Seq<char> {
    decode_utf8(bytes.subrange(start, end))
}

/// `on_boundary` and the standard library's notion of a character boundary
/// agree on valid text.
pub proof fn lemma_boundary(bytes: Seq<u8>, i: int)
    requires
        valid_utf8(bytes),
    ensures
        on_boundary(bytes, i) == is_char_boundary(bytes, i),
{
    if i == 0 {
        assert(is_char_boundary(bytes, 0));
    } else if i == bytes.len() {
        is_char_boundary_start_end_of_seq(bytes);
    } else if 0 < i < bytes.len() {
        is_char_boundary_iff_not_is_continuation_byte(bytes, i);
    }
}

/// The offset after an ASCII byte is a boundary.
pub proof fn lemma_after_ascii(bytes: Seq<u8>, i: int)
    requires
        valid_utf8(bytes),
        0 <= i < bytes.len(),
        bytes[i] <= 0x7f,
    ensures
        on_boundary(bytes, i),
        on_boundary(bytes, i + 1),
    decreases bytes.len(),
{
    let rest = pop_first_scalar(bytes);
    let n = length_of_first_scalar(bytes);
    if i == 0 {
        reveal_with_fuel(valid_utf8, 2);
        if rest.len() > 0 {
            assert(rest[0] == bytes[1]);
        }
    } else {
        assert(i >= n);
        assert(rest[i - n] == bytes[i]);
        lemma_after_ascii(rest, i - n);
        if i + 1 < bytes.len() {
            assert(rest[i - n + 1] == bytes[i + 1]);
        }
    }
}

/// A run of ASCII bytes starts and ends on a boundary.
pub proof fn lemma_ascii_run(bytes: Seq<u8>, start: int, end: int)
    requires
        valid_utf8(bytes),
        0 <= start < end <= bytes.len(),
        bytes[start] <= 0x7f,
        bytes[end - 1] <= 0x7f,
    ensures
        on_boundary(bytes, start),
        on_boundary(bytes, end),
{
    lemma_after_ascii(bytes, start);
    lemma_after_ascii(bytes, end - 1);
}

/// The text between two boundaries is valid text.
pub proof fn lemma_between_valid(bytes: Seq<u8>, start: int, end: int)
    requires
        valid_utf8(bytes),
        on_boundary(bytes, start),
        on_boundary(bytes, end),
        start <= end,
    ensures
        valid_utf8(bytes.subrange(start, end)),
{
    lemma_boundary(bytes, end);
    valid_utf8_split(bytes, end);
    let prefix = bytes.subrange(0, end);
    assert(on_boundary(prefix, start));
    lemma_boundary(prefix, start);
    valid_utf8_split(prefix, start);
    assert(prefix.subrange(start, prefix.len() as int) =~= bytes.subrange(start, end));
}

/// Two texts with the same bytes are the same text.
pub proof fn lemma_same_bytes(a: Seq<char>, b: Seq<char>)
    ensures
        (encode_utf8(a) == encode_utf8(b)) == (a == b),
{
    encode_utf8_decode_utf8(a);
    encode_utf8_decode_utf8(b);
}

/// The encoding of a concatenation is the concatenation of the encodings.
pub proof fn lemma_encode_concat(a: Seq<char>, b: Seq<char>)
    ensures
        encode_utf8(a + b) == encode_utf8(a) + encode_utf8(b),
    decreases a.len(),
{
    if a.len() == 0 {
        assert(a + b =~= b);
        assert(encode_utf8(a) + encode_utf8(b) =~= encode_utf8(b));
    } else {
        assert((a + b).drop_first() =~= a.drop_first() + b);
        lemma_encode_concat(a.drop_first(), b);
        assert(encode_utf8(a + b) =~= encode_utf8(a) + encode_utf8(b));
    }
}

/// The part of `source` between two byte offsets.
pub fn substring(source: &str, start: usize, end: usize) -> (r: &str)
    requires
        start <= end,
        on_boundary(encode_utf8(source@), start as int),
        on_boundary(encode_utf8(source@), end as int),
    ensures
        encode_utf8(r@) == encode_utf8(source@).subrange(start as int, end as int),
        r@ == text_between(encode_utf8(source@), start as int, end as int),
{
    let ghost bytes = encode_utf8(source@);
    proof {
        encode_utf8_valid_utf8(source@);
        lemma_boundary(bytes, end as int);
    }
    let (prefix, _) = source.split_at(end);
    proof {
        encode_utf8_valid_utf8(prefix@);
        assert(on_boundary(encode_utf8(prefix@), start as int));
        lemma_boundary(encode_utf8(prefix@), start as int);
    }
    let (_, part) = prefix.split_at(start);
    proof {
        assert(encode_utf8(part@) =~= bytes.subrange(start as int, end as int));
        encode_utf8_decode_utf8(part@);
    }
    part
}

// ---------------------------------------------------------------------------
// Comparing and searching
// ---------------------------------------------------------------------------

/// `needle` stands in `hay` at offset `i`.
pub open spec fn occurs_at(hay: Seq<u8>, needle: Seq<u8>, i: int) -> bool {
    &&& 0 <= i
    &&& i + needle.len() <= hay.len()
    &&& hay.subrange(i, i + needle.len()) == needle
}

/// Whether `needle` stands in `hay` at offset `at`.
pub fn matches_at(hay: &[u8], at: usize, needle: &[u8]) -> (r: bool)
    ensures
        r == occurs_at(hay@, needle@, at as int),
{
    let len = hay.len();
    if at > len || len - at < needle.len() {
        return false;
    }
    let mut k: usize = 0;
    while k < needle.len()
        invariant
            len == hay@.len(),
            at + needle@.len() <= len,
            k <= needle@.len(),
            forall|j: int| 0 <= j < k ==> hay@[at + j] == needle@[j],
        decreases needle.len() - k,
    {
        if hay[at + k] != needle[k] {
            assert(hay@.subrange(at as int, at + needle@.len())[k as int] == hay@[at + k]);
            return false;
        }
        k += 1;
    }
    assert(hay@.subrange(at as int, at + needle@.len()) =~= needle@);
    true
}

/// A text can be cut around an occurrence of another text in it.
pub proof fn lemma_occurrence_boundaries(hay: Seq<u8>, needle: Seq<u8>, i: int)
    requires
        valid_utf8(hay),
        valid_utf8(needle),
        needle.len() > 0,
        occurs_at(hay, needle, i),
    ensures
        on_boundary(hay, i),
        on_boundary(hay, i + needle.len()),
{
    assert(hay.subrange(i, i + needle.len())[0] == hay[i]);
    assert(valid_first_scalar(needle));
    let tail = hay.subrange(i, hay.len() as int);
    lemma_between_valid(hay, i, hay.len() as int);
    assert(tail.subrange(0, needle.len() as int) =~= needle);
    let rest = tail.subrange(needle.len() as int, tail.len() as int);
    if !valid_utf8(rest) {
        partial_valid_partial_invalid_utf8(tail, needle.len() as int);
    }
    if rest.len() > 0 {
        assert(valid_first_scalar(rest));
        assert(rest[0] == hay[i + needle.len()]);
    }
}

/// An optional offset as an optional integer.
pub open spec fn offset_view(r: Option<usize>) -> Option<int> {
    match r {
        Some(i) => Some(i as int),
        None => None,
    }
}

/// Whether two texts are equal.
pub fn str_eq(a: &str, b: &str) -> (r: bool)
    ensures
        r == (a@ == b@),
{
    let x = a.as_bytes();
    let y = b.as_bytes();
    proof {
        lemma_same_bytes(a@, b@);
        if x@.len() == y@.len() {
            assert(x@.subrange(0, x@.len() as int) =~= x@);
        }
    }
    x.len() == y.len() && matches_at(x, 0, y)
}

/// The texts of a list of string slices.
pub open spec fn views(words: Seq<&str>) -> Seq<Seq<char>> {
    Seq::new(words.len(), |i: int| words[i]@)
}

/// The parts one behind the other.
pub open spec fn concat(parts: Seq<Seq<char>>) -> Seq<char>
    decreases parts.len(),
{
    if parts.len() == 0 {
        seq![]
    } else {
        concat(parts.drop_last()) + parts.last()
    }
}

/// Put `parts` one behind the other.
pub fn join_parts(parts: &Vec<&str>) -> (r: String)
    ensures
        r@ == concat(views(parts@)),
{
    let mut s = String::new();
    let ghost all = views(parts@);
    let mut i: usize = 0;
    assert(all.subrange(0, 0) =~= Seq::<Seq<char>>::empty());
    while i < parts.len()
        invariant
            all == views(parts@),
            i <= parts@.len(),
            s@ == concat(all.subrange(0, i as int)),
        decreases parts.len() - i,
    {
        proof {
            let next = all.subrange(0, i + 1);
            assert(next.drop_last() =~= all.subrange(0, i as int));
            assert(next.last() == parts@[i as int]@);
        }
        s.append(parts[i]);
        i += 1;
    }
    assert(all.subrange(0, i as int) =~= all);
    s
}

/// The texts of a list of strings.
pub open spec fn texts(names: Seq<String>) -> Seq<Seq<char>> {
    Seq::new(names.len(), |i: int| names[i]@)
}

/// Whether `name` is one of `names`.
pub fn contains_name(names: &Vec<String>, name: &str) -> (r: bool)
    ensures
        r == texts(names@).contains(name@),
{
    let mut i: usize = 0;
    while i < names.len()
        invariant
            i <= names@.len(),
            forall|j: int| 0 <= j < i ==> (#[trigger] names@[j])@ != name@,
        decreases names.len() - i,
    {
        if str_eq(names[i].as_str(), name) {
            assert(texts(names@)[i as int] == name@);
            return true;
        }
        i += 1;
    }
    proof {
        if texts(names@).contains(name@) {
            let j = texts(names@).index_of(name@);
            assert(names@[j]@ == name@);
        }
    }
    false
}

// ---------------------------------------------------------------------------
// Lines
// ---------------------------------------------------------------------------

/// Where the line that holds offset `at` begins.
pub open spec fn line_start(bytes: Seq<u8>, at: int) -> int
    decreases at,
{
    if at <= 0 || bytes[at - 1] == 0x0a {
        at
    } else {
        line_start(bytes, at - 1)
    }
}

/// The start of a line is a boundary.
pub proof fn lemma_line_start(bytes: Seq<u8>, at: int)
    requires
        valid_utf8(bytes),
        0 <= at <= bytes.len(),
    ensures
        0 <= line_start(bytes, at) <= at,
        on_boundary(bytes, line_start(bytes, at)),
    decreases at,
{
    if at == 0 {
        lemma_boundary(bytes, 0);
    } else if bytes[at - 1] == 0x0a {
        lemma_after_ascii(bytes, at - 1);
    } else {
        lemma_line_start(bytes, at - 1);
    }
}

// ---------------------------------------------------------------------------
// UTF-16 lengths
// ---------------------------------------------------------------------------

/// How many UTF-16 code units a character takes.
pub open spec fn utf16_width(c: char) -> nat {
    if (c as u32) < 0x10000 {
        1
    } else {
        2
    }
}

/// How many UTF-16 code units a text takes.
pub open spec fn utf16_len(chars: Seq<char>) -> nat
    decreases chars.len(),
{
    if chars.len() == 0 {
        0
    } else {
        utf16_width(chars[0]) + utf16_len(chars.drop_first())
    }
}

/// The code units that a byte of UTF-8 text stands for: all of a character's
/// units are counted at its first byte.
pub open spec fn byte_units(b: u8) -> nat {
    if is_continuation_byte(b) {
        0
    } else if b >= 0xf0 {
        2
    } else {
        1
    }
}

/// The code units that the bytes of a text stand for.
pub open spec fn units(bytes: Seq<u8>) -> nat
    decreases bytes.len(),
{
    if bytes.len() == 0 {
        0
    } else {
        units(bytes.drop_last()) + byte_units(bytes.last())
    }
}

pub proof fn lemma_units_concat(a: Seq<u8>, b: Seq<u8>)
    ensures
        units(a + b) == units(a) + units(b),
    decreases b.len(),
{
    if b.len() == 0 {
        assert(a + b =~= a);
    } else {
        assert((a + b).drop_last() =~= a + b.drop_last());
        lemma_units_concat(a, b.drop_last());
    }
}

/// Counting by first bytes gives the UTF-16 length of the text, which is no
/// more than its length in bytes.
pub proof fn lemma_units(bytes: Seq<u8>)
    requires
        valid_utf8(bytes),
    ensures
        units(bytes) == utf16_len(decode_utf8(bytes)),
        units(bytes) <= bytes.len(),
    decreases bytes.len(),
{
    if bytes.len() > 0 {
        let head = take_first_scalar(bytes);
        let rest = pop_first_scalar(bytes);
        let chars = decode_utf8(bytes);
        let first = decode_first_scalar(bytes);
        assert(bytes =~= head + rest);
        lemma_units_concat(head, rest);
        lemma_units(rest);
        assert(chars.drop_first() =~= decode_utf8(rest));
        assert(chars[0] == first as char);
        reveal_with_fuel(units, 5);
        let b0 = bytes[0];
        if is_leading_byte_width_1(b0) {
            assert((b0 & 0x7f) as u32 <= 0x7f) by (bit_vector);
            assert(head =~= seq![b0]);
            assert(units(head) == 1);
        } else if is_leading_byte_width_2(b0) {
            let b1 = bytes[1];
            assert((((b0 & 0x1f) as u32) << 6) | ((b1 & 0x3f) as u32) <= 0x7ff) by (bit_vector);
            assert(head =~= seq![b0, b1]);
            assert(head.drop_last() =~= seq![b0]);
            assert(units(head) == 1);
        } else if is_leading_byte_width_3(b0) {
            let b1 = bytes[1];
            let b2 = bytes[2];
            assert((((b0 & 0x0f) as u32) << 12) | (((b1 & 0x3f) as u32) << 6) | (
            (b2 & 0x3f) as u32) <= 0xffff) by (bit_vector);
            assert(head =~= seq![b0, b1, b2]);
            assert(head.drop_last() =~= seq![b0, b1]);
            assert(head.drop_last().drop_last() =~= seq![b0]);
            assert(units(head) == 1);
        } else {
            assert(head =~= seq![b0, bytes[1], bytes[2], bytes[3]]);
            assert(head.drop_last() =~= seq![b0, bytes[1], bytes[2]]);
            assert(head.drop_last().drop_last() =~= seq![b0, bytes[1]]);
            assert(head.drop_last().drop_last().drop_last() =~= seq![b0]);
            assert(units(head) == 2);
        }
        assert(utf16_len(chars) == utf16_width(chars[0]) + utf16_len(chars.drop_first()));
    }
}

/// The UTF-16 length of a text, truncated to 32 bits as the protocol's
/// positions are.
pub fn utf16_count(text: &str) -> (r: u32)
    ensures
        r == utf16_len(text@) as u32,
{
    let bytes = text.as_bytes();
    let mut count: u128 = 0;
    let mut i: usize = 0;
    while i < bytes.len()
        invariant
            i <= bytes@.len(),
            count == units(bytes@.subrange(0, i as int)),
            count <= 2 * i,
        decreases bytes.len() - i,
    {
        let b = bytes[i];
        proof {
            let next = bytes@.subrange(0, i + 1);
            assert(next.drop_last() =~= bytes@.subrange(0, i as int));
        }
        if b >= 0xf0 {
            count += 2;
        } else if b < 0x80 || b > 0xbf {
            count += 1;
        }
        i += 1;
    }
    proof {
        assert(bytes@.subrange(0, i as int) =~= bytes@);
        encode_utf8_valid_utf8(text@);
        lemma_units(bytes@);
        encode_utf8_decode_utf8(text@);
    }
    count as u32
}

/// Four parts, one behind the other.
pub proof fn lemma_concat_four(a: Seq<char>, b: Seq<char>, c: Seq<char>, d: Seq<char>)
    ensures
        concat(seq![a, b, c, d]) == a + b + c + d,
{
    let all = seq![a, b, c, d];
    reveal_with_fuel(concat, 5);
    assert(all.drop_last() =~= seq![a, b, c]);
    assert(seq![a, b, c].drop_last() =~= seq![a, b]);
    assert(seq![a, b].drop_last() =~= seq![a]);
    assert(seq![a].drop_last() =~= Seq::<Seq<char>>::empty());
    assert(Seq::<char>::empty() + a =~= a);
}

/// Putting parts together loses nothing and adds nothing: one part more is its
/// text behind that of the others.
pub proof fn law_concat(parts: Seq<Seq<char>>, part: Seq<char>)
    ensures
        concat(seq![]) == Seq::<char>::empty(),
        concat(parts.push(part)) == concat(parts) + part,
{
    assert(parts.push(part).drop_last() =~= parts);
}

/// Three parts, one behind the other.
pub proof fn lemma_concat_three(a: Seq<char>, b: Seq<char>, c: Seq<char>)
    ensures
        concat(seq![a, b, c]) == a + b + c,
{
    let none = Seq::<Seq<char>>::empty();
    law_concat(none, a);
    law_concat(seq![a], b);
    law_concat(seq![a, b], c);
    assert(none.push(a) =~= seq![a]);
    assert(seq![a].push(b) =~= seq![a, b]);
    assert(seq![a, b].push(c) =~= seq![a, b, c]);
    assert(Seq::<char>::empty() + a =~= a);
}

/// Five parts, one behind the other.
pub proof fn lemma_concat_five(
    a: Seq<char>,
    b: Seq<char>,
    c: Seq<char>,
    d: Seq<char>,
    e: Seq<char>,
)
    ensures
        concat(seq![a, b, c, d, e]) == a + b + c + d + e,
{
    lemma_concat_four(a, b, c, d);
    law_concat(seq![a, b, c, d], e);
    assert(seq![a, b, c, d].push(e) =~= seq![a, b, c, d, e]);
}

/// Nine parts, one behind the other.
pub proof fn lemma_concat_nine(
    a: Seq<char>,
    b: Seq<char>,
    c: Seq<char>,
    d: Seq<char>,
    e: Seq<char>,
    f: Seq<char>,
    g: Seq<char>,
    h: Seq<char>,
    i: Seq<char>,
)
    ensures
        concat(seq![a, b, c, d, e, f, g, h, i]) == a + b + c + d + e + f + g + h + i,
{
    lemma_concat_five(a, b, c, d, e);
    law_concat(seq![a, b, c, d, e], f);
    law_concat(seq![a, b, c, d, e, f], g);
    law_concat(seq![a, b, c, d, e, f, g], h);
    law_concat(seq![a, b, c, d, e, f, g, h], i);
    assert(seq![a, b, c, d, e].push(f) =~= seq![a, b, c, d, e, f]);
    assert(seq![a, b, c, d, e, f].push(g) =~= seq![a, b, c, d, e, f, g]);
    assert(seq![a, b, c, d, e, f, g].push(h) =~= seq![a, b, c, d, e, f, g, h]);
    assert(seq![a, b, c, d, e, f, g, h].push(i) =~= seq![a, b, c, d, e, f, g, h, i]);
}

/// The UTF-16 length of a text is the sum over its characters: two code units
/// for a character outside the basic plane, one for any other.
pub proof fn law_utf16_len(c: char, rest: Seq<char>)
    ensures
        utf16_len(seq![]) == 0,
        utf16_len(seq![c] + rest) == utf16_len(rest) + (if (c as u32) < 0x10000 {
            1nat
        } else {
            2nat
        }),
{
    assert((seq![c] + rest).drop_first() =~= rest);
}

/// A text occurs in another where all of its bytes stand one behind the other.
pub proof fn law_occurs_at(hay: Seq<u8>, needle: Seq<u8>, i: int)
    ensures
        occurs_at(hay, needle, i) <==> {
            &&& 0 <= i
            &&& i + needle.len() <= hay.len()
            &&& forall|k: int| 0 <= k < needle.len() ==> #[trigger] needle[k] == hay[i + k]
        },
{
    if occurs_at(hay, needle, i) {
        assert forall|k: int| 0 <= k < needle.len() implies #[trigger] needle[k] == hay[i + k] by {
            assert(hay.subrange(i, i + needle.len())[k] == hay[i + k]);
        }
    }
    if 0 <= i && i + needle.len() <= hay.len() && forall|k: int|
        0 <= k < needle.len() ==> #[trigger] needle[k] == hay[i + k] {
        assert(hay.subrange(i, i + needle.len()) =~= needle);
    }
}

/// The bytes of identifiers are the letters, the digits and `_`; whitespace is
/// the space, the tab, the line feed, the form feed and the carriage return.
pub proof fn law_kinds_of_bytes(b: u8)
    ensures
        is_ident_byte(b) <==> ('a' <= b as char <= 'z' || 'A' <= b as char <= 'Z' || '0'
            <= b as char <= '9' || b as char == '_'),
        is_space_byte(b) <==> (b as char == ' ' || b as char == '\t' || b as char == '\n'
            || b == 12 || b as char == '\r'),
{
}

} // verus!
