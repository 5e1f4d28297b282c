//! The order of versioned names such as `cmdstan-2.9.0` and `cmdstan-2.33.0`:
//! numbers in them count as numbers, the rest as text.

use crate::workspace::{law_name_order, law_names_are_told_apart, name_le, name_may_precede};
use vstd::prelude::*;
use vstd::string::*;
use vstd::utf8::*;

verus! {

/// How two things are ordered.
#[derive(Debug, Clone, Copy, PartialEq, Eq, Structural)]
pub enum Precedence {
    Before,
    Same,
    After,
}

/// How two numbers are ordered.
pub open spec fn number_order(a: int, b: int) -> Precedence {
    if a < b {
        Precedence::Before
    } else if a == b {
        Precedence::Same
    } else {
        Precedence::After
    }
}

/// A decimal digit.
pub open spec fn is_digit(b: u8) -> bool {
    0x30 <= b <= 0x39
}

fn is_digit_byte(b: u8) -> (r: bool)
    ensures
        r == is_digit(b),
{
    0x30 <= b && b <= 0x39
}

/// The number that the digits stand for.
pub open spec fn number(digits: Seq<u8>) -> nat
    decreases digits.len(),
{
    if digits.len() == 0 {
        0
    } else {
        number(digits.drop_last()) * 10 + (digits.last() - 0x30) as nat
    }
}

/// A piece of a name: a number, or a byte that is no digit.
pub enum Piece {
    Byte(u8),
    Number(nat),
}

/// Where the digits that start at `i` end.
pub open spec fn digits_end(bytes: Seq<u8>, i: int) -> int
    decreases bytes.len() - i,
{
    if 0 <= i < bytes.len() && is_digit(bytes[i]) {
        digits_end(bytes, i + 1)
    } else {
        i
    }
}

proof fn lemma_digits_end(bytes: Seq<u8>, i: int)
    requires
        0 <= i <= bytes.len(),
    ensures
        i <= digits_end(bytes, i) <= bytes.len(),
        forall|k: int| i <= k < digits_end(bytes, i) ==> is_digit(#[trigger] bytes[k]),
        digits_end(bytes, i) < bytes.len() ==> !is_digit(bytes[digits_end(bytes, i)]),
    decreases bytes.len() - i,
{
    if i < bytes.len() && is_digit(bytes[i]) {
        lemma_digits_end(bytes, i + 1);
    }
}

/// The pieces of a name from `i` on: digits next to each other are one number.
pub open spec fn pieces(bytes: Seq<u8>, i: int) -> Seq<Piece>
    decreases bytes.len() - i,
    when 0 <= i
    via pieces_decreases
{
    if i >= bytes.len() {
        seq![]
    } else if is_digit(bytes[i]) {
        let end = digits_end(bytes, i);
        seq![Piece::Number(number(bytes.subrange(i, end)))] + pieces(bytes, end)
    } else {
        seq![Piece::Byte(bytes[i])] + pieces(bytes, i + 1)
    }
}

#[via_fn]
proof fn pieces_decreases(bytes: Seq<u8>, i: int) {
    if i < bytes.len() && is_digit(bytes[i]) {
        lemma_digits_end(bytes, i + 1);
    }
}

/// How two pieces are ordered: numbers by their value, bytes as text, and a
/// number against a byte as a digit against it.
pub open spec fn piece_order(a: Piece, b: Piece) -> Precedence {
    match (a, b) {
        (Piece::Number(x), Piece::Number(y)) => number_order(x as int, y as int),
        (Piece::Byte(x), Piece::Byte(y)) => number_order(x as int, y as int),
        (Piece::Number(_), Piece::Byte(y)) => if y < 0x30 {
            Precedence::After
        } else {
            Precedence::Before
        },
        (Piece::Byte(x), Piece::Number(_)) => if x < 0x30 {
            Precedence::Before
        } else {
            Precedence::After
        },
    }
}

/// How two lists of pieces are ordered: by the first piece in which they
/// differ; if one is how the other begins, it stands before the other.
pub open spec fn pieces_order(a: Seq<Piece>, b: Seq<Piece>) -> Precedence
    decreases a.len(),
{
    if a.len() == 0 {
        if b.len() == 0 {
            Precedence::Same
        } else {
            Precedence::Before
        }
    } else if b.len() == 0 {
        Precedence::After
    } else {
        match piece_order(a[0], b[0]) {
            Precedence::Same => pieces_order(a.drop_first(), b.drop_first()),
            order => order,
        }
    }
}

/// How the pieces of two names are ordered.
pub open spec fn version_order(a: Seq<char>, b: Seq<char>) -> Precedence {
    pieces_order(pieces(encode_utf8(a), 0), pieces(encode_utf8(b), 0))
}

/// `a` is not newer than `b`: its pieces come first, or, where the two differ
/// in leading zeros alone, it comes first in the order of names.
pub open spec fn version_le(a: Seq<char>, b: Seq<char>) -> bool {
    match version_order(a, b) {
        Precedence::Before => true,
        Precedence::Same => name_le(a, b),
        Precedence::After => false,
    }
}

/// How the numbers that two runs of digits stand for are ordered.
fn digits_order(a: &[u8], a_start: usize, a_end: usize, b: &[u8], b_start: usize, b_end: usize) -> (r:
    Precedence)
    requires
        a_start <= a_end <= a@.len(),
        b_start <= b_end <= b@.len(),
        forall|k: int| a_start <= k < a_end ==> is_digit(#[trigger] a@[k]),
        forall|k: int| b_start <= k < b_end ==> is_digit(#[trigger] b@[k]),
    ensures
        r == number_order(
            number(a@.subrange(a_start as int, a_end as int)) as int,
            number(b@.subrange(b_start as int, b_end as int)) as int,
        ),
{
    let a_len = a_end - a_start;
    let b_len = b_end - b_start;
    // The shorter run is read with zeros in front of it.
    let columns = if a_len < b_len {
        b_len
    } else {
        a_len
    };
    let mut order = Precedence::Same;
    let mut i: usize = a_start;
    let mut j: usize = b_start;
    let mut left: usize = columns;
    assert(a@.subrange(a_start as int, i as int) =~= Seq::<u8>::empty());
    assert(b@.subrange(b_start as int, j as int) =~= Seq::<u8>::empty());
    while left > 0
        invariant
            a_start <= i <= a_end <= a@.len(),
            b_start <= j <= b_end <= b@.len(),
            forall|k: int| a_start <= k < a_end ==> is_digit(#[trigger] a@[k]),
            forall|k: int| b_start <= k < b_end ==> is_digit(#[trigger] b@[k]),
            a_end - i <= left,
            b_end - j <= left,
            i > a_start ==> a_end - i == left,
            j > b_start ==> b_end - j == left,
            order == number_order(
                number(a@.subrange(a_start as int, i as int)) as int,
                number(b@.subrange(b_start as int, j as int)) as int,
            ),
        decreases left,
    {
        let ghost a_before = a@.subrange(a_start as int, i as int);
        let ghost b_before = b@.subrange(b_start as int, j as int);
        let x: u8 = if a_end - i == left {
            a[i]
        } else {
            0x30
        };
        let y: u8 = if b_end - j == left {
            b[j]
        } else {
            0x30
        };
        if a_end - i == left {
            i += 1;
            proof {
                let next = a@.subrange(a_start as int, i as int);
                assert(next.drop_last() =~= a_before);
                assert(next.last() == x);
            }
        }
        if b_end - j == left {
            j += 1;
            proof {
                let next = b@.subrange(b_start as int, j as int);
                assert(next.drop_last() =~= b_before);
                assert(next.last() == y);
            }
        }
        assert(number(a@.subrange(a_start as int, i as int)) == number(a_before) * 10 + (x - 0x30));
        assert(number(b@.subrange(b_start as int, j as int)) == number(b_before) * 10 + (y - 0x30));
        if order == Precedence::Same {
            order = if x < y {
                Precedence::Before
            } else if x == y {
                Precedence::Same
            } else {
                Precedence::After
            };
        }
        left -= 1;
    }
    order
}

fn skip_digits(bytes: &[u8], i: usize) -> (r: usize)
    requires
        i <= bytes@.len(),
    ensures
        r == digits_end(bytes@, i as int),
        i <= r <= bytes@.len(),
        forall|k: int| i <= k < r ==> is_digit(#[trigger] bytes@[k]),
{
    let mut j: usize = i;
    while j < bytes.len() && is_digit_byte(bytes[j])
        invariant
            i <= j <= bytes@.len(),
            digits_end(bytes@, i as int) == digits_end(bytes@, j as int),
            forall|k: int| i <= k < j ==> is_digit(#[trigger] bytes@[k]),
        decreases bytes.len() - j,
    {
        j += 1;
    }
    j
}

/// How two names are ordered by their pieces.
pub fn find_version_order(a: &str, b: &str) -> (r: Precedence)
    ensures
        r == version_order(a@, b@),
{
    let x = a.as_bytes();
    let y = b.as_bytes();
    let mut i: usize = 0;
    let mut j: usize = 0;
    while i < x.len() && j < y.len()
        invariant
            x@ == encode_utf8(a@),
            y@ == encode_utf8(b@),
            i <= x@.len(),
            j <= y@.len(),
            version_order(a@, b@) == pieces_order(pieces(x@, i as int), pieces(y@, j as int)),
        decreases x.len() - i,
    {
        let ghost p = pieces(x@, i as int);
        let ghost q = pieces(y@, j as int);
        let x_digit = is_digit_byte(x[i]);
        let y_digit = is_digit_byte(y[j]);
        let i_next = if x_digit {
            skip_digits(x, i)
        } else {
            i + 1
        };
        let j_next = if y_digit {
            skip_digits(y, j)
        } else {
            j + 1
        };
        proof {
            lemma_digits_end(x@, i as int);
            lemma_digits_end(y@, j as int);
            lemma_digits_end(x@, i + 1);
            lemma_digits_end(y@, j + 1);
            assert(p.drop_first() =~= pieces(x@, i_next as int));
            assert(q.drop_first() =~= pieces(y@, j_next as int));
        }
        let order = if x_digit && y_digit {
            digits_order(x, i, i_next, y, j, j_next)
        } else if x[i] < y[j] {
            Precedence::Before
        } else if x[i] == y[j] {
            Precedence::Same
        } else {
            Precedence::After
        };
        assert(order == piece_order(p[0], q[0]));
        if order != Precedence::Same {
            return order;
        }
        i = i_next;
        j = j_next;
    }
    proof {
        assert(i < x@.len() ==> pieces(x@, i as int).len() > 0);
        assert(j < y@.len() ==> pieces(y@, j as int).len() > 0);
    }
    if i < x.len() {
        Precedence::After
    } else if j < y.len() {
        Precedence::Before
    } else {
        Precedence::Same
    }
}

/// Whether the version `a` is not newer than `b`.
pub fn version_may_precede(a: &str, b: &str) -> (r: bool)
    ensures
        r == version_le(a@, b@),
{
    match find_version_order(a, b) {
        Precedence::Before => true,
        Precedence::Same => name_may_precede(a, b),
        Precedence::After => false,
    }
}

// ---------------------------------------------------------------------------
// Laws
// ---------------------------------------------------------------------------

/// The order seen from the other side.
pub open spec fn reversed(order: Precedence) -> Precedence {
    match order {
        Precedence::Before => Precedence::After,
        Precedence::Same => Precedence::Same,
        Precedence::After => Precedence::Before,
    }
}

/// No digit among the bytes of the pieces.
pub open spec fn are_pieces(a: Seq<Piece>) -> bool {
    forall|k: int| 0 <= k < a.len() ==> (#[trigger] a[k] matches Piece::Byte(b) ==> !is_digit(b))
}

proof fn lemma_are_pieces(bytes: Seq<u8>, i: int)
    requires
        0 <= i,
    ensures
        are_pieces(pieces(bytes, i)),
    decreases bytes.len() - i,
{
    if i < bytes.len() {
        if is_digit(bytes[i]) {
            lemma_digits_end(bytes, i);
            lemma_digits_end(bytes, i + 1);
            lemma_are_pieces(bytes, digits_end(bytes, i));
        } else {
            lemma_are_pieces(bytes, i + 1);
        }
    }
}

proof fn lemma_pieces_reversed(a: Seq<Piece>, b: Seq<Piece>)
    ensures
        pieces_order(b, a) == reversed(pieces_order(a, b)),
    decreases a.len(),
{
    if a.len() > 0 && b.len() > 0 {
        lemma_pieces_reversed(a.drop_first(), b.drop_first());
    }
}

proof fn lemma_pieces_transitive(a: Seq<Piece>, b: Seq<Piece>, c: Seq<Piece>)
    requires
        are_pieces(a),
        are_pieces(b),
        are_pieces(c),
        pieces_order(a, b) != Precedence::After,
        pieces_order(b, c) != Precedence::After,
    ensures
        pieces_order(a, c) == (if pieces_order(a, b) == Precedence::Same {
            pieces_order(b, c)
        } else {
            Precedence::Before
        }),
    decreases a.len(),
{
    if a.len() > 0 && b.len() > 0 && c.len() > 0 {
        if piece_order(a[0], b[0]) == Precedence::Same && piece_order(b[0], c[0])
            == Precedence::Same {
            lemma_pieces_transitive(a.drop_first(), b.drop_first(), c.drop_first());
        }
    }
}

/// The order of versions is total and transitive.
pub proof fn law_version_order(a: Seq<char>, b: Seq<char>, c: Seq<char>)
    ensures
        version_le(a, a),
        version_le(a, b) || version_le(b, a),
        version_le(a, b) && version_le(b, c) ==> version_le(a, c),
{
    let x = pieces(encode_utf8(a), 0);
    let y = pieces(encode_utf8(b), 0);
    let z = pieces(encode_utf8(c), 0);
    law_name_order(a, b, c);
    lemma_pieces_reversed(x, x);
    lemma_pieces_reversed(x, y);
    if version_le(a, b) && version_le(b, c) {
        lemma_are_pieces(encode_utf8(a), 0);
        lemma_are_pieces(encode_utf8(b), 0);
        lemma_are_pieces(encode_utf8(c), 0);
        lemma_pieces_transitive(x, y, z);
    }
}

/// Numbers count as numbers: of two names that are the same up to a number,
/// the one with the smaller number comes first, however many digits the
/// numbers have and whatever stands behind them.
pub proof fn law_smaller_number_comes_first(
    a: Seq<char>,
    b: Seq<char>,
    at: int,
    a_end: int,
    b_end: int,
)
    requires
        ({
            let x = encode_utf8(a);
            let y = encode_utf8(b);
            &&& 0 <= at < x.len()
            &&& at < y.len()
            &&& x.subrange(0, at) == y.subrange(0, at)
            &&& at > 0 ==> !is_digit(x[at - 1])
            &&& is_digit(x[at])
            &&& is_digit(y[at])
            &&& a_end == digits_end(x, at)
            &&& b_end == digits_end(y, at)
            &&& number(x.subrange(at, a_end)) < number(y.subrange(at, b_end))
        }),
    ensures
        version_order(a, b) == Precedence::Before,
        version_le(a, b),
        !version_le(b, a),
{
    let x = encode_utf8(a);
    let y = encode_utf8(b);
    lemma_common_start(x, y, at, 0);
    lemma_pieces_reversed(pieces(x, 0), pieces(y, 0));
}

proof fn lemma_common_start(x: Seq<u8>, y: Seq<u8>, at: int, i: int)
    requires
        0 <= i <= at < x.len(),
        at < y.len(),
        x.subrange(0, at) == y.subrange(0, at),
        at > 0 ==> !is_digit(x[at - 1]),
        is_digit(x[at]),
        is_digit(y[at]),
        number(x.subrange(at, digits_end(x, at))) < number(y.subrange(at, digits_end(y, at))),
    ensures
        pieces_order(pieces(x, i), pieces(y, i)) == Precedence::Before,
    decreases at - i,
{
    let p = pieces(x, i);
    let q = pieces(y, i);
    lemma_digits_end(x, i);
    lemma_digits_end(y, i);
    lemma_digits_end(x, i + 1);
    lemma_digits_end(y, i + 1);
    if i == at {
        assert(p[0] == Piece::Number(number(x.subrange(at, digits_end(x, at)))));
        assert(q[0] == Piece::Number(number(y.subrange(at, digits_end(y, at)))));
    } else {
        assert(x.subrange(0, at)[i] == x[i]);
        assert(y.subrange(0, at)[i] == y[i]);
        let next = if is_digit(x[i]) {
            digits_end(x, i)
        } else {
            i + 1
        };
        if is_digit(x[i]) {
            lemma_same_digits(x, y, at, i);
            assert(x.subrange(i, next) =~= y.subrange(i, next)) by {
                assert forall|k: int| i <= k < next implies #[trigger] x[k] == y[k] by {
                    assert(x.subrange(0, at)[k] == x[k]);
                    assert(y.subrange(0, at)[k] == y[k]);
                }
            }
        }
        assert(p.drop_first() =~= pieces(x, next));
        assert(q.drop_first() =~= pieces(y, next));
        lemma_common_start(x, y, at, next);
    }
}

proof fn lemma_same_digits(x: Seq<u8>, y: Seq<u8>, at: int, i: int)
    requires
        0 <= i < at < x.len(),
        at < y.len(),
        x.subrange(0, at) == y.subrange(0, at),
        !is_digit(x[at - 1]),
    ensures
        digits_end(x, i) == digits_end(y, i),
        digits_end(x, i) < at,
    decreases at - i,
{
    assert(x.subrange(0, at)[i] == x[i]);
    assert(y.subrange(0, at)[i] == y[i]);
    if is_digit(x[i]) {
        lemma_same_digits(x, y, at, i + 1);
    }
}

/// Two versions that come before each other are the same version.
pub proof fn law_versions_are_told_apart(a: Seq<char>, b: Seq<char>)
    requires
        version_le(a, b),
        version_le(b, a),
    ensures
        a == b,
{
    lemma_pieces_reversed(pieces(encode_utf8(a), 0), pieces(encode_utf8(b), 0));
    law_names_are_told_apart(a, b);
}

/// Text counts as text: of two names that are the same up to a place where
/// neither has a digit, the one with the smaller byte there comes first.
pub proof fn law_smaller_byte_comes_first(a: Seq<char>, b: Seq<char>, at: int)
    requires
        ({
            let x = encode_utf8(a);
            let y = encode_utf8(b);
            &&& 0 <= at < x.len()
            &&& at < y.len()
            &&& forall|k: int| 0 <= k < at ==> #[trigger] x[k] == y[k]
            &&& !is_digit(x[at])
            &&& !is_digit(y[at])
            &&& x[at] < y[at]
        }),
    ensures
        version_le(a, b),
        !version_le(b, a),
{
    let x = encode_utf8(a);
    let y = encode_utf8(b);
    lemma_common_text(x, y, at, 0);
    lemma_pieces_reversed(pieces(x, 0), pieces(y, 0));
}

proof fn lemma_common_text(x: Seq<u8>, y: Seq<u8>, at: int, i: int)
    requires
        0 <= i <= at < x.len(),
        at < y.len(),
        forall|k: int| 0 <= k < at ==> #[trigger] x[k] == y[k],
        !is_digit(x[at]),
        !is_digit(y[at]),
        x[at] < y[at],
    ensures
        pieces_order(pieces(x, i), pieces(y, i)) == Precedence::Before,
    decreases at - i,
{
    let p = pieces(x, i);
    let q = pieces(y, i);
    lemma_digits_end(x, i);
    lemma_digits_end(y, i);
    lemma_digits_end(x, i + 1);
    lemma_digits_end(y, i + 1);
    if i == at {
        assert(p[0] == Piece::Byte(x[at]));
        assert(q[0] == Piece::Byte(y[at]));
    } else {
        assert(x[i] == y[i]);
        let next = if is_digit(x[i]) {
            digits_end(x, i)
        } else {
            i + 1
        };
        if is_digit(x[i]) {
            lemma_digits_stop(x, y, at, i);
            assert(x.subrange(i, next) =~= y.subrange(i, next));
        }
        assert(p.drop_first() =~= pieces(x, next));
        assert(q.drop_first() =~= pieces(y, next));
        lemma_common_text(x, y, at, next);
    }
}

proof fn lemma_digits_stop(x: Seq<u8>, y: Seq<u8>, at: int, i: int)
    requires
        0 <= i <= at < x.len(),
        at < y.len(),
        forall|k: int| 0 <= k < at ==> #[trigger] x[k] == y[k],
        !is_digit(x[at]),
        !is_digit(y[at]),
    ensures
        digits_end(x, i) == digits_end(y, i),
        digits_end(x, i) <= at,
    decreases at - i,
{
    if i < at {
        assert(x[i] == y[i]);
        if is_digit(x[i]) {
            lemma_digits_stop(x, y, at, i + 1);
        }
    }
}

/// Digits are read as a decimal number: no digits are zero, and one digit more
/// is ten times the number and that digit.
pub proof fn law_digits_are_decimal(digits: Seq<u8>, digit: u8)
    requires
        0x30 <= digit <= 0x39,
    ensures
        number(seq![]) == 0,
        number(digits.push(digit)) == 10 * number(digits) + (digit - 0x30),
{
    assert(digits.push(digit).drop_last() =~= digits);
}

/// A number against text counts as a digit: of two names that are the same up
/// to a place where the first has a number and the second has none, the second
/// comes first if its byte there is smaller than every digit, and last if not.
pub proof fn law_number_against_text(a: Seq<char>, b: Seq<char>, at: int)
    requires
        ({
            let x = encode_utf8(a);
            let y = encode_utf8(b);
            &&& 0 <= at < x.len()
            &&& at < y.len()
            &&& forall|k: int| 0 <= k < at ==> #[trigger] x[k] == y[k]
            &&& at > 0 ==> !is_digit(x[at - 1])
            &&& is_digit(x[at])
            &&& !is_digit(y[at])
        }),
    ensures
        encode_utf8(b)[at] < 0x30 ==> version_le(b, a) && !version_le(a, b),
        encode_utf8(b)[at] > 0x39 ==> version_le(a, b) && !version_le(b, a),
{
    let x = encode_utf8(a);
    let y = encode_utf8(b);
    lemma_number_against_text(x, y, at, 0);
    lemma_pieces_reversed(pieces(x, 0), pieces(y, 0));
}

proof fn lemma_number_against_text(x: Seq<u8>, y: Seq<u8>, at: int, i: int)
    requires
        0 <= i <= at < x.len(),
        at < y.len(),
        forall|k: int| 0 <= k < at ==> #[trigger] x[k] == y[k],
        at > 0 ==> !is_digit(x[at - 1]),
        is_digit(x[at]),
        !is_digit(y[at]),
    ensures
        pieces_order(pieces(x, i), pieces(y, i)) == (if y[at] < 0x30 {
            Precedence::After
        } else {
            Precedence::Before
        }),
    decreases at - i,
{
    let p = pieces(x, i);
    let q = pieces(y, i);
    lemma_digits_end(x, i);
    lemma_digits_end(y, i);
    lemma_digits_end(x, i + 1);
    lemma_digits_end(y, i + 1);
    if i == at {
        assert(p[0] is Number);
        assert(q[0] == Piece::Byte(y[at]));
    } else {
        assert(x[i] == y[i]);
        let next = if is_digit(x[i]) {
            digits_end(x, i)
        } else {
            i + 1
        };
        if is_digit(x[i]) {
            assert(x.subrange(0, at) =~= y.subrange(0, at));
            lemma_same_digits(x, y, at, i);
            assert(x.subrange(i, next) =~= y.subrange(i, next));
        }
        assert(p.drop_first() =~= pieces(x, next));
        assert(q.drop_first() =~= pieces(y, next));
        lemma_number_against_text(x, y, at, next);
    }
}

/// A name comes before every longer one that it begins, unless a digit is put
/// behind a digit, which makes another number of it.
pub proof fn law_beginning_comes_first(a: Seq<char>, b: Seq<char>)
    requires
        ({
            let x = encode_utf8(a);
            let y = encode_utf8(b);
            &&& x.len() < y.len()
            &&& forall|k: int| 0 <= k < x.len() ==> #[trigger] x[k] == y[k]
            &&& x.len() > 0 ==> !is_digit(x.last()) || !is_digit(y[x.len() as int])
        }),
    ensures
        version_le(a, b),
        !version_le(b, a),
{
    let x = encode_utf8(a);
    let y = encode_utf8(b);
    lemma_beginning(x, y, 0);
    lemma_pieces_reversed(pieces(x, 0), pieces(y, 0));
}

proof fn lemma_beginning(x: Seq<u8>, y: Seq<u8>, i: int)
    requires
        0 <= i <= x.len() < y.len(),
        forall|k: int| 0 <= k < x.len() ==> #[trigger] x[k] == y[k],
        x.len() > 0 ==> !is_digit(x.last()) || !is_digit(y[x.len() as int]),
    ensures
        pieces_order(pieces(x, i), pieces(y, i)) == Precedence::Before,
    decreases x.len() - i,
{
    let p = pieces(x, i);
    let q = pieces(y, i);
    lemma_digits_end(y, i);
    lemma_digits_end(y, i + 1);
    if i == x.len() {
        assert(p.len() == 0);
        assert(q.len() > 0);
    } else {
        lemma_digits_end(x, i);
        lemma_digits_end(x, i + 1);
        assert(x[i] == y[i]);
        let next = if is_digit(x[i]) {
            digits_end(x, i)
        } else {
            i + 1
        };
        if is_digit(x[i]) {
            lemma_same_run(x, y, i);
            assert(x.subrange(i, next) =~= y.subrange(i, next));
        }
        assert(p.drop_first() =~= pieces(x, next));
        assert(q.drop_first() =~= pieces(y, next));
        lemma_beginning(x, y, next);
    }
}

proof fn lemma_same_run(x: Seq<u8>, y: Seq<u8>, i: int)
    requires
        0 <= i < x.len() < y.len(),
        forall|k: int| 0 <= k < x.len() ==> #[trigger] x[k] == y[k],
        !is_digit(x.last()) || !is_digit(y[x.len() as int]),
        is_digit(x[i]),
    ensures
        digits_end(x, i) == digits_end(y, i),
    decreases x.len() - i,
{
    assert(x[i] == y[i]);
    if i + 1 < x.len() {
        assert(x[i + 1] == y[i + 1]);
        if is_digit(x[i + 1]) {
            lemma_same_run(x, y, i + 1);
        } else {
            assert(digits_end(x, i + 1) == i + 1);
            assert(digits_end(y, i + 1) == i + 1);
        }
    } else {
        assert(digits_end(x, i + 1) == i + 1);
        assert(digits_end(y, i + 1) == i + 1);
    }
}

} // verus!
