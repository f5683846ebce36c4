//! The mathematical model of the line order.
//!
//! A line is a sequence of bytes; tab bytes separate its fields. Positions are
//! indices into the line, so the model and the cursors of the executable
//! comparator speak of the same numbers.

use vstd::prelude::*;
use std::cmp::Ordering;

verus! {

pub const TAB: u8 = 9;

pub const MINUS: u8 = 45;

pub const DOT: u8 = 46;

pub const ZERO: u8 = 48;

pub const NINE: u8 = 57;

pub open spec fn is_digit(c: u8) -> bool {
    ZERO <= c <= NINE
}

/// The opposite order.
pub open spec fn flip(o: Ordering) -> Ordering {
    match o {
        Ordering::Less => Ordering::Greater,
        Ordering::Equal => Ordering::Equal,
        Ordering::Greater => Ordering::Less,
    }
}

/// Three-way comparison of two integers.
pub open spec fn cmp_int(x: int, y: int) -> Ordering {
    if x < y {
        Ordering::Less
    } else if x > y {
        Ordering::Greater
    } else {
        Ordering::Equal
    }
}

/// Position of the first tab at or after `i`, or the length of `s`: where the
/// field that contains position `i` ends.
pub open spec fn field_end(s: Seq<u8>, i: int) -> int
    decreases s.len() - i,
{
    if i >= s.len() || i < 0 {
        s.len() as int
    } else if s[i] == TAB {
        i
    } else {
        field_end(s, i + 1)
    }
}

/// Position of the first byte at or after `i` that is not `'0'`.
pub open spec fn zeros_end(s: Seq<u8>, i: int) -> int
    decreases s.len() - i,
{
    if 0 <= i < s.len() && s[i] == ZERO {
        zeros_end(s, i + 1)
    } else {
        i
    }
}

/// Position of the first byte at or after `i` that is not a decimal digit.
pub open spec fn digits_end(s: Seq<u8>, i: int) -> int
    decreases s.len() - i,
{
    if 0 <= i < s.len() && is_digit(s[i]) {
        digits_end(s, i + 1)
    } else {
        i
    }
}

/// Lexicographic comparison of `a[i..ea]` with `b[j..eb]`: the first differing
/// byte decides, and a proper prefix is smaller.
pub open spec fn lex(a: Seq<u8>, i: int, ea: int, b: Seq<u8>, j: int, eb: int) -> Ordering
    decreases ea - i,
{
    if i >= ea {
        if j >= eb {
            Ordering::Equal
        } else {
            Ordering::Less
        }
    } else if j >= eb {
        Ordering::Greater
    } else if a[i] < b[j] {
        Ordering::Less
    } else if a[i] > b[j] {
        Ordering::Greater
    } else {
        lex(a, i + 1, ea, b, j + 1, eb)
    }
}

/// Whether byte `k` of `s` is a decimal point.
pub open spec fn dot_at(s: Seq<u8>, k: int) -> bool {
    0 <= k < s.len() && s[k] == DOT
}

/// Whether byte `k` of `s` is a minus sign.
pub open spec fn minus_at(s: Seq<u8>, k: int) -> bool {
    0 <= k < s.len() && s[k] == MINUS
}

/// Comparison of the unsigned parts of two fields, starting at `i` in `a` and
/// `j` in `b`: leading zeros are skipped; a longer run of integer digits is
/// larger; runs of equal length compare digit by digit; then a decimal point
/// directly after the run is larger than anything else there; then the rest of
/// the fields compare lexicographically.
pub open spec fn body_cmp(a: Seq<u8>, i: int, b: Seq<u8>, j: int) -> Ordering {
    let za = zeros_end(a, i);
    let zb = zeros_end(b, j);
    let da = digits_end(a, za);
    let db = digits_end(b, zb);
    if da - za != db - zb {
        cmp_int(da - za, db - zb)
    } else if lex(a, za, da, b, zb, db) != Ordering::Equal {
        lex(a, za, da, b, zb, db)
    } else if dot_at(a, da) != dot_at(b, db) {
        if dot_at(a, da) {
            Ordering::Greater
        } else {
            Ordering::Less
        }
    } else {
        lex(a, da, field_end(a, da), b, db, field_end(b, db))
    }
}

/// Comparison of the fields that start at `i` in `a` and `j` in `b`: a field
/// that starts with `-` is smaller than one that does not; when both do, the
/// order of what follows the signs is inverted.
pub open spec fn field_cmp(a: Seq<u8>, i: int, b: Seq<u8>, j: int) -> Ordering {
    if minus_at(a, i) && minus_at(b, j) {
        flip(body_cmp(a, i + 1, b, j + 1))
    } else if minus_at(a, i) {
        Ordering::Less
    } else if minus_at(b, j) {
        Ordering::Greater
    } else {
        body_cmp(a, i, b, j)
    }
}

/// Comparison of the lines that remain from the field starts `i` in `a` and
/// `j` in `b`: field by field, left to right; when all fields of one line
/// have compared equal and the other line goes on, the longer line is larger,
/// unless the last fields were negative, which inverts that too.
pub open spec fn cmp_from(a: Seq<u8>, i: int, b: Seq<u8>, j: int) -> Ordering
    decreases a.len() - i,
    via cmp_from_decreases
{
    let c = field_cmp(a, i, b, j);
    let ea = field_end(a, i);
    let eb = field_end(b, j);
    if c != Ordering::Equal {
        c
    } else if ea < a.len() && eb < b.len() {
        cmp_from(a, ea + 1, b, eb + 1)
    } else if ea >= a.len() && eb >= b.len() {
        Ordering::Equal
    } else {
        let r = if ea < a.len() {
            Ordering::Greater
        } else {
            Ordering::Less
        };
        if minus_at(a, i) && minus_at(b, j) {
            flip(r)
        } else {
            r
        }
    }
}

#[via_fn]
proof fn cmp_from_decreases(a: Seq<u8>, i: int, b: Seq<u8>, j: int) {
    lemma_field_end_bounds(a, i);
}

/// The order of two whole lines.
#[verifier::opaque]
pub open spec fn line_order(a: Seq<u8>, b: Seq<u8>) -> Ordering {
    cmp_from(a, 0, b, 0)
}

pub proof fn lemma_field_end_bounds(s: Seq<u8>, i: int)
    ensures
        0 <= i <= s.len() ==> i <= field_end(s, i) <= s.len(),
        field_end(s, i) <= s.len(),
        field_end(s, i) < s.len() ==> i <= field_end(s, i),
        field_end(s, i) < s.len() ==> s[field_end(s, i)] == TAB,
    decreases s.len() - i,
{
    if 0 <= i < s.len() && s[i] != TAB {
        lemma_field_end_bounds(s, i + 1);
    }
}

/// Facts about three orders between `x`, `y` and `z`, as a transitive order
/// has them: chains of non-greater steps are non-greater, a strict step makes
/// the chain strict, and equal steps give equal ends.
pub open spec fn chains(xy: Ordering, yz: Ordering, xz: Ordering) -> bool {
    &&& (xy != Ordering::Greater && yz != Ordering::Greater ==> xz != Ordering::Greater)
    &&& (xy == Ordering::Less && yz != Ordering::Greater ==> xz == Ordering::Less)
    &&& (xy != Ordering::Greater && yz == Ordering::Less ==> xz == Ordering::Less)
    &&& (xy == Ordering::Equal && yz == Ordering::Equal ==> xz == Ordering::Equal)
    &&& (xy == Ordering::Greater && yz != Ordering::Less ==> xz == Ordering::Greater)
    &&& (xy != Ordering::Less && yz == Ordering::Greater ==> xz == Ordering::Greater)
    &&& (xy != Ordering::Less && yz != Ordering::Less ==> xz != Ordering::Less)
}

proof fn lemma_lex_antisymmetric(a: Seq<u8>, i: int, ea: int, b: Seq<u8>, j: int, eb: int)
    ensures
        lex(a, i, ea, b, j, eb) == flip(lex(b, j, eb, a, i, ea)),
    decreases ea - i,
{
    if i < ea && j < eb && a[i] == b[j] {
        lemma_lex_antisymmetric(a, i + 1, ea, b, j + 1, eb);
    }
}

proof fn lemma_lex_chains(
    a: Seq<u8>,
    i: int,
    ea: int,
    b: Seq<u8>,
    j: int,
    eb: int,
    c: Seq<u8>,
    k: int,
    ec: int,
)
    ensures
        chains(lex(a, i, ea, b, j, eb), lex(b, j, eb, c, k, ec), lex(a, i, ea, c, k, ec)),
    decreases ea - i,
{
    if i < ea && j < eb && k < ec && a[i] == b[j] && b[j] == c[k] {
        lemma_lex_chains(a, i + 1, ea, b, j + 1, eb, c, k + 1, ec);
    }
}

proof fn lemma_body_antisymmetric(a: Seq<u8>, i: int, b: Seq<u8>, j: int)
    ensures
        body_cmp(a, i, b, j) == flip(body_cmp(b, j, a, i)),
{
    let za = zeros_end(a, i);
    let zb = zeros_end(b, j);
    let da = digits_end(a, za);
    let db = digits_end(b, zb);
    lemma_lex_antisymmetric(a, za, da, b, zb, db);
    lemma_lex_antisymmetric(a, da, field_end(a, da), b, db, field_end(b, db));
}

proof fn lemma_body_chains(a: Seq<u8>, i: int, b: Seq<u8>, j: int, c: Seq<u8>, k: int)
    ensures
        chains(body_cmp(a, i, b, j), body_cmp(b, j, c, k), body_cmp(a, i, c, k)),
{
    let za = zeros_end(a, i);
    let zb = zeros_end(b, j);
    let zc = zeros_end(c, k);
    let da = digits_end(a, za);
    let db = digits_end(b, zb);
    let dc = digits_end(c, zc);
    lemma_lex_chains(a, za, da, b, zb, db, c, zc, dc);
    lemma_lex_chains(a, da, field_end(a, da), b, db, field_end(b, db), c, dc, field_end(c, dc));
}

proof fn lemma_field_antisymmetric(a: Seq<u8>, i: int, b: Seq<u8>, j: int)
    ensures
        field_cmp(a, i, b, j) == flip(field_cmp(b, j, a, i)),
{
    lemma_body_antisymmetric(a, i, b, j);
    lemma_body_antisymmetric(a, i + 1, b, j + 1);
}

proof fn lemma_field_chains(a: Seq<u8>, i: int, b: Seq<u8>, j: int, c: Seq<u8>, k: int)
    ensures
        chains(field_cmp(a, i, b, j), field_cmp(b, j, c, k), field_cmp(a, i, c, k)),
{
    lemma_body_chains(a, i, b, j, c, k);
    lemma_body_chains(a, i + 1, b, j + 1, c, k + 1);
}

proof fn lemma_cmp_from_antisymmetric(a: Seq<u8>, i: int, b: Seq<u8>, j: int)
    ensures
        cmp_from(a, i, b, j) == flip(cmp_from(b, j, a, i)),
    decreases a.len() - i,
{
    lemma_field_antisymmetric(a, i, b, j);
    lemma_field_end_bounds(a, i);
    lemma_field_end_bounds(b, j);
    let ea = field_end(a, i);
    let eb = field_end(b, j);
    if field_cmp(a, i, b, j) == Ordering::Equal && ea < a.len() && eb < b.len() {
        lemma_cmp_from_antisymmetric(a, ea + 1, b, eb + 1);
    }
}

proof fn lemma_cmp_from_chains(a: Seq<u8>, i: int, b: Seq<u8>, j: int, c: Seq<u8>, k: int)
    ensures
        chains(cmp_from(a, i, b, j), cmp_from(b, j, c, k), cmp_from(a, i, c, k)),
    decreases a.len() - i,
{
    lemma_field_chains(a, i, b, j, c, k);
    lemma_field_end_bounds(a, i);
    lemma_field_end_bounds(b, j);
    lemma_field_end_bounds(c, k);
    let ea = field_end(a, i);
    let eb = field_end(b, j);
    let ec = field_end(c, k);
    if field_cmp(a, i, b, j) == Ordering::Equal && field_cmp(b, j, c, k) == Ordering::Equal
        && ea < a.len() && eb < b.len() && ec < c.len() {
        lemma_cmp_from_chains(a, ea + 1, b, eb + 1, c, ec + 1);
    }
}

/// Swapping the two lines gives exactly the opposite order.
pub proof fn lemma_line_order_antisymmetric(a: Seq<u8>, b: Seq<u8>)
    ensures
        line_order(a, b) == flip(line_order(b, a)),
{
    reveal(line_order);
    lemma_cmp_from_antisymmetric(a, 0, b, 0);
}

/// If `a` is not greater than `b` and `b` is not greater than `c`, then `a`
/// is not greater than `c`.
pub proof fn lemma_line_order_transitive(a: Seq<u8>, b: Seq<u8>, c: Seq<u8>)
    requires
        line_order(a, b) != Ordering::Greater,
        line_order(b, c) != Ordering::Greater,
    ensures
        line_order(a, c) != Ordering::Greater,
{
    reveal(line_order);
    lemma_cmp_from_chains(a, 0, b, 0, c, 0);
}

/// The line order is a total preorder: besides the two laws above, a strict
/// step makes a chain strict and lines equal to a common line are equal.
pub proof fn lemma_line_order_chains(a: Seq<u8>, b: Seq<u8>, c: Seq<u8>)
    ensures
        chains(line_order(a, b), line_order(b, c), line_order(a, c)),
{
    reveal(line_order);
    lemma_cmp_from_chains(a, 0, b, 0, c, 0);
}

} // verus!
