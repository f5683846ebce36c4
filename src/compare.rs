//! The executable line comparator: two forward cursors, one per line, moved
//! through the stages of each field (sign, leading zeros, integer digits,
//! decimal point, remaining text).

use vstd::prelude::*;
use std::cmp::Ordering;
use vstd::string::StringSliceAdditionalSpecFns;
use crate::order::{
    body_cmp, cmp_from, cmp_int, field_cmp, field_end, lemma_field_end_bounds, lex, line_order,
    digits_end, zeros_end, is_digit, DOT, MINUS, NINE, TAB, ZERO,
};

verus! {

/// Extending two equally long ranges by one byte each keeps an order already
/// decided and otherwise lets the new bytes decide.
proof fn lemma_lex_extend(a: Seq<u8>, i: int, e: int, b: Seq<u8>, j: int, f: int)
    requires
        0 <= i <= e < a.len(),
        0 <= j <= f < b.len(),
        e - i == f - j,
    ensures
        lex(a, i, e + 1, b, j, f + 1) == (if lex(a, i, e, b, j, f) != Ordering::Equal {
            lex(a, i, e, b, j, f)
        } else {
            cmp_int(a[e] as int, b[f] as int)
        }),
    decreases e - i,
{
    if i < e {
        lemma_lex_extend(a, i + 1, e, b, j + 1, f);
    } else {
        assert(lex(a, i + 1, e + 1, b, j + 1, f + 1) == Ordering::Equal);
    }
}

fn cmp_bytes(x: u8, y: u8) -> (r: Ordering)
    ensures
        r == cmp_int(x as int, y as int),
{
    if x < y {
        Ordering::Less
    } else if x > y {
        Ordering::Greater
    } else {
        Ordering::Equal
    }
}

fn is_equal(o: Ordering) -> (r: bool)
    ensures
        r == (o == Ordering::Equal),
{
    match o {
        Ordering::Equal => true,
        _ => false,
    }
}

/// Skips the `'0'` bytes at `i`.
fn skip_zeros(s: &[u8], i: usize) -> (r: usize)
    requires
        i <= s@.len(),
    ensures
        r == zeros_end(s@, i as int),
        i <= r <= s@.len(),
        field_end(s@, i as int) == field_end(s@, r as int),
{
    let mut k = i;
    while k < s.len() && s[k] == ZERO
        invariant
            i <= k <= s@.len(),
            zeros_end(s@, i as int) == zeros_end(s@, k as int),
            field_end(s@, i as int) == field_end(s@, k as int),
        decreases s@.len() - k,
    {
        k = k + 1;
    }
    k
}

/// Compares `a[x..]` with `b[y..]` up to the ends of their fields.
/// When they are equal, also returns where the fields end.
fn compare_rest(a: &[u8], x0: usize, b: &[u8], y0: usize) -> (r: (Ordering, usize, usize))
    requires
        x0 <= a@.len(),
        y0 <= b@.len(),
    ensures
        r.0 == lex(a@, x0 as int, field_end(a@, x0 as int), b@, y0 as int, field_end(b@, y0 as int)),
        r.0 == Ordering::Equal ==> r.1 == field_end(a@, x0 as int) && r.2 == field_end(b@, y0 as int),
{
    let ghost fa = field_end(a@, x0 as int);
    let ghost fb = field_end(b@, y0 as int);
    let mut x = x0;
    let mut y = y0;
    while x < a.len() && a[x] != TAB && y < b.len() && b[y] != TAB && a[x] == b[y]
        invariant
            x0 <= x <= a@.len(),
            y0 <= y <= b@.len(),
            fa == field_end(a@, x as int),
            fb == field_end(b@, y as int),
            lex(a@, x0 as int, fa, b@, y0 as int, fb) == lex(a@, x as int, fa, b@, y as int, fb),
        decreases a@.len() - x,
    {
        proof {
            lemma_field_end_bounds(a@, x as int + 1);
            lemma_field_end_bounds(b@, y as int + 1);
        }
        x = x + 1;
        y = y + 1;
    }
    proof {
        lemma_field_end_bounds(a@, x as int);
        lemma_field_end_bounds(b@, y as int);
        if x < a@.len() && a@[x as int] != TAB {
            lemma_field_end_bounds(a@, x as int + 1);
        }
        if y < b@.len() && b@[y as int] != TAB {
            lemma_field_end_bounds(b@, y as int + 1);
        }
    }
    let end_a = x >= a.len() || a[x] == TAB;
    let end_b = y >= b.len() || b[y] == TAB;
    if end_a && end_b {
        (Ordering::Equal, x, y)
    } else if end_a {
        (Ordering::Less, x, y)
    } else if end_b {
        (Ordering::Greater, x, y)
    } else {
        (cmp_bytes(a[x], b[y]), x, y)
    }
}

/// Compares the unsigned parts of the fields at `i` in `a` and `j` in `b`.
fn compare_body(a: &[u8], i: usize, b: &[u8], j: usize) -> (r: (Ordering, usize, usize))
    requires
        i <= a@.len(),
        j <= b@.len(),
    ensures
        r.0 == body_cmp(a@, i as int, b@, j as int),
        r.0 == Ordering::Equal ==> r.1 == field_end(a@, i as int) && r.2 == field_end(b@, j as int),
{
    let za = skip_zeros(a, i);
    let zb = skip_zeros(b, j);
    let mut x = za;
    let mut y = zb;
    let mut d = Ordering::Equal;
    while x < a.len() && y < b.len() && ZERO <= a[x] && a[x] <= NINE && ZERO <= b[y] && b[y] <= NINE
        invariant
            za <= x <= a@.len(),
            zb <= y <= b@.len(),
            x - za == y - zb,
            digits_end(a@, za as int) == digits_end(a@, x as int),
            digits_end(b@, zb as int) == digits_end(b@, y as int),
            field_end(a@, i as int) == field_end(a@, x as int),
            field_end(b@, j as int) == field_end(b@, y as int),
            d == lex(a@, za as int, x as int, b@, zb as int, y as int),
        decreases a@.len() - x,
    {
        proof {
            lemma_lex_extend(a@, za as int, x as int, b@, zb as int, y as int);
        }
        if is_equal(d) {
            d = cmp_bytes(a[x], b[y]);
        }
        x = x + 1;
        y = y + 1;
    }
    let more_a = x < a.len() && ZERO <= a[x] && a[x] <= NINE;
    let more_b = y < b.len() && ZERO <= b[y] && b[y] <= NINE;
    if more_a {
        proof {
            lemma_digits_end_bounds(a@, x as int + 1);
        }
        return (Ordering::Greater, x, y);
    }
    if more_b {
        proof {
            lemma_digits_end_bounds(b@, y as int + 1);
        }
        return (Ordering::Less, x, y);
    }
    if !is_equal(d) {
        return (d, x, y);
    }
    let dot_a = x < a.len() && a[x] == DOT;
    let dot_b = y < b.len() && b[y] == DOT;
    if dot_a && !dot_b {
        return (Ordering::Greater, x, y);
    }
    if dot_b && !dot_a {
        return (Ordering::Less, x, y);
    }
    compare_rest(a, x, b, y)
}

proof fn lemma_digits_end_bounds(s: Seq<u8>, i: int)
    ensures
        digits_end(s, i) >= i,
    decreases s.len() - i,
{
    if 0 <= i < s.len() && is_digit(s[i]) {
        lemma_digits_end_bounds(s, i + 1);
    }
}

/// Compares the fields that start at `i` in `a` and `j` in `b`.
fn compare_field(a: &[u8], i: usize, b: &[u8], j: usize) -> (r: (Ordering, usize, usize))
    requires
        i <= a@.len(),
        j <= b@.len(),
    ensures
        r.0 == field_cmp(a@, i as int, b@, j as int),
        r.0 == Ordering::Equal ==> r.1 == field_end(a@, i as int) && r.2 == field_end(b@, j as int),
{
    let neg_a = i < a.len() && a[i] == MINUS;
    let neg_b = j < b.len() && b[j] == MINUS;
    if neg_a && neg_b {
        let (c, ea, eb) = compare_body(a, i + 1, b, j + 1);
        let f = match c {
            Ordering::Less => Ordering::Greater,
            Ordering::Equal => Ordering::Equal,
            Ordering::Greater => Ordering::Less,
        };
        (f, ea, eb)
    } else if neg_a {
        (Ordering::Less, i, j)
    } else if neg_b {
        (Ordering::Greater, i, j)
    } else {
        compare_body(a, i, b, j)
    }
}

/// Compares two lines, given as bytes, in the line order.
pub fn compare_lines(a: &[u8], b: &[u8]) -> (r: Ordering)
    ensures
        r == line_order(a@, b@),
{
    reveal(line_order);
    let mut i: usize = 0;
    let mut j: usize = 0;
    loop
        invariant
            i <= a@.len(),
            j <= b@.len(),
            line_order(a@, b@) == cmp_from(a@, i as int, b@, j as int),
        decreases a@.len() - i,
    {
        let (c, ea, eb) = compare_field(a, i, b, j);
        if !is_equal(c) {
            return c;
        }
        proof {
            lemma_field_end_bounds(a@, i as int);
            lemma_field_end_bounds(b@, j as int);
        }
        let more_a = ea < a.len();
        let more_b = eb < b.len();
        if more_a && more_b {
            i = ea + 1;
            j = eb + 1;
        } else if !more_a && !more_b {
            return Ordering::Equal;
        } else {
            let neg = i < a.len() && a[i] == MINUS && j < b.len() && b[j] == MINUS;
            if more_a != neg {
                return Ordering::Greater;
            } else {
                return Ordering::Less;
            }
        }
    }
}

/// Compares two tab-delimited lines, treating the numbers in their fields as
/// numbers.
pub fn tsv_cmp(l1: &str, l2: &str) -> (r: Ordering)
    ensures
        r == line_order(l1.spec_bytes(), l2.spec_bytes()),
{
    compare_lines(l1.as_bytes(), l2.as_bytes())
}

/// The line order as an integer: -1, 0 or 1.
pub fn linecomp(l1: &str, l2: &str) -> (r: i8)
    ensures
        r == (match line_order(l1.spec_bytes(), l2.spec_bytes()) {
            Ordering::Less => -1i8,
            Ordering::Equal => 0i8,
            Ordering::Greater => 1i8,
        }),
{
    match tsv_cmp(l1, l2) {
        Ordering::Less => -1,
        Ordering::Equal => 0,
        Ordering::Greater => 1,
    }
}

} // verus!
