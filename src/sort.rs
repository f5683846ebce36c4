//! In-memory sorting of lines under the line order.

use vstd::prelude::*;
use std::cmp::Ordering;
use vstd::utf8::encode_utf8;
use crate::order::{chains, flip, line_order, lemma_line_order_antisymmetric, lemma_line_order_chains};
use crate::compare::tsv_cmp;
use crate::merge::{concat, merge_runs, run_views};

verus! {

broadcast use vstd::seq_lib::group_to_multiset_ensures;

/// The line order on text: the order of the UTF-8 encodings.
#[verifier::opaque]
pub open spec fn text_order(x: Seq<char>, y: Seq<char>) -> Ordering {
    line_order(encode_utf8(x), encode_utf8(y))
}

/// Whether no line of `s` is greater than a line after it.
pub open spec fn sorted(s: Seq<String>) -> bool {
    forall|i: int, j: int| 0 <= i < j < s.len() ==> text_order(#[trigger] s[i]@, #[trigger] s[j]@) != Ordering::Greater
}

/// Whether a line compares equal to `c`.
pub open spec fn equal_pred(c: Seq<char>) -> spec_fn(String) -> bool {
    |y: String| text_order(y@, c) == Ordering::Equal
}

/// The lines of `s` that compare equal to `c`, in their order in `s`.
pub open spec fn equal_to(s: Seq<String>, c: Seq<char>) -> Seq<String> {
    s.filter(equal_pred(c))
}

/// Whether the lines of `out` that compare equal to one another stand in
/// the same relative order as in `inp`, for every class of equal lines.
pub open spec fn keeps_equal_order(out: Seq<String>, inp: Seq<String>) -> bool {
    forall|c: Seq<char>| #[trigger] equal_to(out, c) == equal_to(inp, c)
}

/// Whether each line of `s` is not greater than the next one.
pub open spec fn adjacent_sorted(s: Seq<String>) -> bool {
    forall|i: int|
        #![trigger text_order(s[i]@, s[i + 1]@)]
        0 <= i < s.len() - 1 ==> text_order(s[i]@, s[i + 1]@) != Ordering::Greater
}

pub proof fn lemma_text_order_antisymmetric(x: Seq<char>, y: Seq<char>)
    ensures
        text_order(x, y) == flip(text_order(y, x)),
{
    reveal(text_order);
    lemma_line_order_antisymmetric(encode_utf8(x), encode_utf8(y));
}

pub proof fn lemma_text_order_chains(x: Seq<char>, y: Seq<char>, z: Seq<char>)
    ensures
        chains(text_order(x, y), text_order(y, z), text_order(x, z)),
{
    reveal(text_order);
    lemma_line_order_chains(encode_utf8(x), encode_utf8(y), encode_utf8(z));
}

proof fn lemma_equal_to_prepend(s: Seq<String>, c: Seq<char>)
    requires
        s.len() > 0,
    ensures
        equal_to(s, c) == (if text_order(s[0]@, c) == Ordering::Equal {
            seq![s[0]] + equal_to(s.drop_first(), c)
        } else {
            equal_to(s.drop_first(), c)
        }),
{
    assert(s =~= seq![s[0]] + s.drop_first());
    s.drop_first().lemma_filter_prepend(s[0], equal_pred(c));
}

proof fn lemma_equal_to_nonempty(s: Seq<String>)
    requires
        s.len() > 0,
    ensures
        equal_to(s, s[0]@).len() > 0,
        equal_to(s, s[0]@)[0] == s[0],
{
    lemma_text_order_antisymmetric(s[0]@, s[0]@);
    lemma_equal_to_prepend(s, s[0]@);
}

/// The first lines of two sorted sequences with the same lines equal to each
/// line, in the same order, are the same.
proof fn lemma_sorted_same_first(a: Seq<String>, b: Seq<String>)
    requires
        a.len() > 0,
        b.len() > 0,
        sorted(a),
        sorted(b),
        equal_to(a, a[0]@) == equal_to(b, a[0]@),
        equal_to(a, b[0]@) == equal_to(b, b[0]@),
    ensures
        a[0] == b[0],
{
    let x = a[0];
    let y = b[0];
    lemma_equal_to_nonempty(a);
    lemma_equal_to_nonempty(b);
    assert(equal_to(b, x@).contains(x));
    b.lemma_filter_contains_rev(equal_pred(x@), x);
    let j = choose|j: int| 0 <= j < b.len() && b[j] == x;
    assert(equal_to(a, y@).contains(y));
    a.lemma_filter_contains_rev(equal_pred(y@), y);
    let i = choose|i: int| 0 <= i < a.len() && a[i] == y;
    if j > 0 {
        assert(text_order(b[0]@, b[j]@) != Ordering::Greater);
    }
    if i > 0 {
        assert(text_order(a[0]@, a[i]@) != Ordering::Greater);
    }
    lemma_text_order_antisymmetric(x@, y@);
    lemma_text_order_antisymmetric(x@, x@);
    lemma_text_order_antisymmetric(y@, y@);
    lemma_equal_to_prepend(b, x@);
}

/// Two sorted sequences that hold the same lines equal to each line, in the
/// same order, are the same sequence: a sorted order that keeps the order of
/// equal lines is unique.
pub proof fn lemma_sorted_unique(a: Seq<String>, b: Seq<String>)
    requires
        sorted(a),
        sorted(b),
        forall|c: Seq<char>| #[trigger] equal_to(a, c) == equal_to(b, c),
    ensures
        a == b,
    decreases a.len(),
{
    if a.len() == 0 && b.len() == 0 {
        assert(a =~= b);
    } else if a.len() == 0 {
        lemma_equal_to_nonempty(b);
        lemma_filter_none(a, equal_pred(b[0]@));
        assert(equal_to(a, b[0]@) == equal_to(b, b[0]@));
    } else if b.len() == 0 {
        lemma_equal_to_nonempty(a);
        lemma_filter_none(b, equal_pred(a[0]@));
        assert(equal_to(a, a[0]@) == equal_to(b, a[0]@));
    } else {
        assert(equal_to(a, a[0]@) == equal_to(b, a[0]@));
        assert(equal_to(a, b[0]@) == equal_to(b, b[0]@));
        lemma_sorted_same_first(a, b);
        let x = a[0];
        let a1 = a.drop_first();
        let b1 = b.drop_first();
        assert forall|c: Seq<char>| #[trigger] equal_to(a1, c) == equal_to(b1, c) by {
            lemma_equal_to_prepend(a, c);
            lemma_equal_to_prepend(b, c);
            assert(equal_to(a, c) == equal_to(b, c));
            if text_order(x@, c) == Ordering::Equal {
                assert(equal_to(a1, c) =~= equal_to(a, c).drop_first());
                assert(equal_to(b1, c) =~= equal_to(b, c).drop_first());
            }
        }
        assert(sorted(a1));
        assert(sorted(b1));
        lemma_sorted_unique(a1, b1);
        assert(a =~= seq![x] + a1);
        assert(b =~= seq![x] + b1);
    }
}

/// Filtering a sequence in which no element passes gives nothing.
pub proof fn lemma_filter_none(s: Seq<String>, p: spec_fn(String) -> bool)
    requires
        forall|i: int| 0 <= i < s.len() ==> !p(#[trigger] s[i]),
    ensures
        s.filter(p) == Seq::<String>::empty(),
    decreases s.len(),
{
    reveal(Seq::filter);
    if s.len() > 0 {
        lemma_filter_none(s.drop_last(), p);
    }
}

/// A sequence whose neighbours are in order is sorted.
pub proof fn lemma_adjacent_sorted(s: Seq<String>)
    requires
        adjacent_sorted(s),
    ensures
        sorted(s),
{
    assert forall|i: int, j: int| 0 <= i < j < s.len() implies text_order(
        #[trigger] s[i]@,
        #[trigger] s[j]@,
    ) != Ordering::Greater by {
        lemma_adjacent_sorted_from(s, i, j);
    }
}

proof fn lemma_adjacent_sorted_from(s: Seq<String>, i: int, j: int)
    requires
        adjacent_sorted(s),
        0 <= i < j < s.len(),
    ensures
        text_order(s[i]@, s[j]@) != Ordering::Greater,
    decreases j - i,
{
    assert(text_order(s[i]@, s[i + 1]@) != Ordering::Greater);
    if i + 1 < j {
        lemma_adjacent_sorted_from(s, i + 1, j);
        lemma_text_order_chains(s[i]@, s[i + 1]@, s[j]@);
    }
}

/// Compares two lines as text.
pub fn text_cmp(x: &String, y: &String) -> (r: Ordering)
    ensures
        r == text_order(x@, y@),
{
    reveal(text_order);
    tsv_cmp(x.as_str(), y.as_str())
}

/// Sorts lines by the line order. Lines that compare equal keep their
/// relative order, so lines that are already sorted come back unchanged.
pub fn sort_lines(lines: Vec<String>) -> (r: Vec<String>)
    ensures
        r@.to_multiset() == lines@.to_multiset(),
        sorted(r@),
        keeps_equal_order(r@, lines@),
        adjacent_sorted(lines@) ==> r@ == lines@,
    decreases lines@.len(),
{
    broadcast use vstd::seq_lib::lemma_multiset_commutative;
    broadcast use vstd::seq::Seq::filter_distributes_over_add;

    let ghost input = lines@;
    let mut left = lines;
    let n = left.len();
    if n <= 1 {
        proof {
            if adjacent_sorted(input) {
                lemma_adjacent_sorted(input);
            }
        }
        return left;
    }
    let right = left.split_off(n / 2);
    let ghost lv = left@;
    let ghost rv = right@;
    proof {
        assert(input =~= lv + rv);
    }
    let a = sort_lines(left);
    let b = sort_lines(right);
    let ghost a_view = a@;
    let ghost b_view = b@;
    let mut runs: Vec<Vec<String>> = Vec::new();
    runs.push(a);
    runs.push(b);
    proof {
        let w = run_views(runs@);
        assert(w.drop_last().drop_last() =~= Seq::<Seq<String>>::empty());
        assert(concat(w.drop_last().drop_last()) == Seq::<String>::empty());
        assert(w.drop_last().last() == a_view);
        assert(w.last() == b_view);
        assert(concat(w.drop_last()) =~= a_view);
        assert(concat(w) == a_view + b_view);
    }
    let r = merge_runs(runs);
    proof {
        assert forall|c: Seq<char>| #[trigger] equal_to(r@, c) == equal_to(input, c) by {
            assert(equal_to(r@, c) == equal_to(a_view + b_view, c));
            assert(equal_to(a_view, c) == equal_to(lv, c));
            assert(equal_to(b_view, c) == equal_to(rv, c));
            assert(equal_to(lv + rv, c) == equal_to(lv, c) + equal_to(rv, c));
        }
        if adjacent_sorted(input) {
            lemma_adjacent_sorted(input);
            lemma_sorted_unique(r@, input);
        }
    }
    r
}

} // verus!
