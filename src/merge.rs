//! The merge engine: repeatedly takes the smallest head among sorted runs.
//! Among heads that compare equal, the run with the lowest index goes first,
//! so the merged order is a function of the runs alone.

use vstd::prelude::*;
use std::cmp::Ordering;
use vstd::multiset::Multiset;
use crate::sort::{
    equal_pred, equal_to, keeps_equal_order, lemma_filter_none, lemma_text_order_antisymmetric,
    lemma_text_order_chains, sorted, text_cmp, text_order,
};

verus! {

broadcast use vstd::seq_lib::group_to_multiset_ensures;

/// Whether run `k` holds the head to take next: it has a head, no head is
/// smaller, and every run before it has a strictly greater head or none.
pub open spec fn is_next_run(heads: Seq<Option<String>>, k: int) -> bool {
    &&& 0 <= k < heads.len()
    &&& heads[k] is Some
    &&& forall|m: int|
        0 <= m < heads.len() && #[trigger] heads[m] is Some ==> text_order(heads[k]->0@, heads[m]->0@)
            != Ordering::Greater
    &&& forall|m: int|
        0 <= m < k && #[trigger] heads[m] is Some ==> text_order(heads[m]->0@, heads[k]->0@)
            == Ordering::Greater
}

/// At most one run holds the head to take next: the choice of each merge step
/// is a function of the heads.
pub proof fn lemma_next_run_unique(heads: Seq<Option<String>>, k1: int, k2: int)
    requires
        is_next_run(heads, k1),
        is_next_run(heads, k2),
    ensures
        k1 == k2,
{
    if k1 < k2 {
        assert(heads[k1] is Some);
    } else if k2 < k1 {
        assert(heads[k2] is Some);
    }
}

/// Picks the run whose head comes next, or `None` when every run is done.
pub fn pick_run(heads: &Vec<Option<String>>) -> (r: Option<usize>)
    ensures
        r is None <==> (forall|m: int| 0 <= m < heads@.len() ==> #[trigger] heads@[m] is None),
        r matches Some(k) ==> is_next_run(heads@, k as int),
{
    let mut best: Option<usize> = None;
    let mut m: usize = 0;
    while m < heads.len()
        invariant
            m <= heads@.len(),
            best is None <==> (forall|p: int| 0 <= p < m ==> #[trigger] heads@[p] is None),
            best matches Some(k) ==> {
                &&& k < m
                &&& heads@[k as int] is Some
                &&& forall|p: int|
                    0 <= p < m && #[trigger] heads@[p] is Some ==> text_order(
                        heads@[k as int]->0@,
                        heads@[p]->0@,
                    ) != Ordering::Greater
                &&& forall|p: int|
                    0 <= p < k && #[trigger] heads@[p] is Some ==> text_order(
                        heads@[p]->0@,
                        heads@[k as int]->0@,
                    ) == Ordering::Greater
            },
        decreases heads@.len() - m,
    {
        if let Some(line) = &heads[m] {
            proof {
                lemma_text_order_antisymmetric(line@, line@);
            }
            match best {
                None => {
                    best = Some(m);
                },
                Some(k) => {
                    let c = match &heads[k] {
                        Some(cur) => text_cmp(line, cur),
                        None => Ordering::Greater,
                    };
                    let ghost hk = heads@[k as int]->0@;
                    proof {
                        lemma_text_order_antisymmetric(line@, hk);
                    }
                    if matches!(c, Ordering::Less) {
                        proof {
                            assert forall|p: int|
                                0 <= p < m + 1 && #[trigger] heads@[p] is Some implies text_order(
                                line@,
                                heads@[p]->0@,
                            ) != Ordering::Greater by {
                                lemma_text_order_chains(line@, hk, heads@[p]->0@);
                            }
                            assert forall|p: int|
                                0 <= p < m && #[trigger] heads@[p] is Some implies text_order(
                                heads@[p]->0@,
                                line@,
                            ) == Ordering::Greater by {
                                lemma_text_order_chains(line@, hk, heads@[p]->0@);
                                lemma_text_order_antisymmetric(line@, heads@[p]->0@);
                            }
                        }
                        best = Some(m);
                    }
                },
            }
        }
        m = m + 1;
    }
    best
}

/// All lines of the runs, run after run.
pub open spec fn concat(runs: Seq<Seq<String>>) -> Seq<String>
    decreases runs.len(),
{
    if runs.len() == 0 {
        Seq::empty()
    } else {
        concat(runs.drop_last()) + runs.last()
    }
}

/// The contents of the runs of `runs`.
pub open spec fn run_views(runs: Seq<Vec<String>>) -> Seq<Seq<String>> {
    runs.map_values(|v: Vec<String>| v@)
}

proof fn lemma_concat_take_head(rem: Seq<Seq<String>>, k: int)
    requires
        0 <= k < rem.len(),
        rem[k].len() > 0,
    ensures
        concat(rem).to_multiset() == concat(rem.update(k, rem[k].drop_first())).to_multiset().insert(
            rem[k][0],
        ),
    decreases rem.len(),
{
    broadcast use vstd::seq_lib::lemma_multiset_commutative;
    broadcast use vstd::multiset::group_multiset_axioms;

    let upd = rem.update(k, rem[k].drop_first());
    let s = rem[k];
    assert(s =~= seq![s[0]] + s.drop_first());
    if k == rem.len() - 1 {
        assert(upd.drop_last() =~= rem.drop_last());
        assert(concat(upd) == concat(rem.drop_last()) + s.drop_first());
        assert(concat(rem).to_multiset() =~= concat(upd).to_multiset().insert(s[0]));
    } else {
        lemma_concat_take_head(rem.drop_last(), k);
        assert(upd.drop_last() =~= rem.drop_last().update(k, s.drop_first()));
        assert(upd.last() == rem.last());
        assert(concat(rem).to_multiset() =~= concat(upd).to_multiset().insert(s[0]));
    }
}

proof fn lemma_concat_empty(rem: Seq<Seq<String>>)
    requires
        forall|r: int| 0 <= r < rem.len() ==> (#[trigger] rem[r]).len() == 0,
    ensures
        concat(rem).len() == 0,
    decreases rem.len(),
{
    if rem.len() > 0 {
        lemma_concat_empty(rem.drop_last());
    }
}

proof fn lemma_concat_len(rem: Seq<Seq<String>>, k: int)
    requires
        0 <= k < rem.len(),
    ensures
        concat(rem).len() >= rem[k].len(),
        concat(rem.update(k, rem[k].drop_first())).len() == concat(rem).len() - 1 || rem[k].len() == 0,
    decreases rem.len(),
{
    let upd = rem.update(k, rem[k].drop_first());
    if k < rem.len() - 1 {
        lemma_concat_len(rem.drop_last(), k);
        assert(upd.drop_last() =~= rem.drop_last().update(k, rem[k].drop_first()));
    } else {
        assert(upd.drop_last() =~= rem.drop_last());
    }
}

proof fn lemma_concat_member(rem: Seq<Seq<String>>, i: int)
    requires
        0 <= i < concat(rem).len(),
    ensures
        exists|r: int, q: int| 0 <= r < rem.len() && 0 <= q < rem[r].len() && concat(rem)[i] == rem[r][q],
    decreases rem.len(),
{
    let front = concat(rem.drop_last());
    if i < front.len() {
        lemma_concat_member(rem.drop_last(), i);
        let (r, q) = choose|r: int, q: int|
            0 <= r < rem.drop_last().len() && 0 <= q < rem.drop_last()[r].len() && front[i]
                == rem.drop_last()[r][q];
        assert(rem[r] == rem.drop_last()[r]);
    } else {
        assert(concat(rem)[i] == rem[rem.len() - 1][i - front.len()]);
    }
}

proof fn lemma_concat_split(rem: Seq<Seq<String>>, k: int)
    requires
        0 <= k < rem.len(),
    ensures
        concat(rem) == concat(rem.take(k)) + rem[k] + concat(rem.skip(k + 1)),
    decreases rem.len(),
{
    if k == rem.len() - 1 {
        assert(rem.take(k) =~= rem.drop_last());
        assert(rem.skip(k + 1) =~= Seq::<Seq<String>>::empty());
        assert(concat(rem) =~= concat(rem.take(k)) + rem[k] + concat(rem.skip(k + 1)));
    } else {
        lemma_concat_split(rem.drop_last(), k);
        assert(rem.drop_last().take(k) =~= rem.take(k));
        assert(rem.skip(k + 1).drop_last() =~= rem.drop_last().skip(k + 1));
        assert(rem.skip(k + 1).last() == rem.last());
        assert(concat(rem) =~= concat(rem.take(k)) + rem[k] + concat(rem.skip(k + 1)));
    }
}

/// Taking the head of run `k`, when every line of the runs before it is
/// greater than that head, moves the head to the end of the taken lines
/// without changing the order of equal lines.
proof fn lemma_take_head_keeps_equal_order(
    rem: Seq<Seq<String>>,
    k: int,
    out: Seq<String>,
    whole: Seq<String>,
)
    requires
        0 <= k < rem.len(),
        rem[k].len() > 0,
        forall|r: int, q: int|
            0 <= r < k && 0 <= q < rem[r].len() ==> text_order(#[trigger] rem[r][q]@, rem[k][0]@)
                == Ordering::Greater,
        forall|c: Seq<char>| #[trigger] equal_to(out, c) + equal_to(concat(rem), c) == equal_to(whole, c),
    ensures
        forall|c: Seq<char>|
            #[trigger] equal_to(out.push(rem[k][0]), c) + equal_to(
                concat(rem.update(k, rem[k].drop_first())),
                c,
            ) == equal_to(whole, c),
{
    broadcast use vstd::seq::Seq::filter_distributes_over_add;
    broadcast use vstd::seq::Seq::lemma_filter_push;

    let x = rem[k][0];
    let upd = rem.update(k, rem[k].drop_first());
    lemma_concat_split(rem, k);
    lemma_concat_split(upd, k);
    assert(upd.take(k) =~= rem.take(k));
    assert(upd.skip(k + 1) =~= rem.skip(k + 1));
    let front = concat(rem.take(k));
    let back = concat(rem.skip(k + 1));
    assert(rem[k] =~= seq![x] + rem[k].drop_first());
    assert forall|c: Seq<char>| #[trigger] equal_to(out.push(x), c) + equal_to(concat(upd), c) == equal_to(
        whole,
        c,
    ) by {
        let p = equal_pred(c);
        assert(equal_to(out, c) + equal_to(concat(rem), c) == equal_to(whole, c));
        rem[k].drop_first().lemma_filter_prepend(x, p);
        if p(x) {
            assert forall|i: int| 0 <= i < front.len() implies !p(#[trigger] front[i]) by {
                lemma_concat_member(rem.take(k), i);
                let (r, q) = choose|r: int, q: int|
                    0 <= r < rem.take(k).len() && 0 <= q < rem.take(k)[r].len() && front[i]
                        == rem.take(k)[r][q];
                assert(rem.take(k)[r] == rem[r]);
                assert(text_order(rem[r][q]@, x@) == Ordering::Greater);
                lemma_text_order_chains(rem[r][q]@, c, x@);
                lemma_text_order_antisymmetric(x@, c);
            }
            lemma_filter_none(front, p);
            assert(equal_to(out.push(x), c) == equal_to(out, c).push(x));
            assert(equal_to(concat(rem), c) == front.filter(p) + (seq![x] + rem[k].drop_first().filter(p))
                + back.filter(p));
            assert(equal_to(concat(upd), c) == front.filter(p) + rem[k].drop_first().filter(p)
                + back.filter(p));
            assert(equal_to(out.push(x), c) + equal_to(concat(upd), c) =~= equal_to(out, c) + equal_to(
                concat(rem),
                c,
            ));
        } else {
            assert(equal_to(out.push(x), c) == equal_to(out, c));
            assert(equal_to(concat(rem), c) == front.filter(p) + rem[k].drop_first().filter(p)
                + back.filter(p));
            assert(equal_to(concat(upd), c) == front.filter(p) + rem[k].drop_first().filter(p)
                + back.filter(p));
        }
    }
}

/// Merges sorted runs into one sorted sequence of all their lines.
pub fn merge_runs(runs: Vec<Vec<String>>) -> (r: Vec<String>)
    requires
        forall|i: int| 0 <= i < runs@.len() ==> sorted(#[trigger] runs@[i]@),
    ensures
        r@.to_multiset() == concat(run_views(runs@)).to_multiset(),
        sorted(r@),
        keeps_equal_order(r@, concat(run_views(runs@))),
{
    let ghost all = run_views(runs@);
    let mut heads: Vec<Option<String>> = Vec::new();
    let mut pos: Vec<usize> = Vec::new();
    let mut i: usize = 0;
    while i < runs.len()
        invariant
            i <= runs@.len(),
            heads@.len() == i,
            pos@.len() == i,
            forall|r: int| 0 <= r < i ==> #[trigger] pos@[r] == 0,
            forall|r: int|
                0 <= r < i ==> #[trigger] heads@[r] == (if runs@[r]@.len() > 0 {
                    Some(runs@[r]@[0])
                } else {
                    None
                }),
        decreases runs@.len() - i,
    {
        if runs[i].len() > 0 {
            heads.push(Some(runs[i][0].clone()));
        } else {
            heads.push(None);
        }
        pos.push(0);
        i = i + 1;
    }
    let mut out: Vec<String> = Vec::new();
    let ghost mut rem: Seq<Seq<String>> = all;
    proof {
        assert forall|c: Seq<char>| #[trigger] equal_to(out@, c) + equal_to(concat(rem), c) == equal_to(
            concat(all),
            c,
        ) by {
            lemma_filter_none(out@, equal_pred(c));
            assert(Seq::<String>::empty() + equal_to(concat(rem), c) =~= equal_to(concat(rem), c));
        }
        assert forall|r: int| 0 <= r < rem.len() implies #[trigger] rem[r] == runs@[r]@.skip(0) by {
            assert(runs@[r]@.skip(0) =~= runs@[r]@);
        }
    }
    loop
        invariant
            heads@.len() == runs@.len(),
            pos@.len() == runs@.len(),
            rem.len() == runs@.len(),
            all == run_views(runs@),
            forall|r: int| 0 <= r < runs@.len() ==> sorted(#[trigger] runs@[r]@),
            forall|r: int| 0 <= r < rem.len() ==> #[trigger] pos@[r] <= runs@[r]@.len(),
            forall|r: int| 0 <= r < rem.len() ==> #[trigger] rem[r] == runs@[r]@.skip(pos@[r] as int),
            forall|r: int|
                0 <= r < rem.len() ==> #[trigger] heads@[r] == (if rem[r].len() > 0 {
                    Some(rem[r][0])
                } else {
                    None
                }),
            out@.to_multiset().add(concat(rem).to_multiset()) == concat(all).to_multiset(),
            sorted(out@),
            forall|c: Seq<char>| #[trigger] equal_to(out@, c) + equal_to(concat(rem), c) == equal_to(
                concat(all),
                c,
            ),
            out@.len() > 0 ==> forall|r: int, q: int|
                0 <= r < rem.len() && 0 <= q < rem[r].len() ==> text_order(
                    out@.last()@,
                    #[trigger] rem[r][q]@,
                ) != Ordering::Greater,
        ensures
            out@.to_multiset() == concat(all).to_multiset(),
            sorted(out@),
            keeps_equal_order(out@, concat(all)),
        decreases concat(rem).len(),
    {
        let pick = pick_run(&heads);
        match pick {
            None => {
                proof {
                    assert forall|r: int| 0 <= r < rem.len() implies (#[trigger] rem[r]).len() == 0 by {
                        assert(heads@[r] is None);
                    }
                    lemma_concat_empty(rem);
                    assert(concat(rem).to_multiset() =~= Multiset::empty());
                    assert(out@.to_multiset().add(Multiset::empty()) =~= out@.to_multiset());
                    assert(out@.to_multiset() == concat(all).to_multiset());
                    assert forall|c: Seq<char>| #[trigger] equal_to(out@, c) == equal_to(concat(all), c) by {
                        assert(equal_to(out@, c) + equal_to(concat(rem), c) == equal_to(concat(all), c));
                        lemma_filter_none(concat(rem), equal_pred(c));
                        assert(equal_to(out@, c) + Seq::<String>::empty() =~= equal_to(out@, c));
                    }
                }
                break;
            },
            Some(k) => {
                let x = match &heads[k] {
                    Some(line) => line.clone(),
                    None => String::new(),
                };
                let ghost old_rem = rem;
                let ghost old_out = out@;
                let ghost old_pos = pos@;
                proof {
                    assert(heads@[k as int] is Some);
                    assert(x == rem[k as int][0]);
                    assert forall|r: int, q: int|
                        0 <= r < k && 0 <= q < rem[r].len() implies text_order(
                        #[trigger] rem[r][q]@,
                        rem[k as int][0]@,
                    ) == Ordering::Greater by {
                        assert(heads@[r] is Some);
                        let h = rem[r][0];
                        if q > 0 {
                            assert(runs@[r]@[pos@[r] as int] == h);
                            assert(runs@[r]@[pos@[r] + q] == rem[r][q]);
                            assert(sorted(runs@[r]@));
                            assert(text_order(h@, rem[r][q]@) != Ordering::Greater);
                            lemma_text_order_antisymmetric(h@, x@);
                            lemma_text_order_chains(x@, h@, rem[r][q]@);
                            lemma_text_order_antisymmetric(rem[r][q]@, x@);
                        }
                    }
                    lemma_take_head_keeps_equal_order(rem, k as int, out@, concat(all));
                    lemma_concat_take_head(rem, k as int);
                    lemma_concat_len(rem, k as int);
                    rem = rem.update(k as int, rem[k as int].drop_first());
                }
                let run_len = runs[k].len();
                proof {
                    assert(old_rem[k as int].len() == runs@[k as int]@.len() - pos@[k as int]);
                    assert(old_rem[k as int].len() > 0);
                }
                let p = pos[k] + 1;
                pos[k] = p;
                if p < runs[k].len() {
                    heads[k] = Some(runs[k][p].clone());
                } else {
                    heads[k] = None;
                }
                out.push(x);
                proof {
                    assert(pos@[k as int] == p);
                    assert(p <= run_len);
                    assert(forall|r: int| 0 <= r < rem.len() && r != k ==> pos@[r] == old_pos[r]);
                    assert(rem[k as int] =~= runs@[k as int]@.skip(p as int));
                    assert forall|r: int| 0 <= r < rem.len() implies #[trigger] pos@[r] <= runs@[r]@.len()
                        && rem[r] == runs@[r]@.skip(pos@[r] as int) by {
                        if r != k as int {
                            assert(rem[r] == old_rem[r]);
                        }
                    }
                    assert(out@ == old_out.push(x));
                    // x is not greater than any line left in any run
                    assert forall|r: int, q: int|
                        0 <= r < rem.len() && 0 <= q < rem[r].len() implies text_order(
                        out@.last()@,
                        #[trigger] rem[r][q]@,
                    ) != Ordering::Greater by {
                        let h = old_rem[r][0];
                        assert(heads@[r] is Some || r == k);
                        if r == k as int {
                            assert(rem[r][q] == old_rem[r][q + 1]);
                            assert(sorted(runs@[r]@));
                            assert(runs@[r]@[pos@[r] - 1] == x);
                            assert(runs@[r]@[pos@[r] + q] == rem[r][q]);
                        } else {
                            assert(rem[r] == old_rem[r]);
                            assert(old_rem[r].len() > 0);
                            assert(runs@[r]@[pos@[r] as int] == h);
                            assert(runs@[r]@[pos@[r] + q] == rem[r][q]);
                            assert(sorted(runs@[r]@));
                            if q > 0 {
                                assert(text_order(h@, rem[r][q]@) != Ordering::Greater);
                            } else {
                                assert(rem[r][q] == h);
                            }
                            lemma_text_order_chains(x@, h@, rem[r][q]@);
                        }
                    }
                    assert forall|a: int, b: int| 0 <= a < b < out@.len() implies text_order(
                        #[trigger] out@[a]@,
                        #[trigger] out@[b]@,
                    ) != Ordering::Greater by {
                        if b == out@.len() - 1 {
                            if a < old_out.len() - 1 {
                                lemma_text_order_chains(old_out[a]@, old_out.last()@, x@);
                            }
                            assert(old_rem[k as int][0] == x);
                        }
                    }
                    assert(out@.to_multiset() == old_out.to_multiset().insert(x));
                    assert(out@.to_multiset().add(concat(rem).to_multiset()) =~= concat(all).to_multiset());
                }
            },
        }
    }
    out
}

} // verus!
