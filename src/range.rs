//! The run buffer and the range sort driver: lines up to a sentinel line are
//! gathered into byte-budgeted runs, each run is sorted, and the runs are
//! merged; the sentinel follows the sorted lines unchanged.

use vstd::prelude::*;
use vstd::multiset::Multiset;
use vstd::utf8::encode_utf8;
use vstd::string::StringSliceAdditionalSpecFns;
use crate::sort::{
    equal_pred, equal_to, keeps_equal_order, lemma_filter_none, lemma_sorted_unique, sort_lines, sorted,
};
use crate::merge::{concat, merge_runs, run_views};

verus! {

broadcast use vstd::seq_lib::group_to_multiset_ensures;

/// Default byte budget of a run.
pub const DEFAULT_RUN_BUDGET: usize = 1000000;

/// The line that ends a range: a backslash and a dot.
pub const SENTINEL: &'static str = "\\.";

/// Whether a line is the sentinel, by its bytes.
pub open spec fn is_sentinel(line: Seq<char>) -> bool {
    encode_utf8(line) == seq![92u8, 46u8]
}

/// Total size in bytes of the lines of `s`.
pub open spec fn total_bytes(s: Seq<String>) -> nat
    decreases s.len(),
{
    if s.len() == 0 {
        0
    } else {
        total_bytes(s.drop_last()) + encode_utf8(s.last()@).len()
    }
}

/// Whether `line` is the sentinel.
pub fn is_sentinel_line(line: &str) -> (r: bool)
    ensures
        r == is_sentinel(line@),
{
    let b = line.as_bytes();
    proof {
        assert(b@ == encode_utf8(line@));
    }
    let r = b.len() == 2 && b[0] == 92 && b[1] == 46;
    proof {
        if r {
            assert(b@ =~= seq![92u8, 46u8]);
        }
    }
    r
}

/// Lines gathered in arrival order until their bytes reach a budget.
pub struct RunBuffer {
    lines: Vec<String>,
    held: usize,
    budget: usize,
}

impl RunBuffer {
    /// The lines held, in arrival order.
    pub closed spec fn lines(&self) -> Seq<String> {
        self.lines@
    }

    /// The byte budget of a run.
    pub closed spec fn budget(&self) -> nat {
        self.budget as nat
    }

    /// The held count is the byte size of the held lines, capped at the budget.
    pub closed spec fn wf(&self) -> bool {
        self.held == if total_bytes(self.lines@) < self.budget {
            total_bytes(self.lines@)
        } else {
            self.budget as nat
        }
    }

    /// Whether the held lines have reached the budget.
    pub open spec fn full(&self) -> bool {
        total_bytes(self.lines()) >= self.budget()
    }

    /// An empty buffer for runs of `budget` bytes.
    pub fn new(budget: usize) -> (r: RunBuffer)
        ensures
            r.wf(),
            r.lines() == Seq::<String>::empty(),
            r.budget() == budget,
    {
        RunBuffer { lines: Vec::new(), held: 0, budget }
    }

    /// Whether the held lines have reached the budget.
    pub fn is_full(&self) -> (r: bool)
        requires
            self.wf(),
        ensures
            r == self.full(),
    {
        self.held >= self.budget
    }

    /// Whether no line is held.
    pub fn is_empty(&self) -> (r: bool)
        ensures
            r == (self.lines().len() == 0),
    {
        self.lines.len() == 0
    }

    /// Adds a line; tells whether the buffer is now full.
    pub fn push(&mut self, line: String) -> (full: bool)
        requires
            old(self).wf(),
        ensures
            final(self).wf(),
            final(self).lines() == old(self).lines().push(line),
            final(self).budget() == old(self).budget(),
            full == final(self).full(),
    {
        let n = line.as_str().as_bytes().len();
        proof {
            assert(self.lines@.push(line).drop_last() =~= self.lines@);
            assert(n == encode_utf8(line@).len());
            assert(total_bytes(self.lines@.push(line)) == total_bytes(self.lines@) + n);
        }
        self.lines.push(line);
        if n >= self.budget - self.held {
            self.held = self.budget;
        } else {
            self.held = self.held + n;
        }
        self.held >= self.budget
    }

    /// Hands out the held lines as a sorted run and empties the buffer.
    pub fn take_run(&mut self) -> (run: Vec<String>)
        requires
            old(self).wf(),
        ensures
            final(self).wf(),
            final(self).lines() == Seq::<String>::empty(),
            final(self).budget() == old(self).budget(),
            run@.to_multiset() == old(self).lines().to_multiset(),
            sorted(run@),
            keeps_equal_order(run@, old(self).lines()),
    {
        let mut lines: Vec<String> = Vec::new();
        std::mem::swap(&mut lines, &mut self.lines);
        self.held = 0;
        sort_lines(lines)
    }
}

/// Position of the first sentinel line at or after `i`, if any.
pub open spec fn sentinel_from(lines: Seq<String>, i: int) -> Option<int>
    decreases lines.len() - i,
{
    if i < 0 || i >= lines.len() {
        None
    } else if is_sentinel(lines[i]@) {
        Some(i)
    } else {
        sentinel_from(lines, i + 1)
    }
}

/// Why a range cannot be sorted.
#[derive(Debug, Clone, Copy, PartialEq, Eq)]
pub enum RangeError {
    /// The input ended before the sentinel line.
    TruncatedInput,
}

/// Finds the first sentinel line at or after `start`.
pub fn find_sentinel(lines: &Vec<String>, start: usize) -> (r: Option<usize>)
    ensures
        r matches Some(k) ==> sentinel_from(lines@, start as int) == Some(k as int),
        r is None ==> sentinel_from(lines@, start as int) is None,
{
    let mut i = start;
    while i < lines.len()
        invariant
            start <= i,
            sentinel_from(lines@, start as int) == sentinel_from(lines@, i as int),
        decreases lines@.len() - i,
    {
        if is_sentinel_line(lines[i].as_str()) {
            return Some(i);
        }
        i = i + 1;
    }
    None
}

/// Whether `added` is what a range sort appends for the lines of `input` from
/// `start` up to the sentinel at `s`: those lines sorted, then the sentinel
/// line itself.
pub open spec fn sorted_range(input: Seq<String>, start: int, s: int, added: Seq<String>) -> bool {
    &&& added.len() == s - start + 1
    &&& added.last() == input[s]
    &&& sorted(added.drop_last())
    &&& added.drop_last().to_multiset() == input.subrange(start, s).to_multiset()
    &&& keeps_equal_order(added.drop_last(), input.subrange(start, s))
}

proof fn lemma_concat_push_keeps(runs: Seq<Vec<String>>, v: Vec<String>, held: Seq<String>)
    requires
        keeps_equal_order(v@, held),
    ensures
        forall|c: Seq<char>|
            #[trigger] equal_to(concat(run_views(runs.push(v))), c) == equal_to(concat(run_views(runs)), c)
                + equal_to(held, c),
{
    broadcast use vstd::seq::Seq::filter_distributes_over_add;

    let w = run_views(runs.push(v));
    assert(w.drop_last() =~= run_views(runs));
    assert(w.last() == v@);
    assert forall|c: Seq<char>|
        #[trigger] equal_to(concat(run_views(runs.push(v))), c) == equal_to(concat(run_views(runs)), c)
            + equal_to(held, c) by {
        assert(equal_to(v@, c) == equal_to(held, c));
    }
}

proof fn lemma_concat_push(runs: Seq<Vec<String>>, v: Vec<String>)
    ensures
        concat(run_views(runs.push(v))).to_multiset() == concat(run_views(runs)).to_multiset().add(
            v@.to_multiset(),
        ),
{
    broadcast use vstd::seq_lib::lemma_multiset_commutative;

    let w = run_views(runs.push(v));
    assert(w.drop_last() =~= run_views(runs));
    assert(w.last() == v@);
}

/// Sorts the lines of `input` from `start` up to the first sentinel line,
/// gathering runs of `budget` bytes that are sorted and then merged. Appends
/// the sorted lines and then the sentinel to `output`, and returns the
/// position after the sentinel. Without a sentinel, fails and appends nothing.
pub fn sort_range(input: &Vec<String>, start: usize, budget: usize, output: &mut Vec<String>) -> (r:
    Result<usize, RangeError>)
    ensures
        match sentinel_from(input@, start as int) {
            None => r == Err::<usize, RangeError>(RangeError::TruncatedInput) && final(output)@ == old(
                output,
            )@,
            Some(s) => {
                &&& r == Ok::<usize, RangeError>((s + 1) as usize)
                &&& final(output)@.len() >= old(output)@.len()
                &&& final(output)@.take(old(output)@.len() as int) == old(output)@
                &&& sorted_range(input@, start as int, s, final(output)@.skip(old(output)@.len() as int))
            },
        },
{
    broadcast use vstd::seq_lib::lemma_multiset_commutative;

    let n = input.len();
    let s = match find_sentinel(input, start) {
        None => {
            return Err(RangeError::TruncatedInput);
        },
        Some(s) => s,
    };
    proof {
        lemma_sentinel_from_bounds(input@, start as int);
    }
    let mut runs: Vec<Vec<String>> = Vec::new();
    let mut buf = RunBuffer::new(budget);
    let mut i = start;
    proof {
        assert forall|c: Seq<char>|
            #[trigger] equal_to(concat(run_views(runs@)), c) + equal_to(buf.lines(), c) == equal_to(
                input@.subrange(start as int, i as int),
                c,
            ) by {
            assert(run_views(runs@) =~= Seq::<Seq<String>>::empty());
            assert(input@.subrange(start as int, i as int) =~= Seq::<String>::empty());
            lemma_filter_none(buf.lines(), equal_pred(c));
            lemma_filter_none(Seq::<String>::empty(), equal_pred(c));
            assert(Seq::<String>::empty() + Seq::<String>::empty() =~= Seq::<String>::empty());
        }
    }
    while i < s
        invariant
            start <= i <= s < input@.len(),
            buf.wf(),
            buf.budget() == budget,
            forall|r: int| 0 <= r < runs@.len() ==> sorted(#[trigger] runs@[r]@),
            concat(run_views(runs@)).to_multiset().add(buf.lines().to_multiset()) == input@.subrange(
                start as int,
                i as int,
            ).to_multiset(),
            forall|c: Seq<char>|
                #[trigger] equal_to(concat(run_views(runs@)), c) + equal_to(buf.lines(), c) == equal_to(
                    input@.subrange(start as int, i as int),
                    c,
                ),
        decreases s - i,
    {
        let line = input[i].clone();
        let ghost before = buf.lines();
        let full = buf.push(line);
        proof {
            assert(input@.subrange(start as int, i + 1) =~= input@.subrange(start as int, i as int).push(
                input@[i as int],
            ));
            assert(buf.lines().to_multiset() == before.to_multiset().insert(line));
            assert forall|c: Seq<char>|
                #[trigger] equal_to(concat(run_views(runs@)), c) + equal_to(buf.lines(), c) == equal_to(
                    input@.subrange(start as int, i + 1),
                    c,
                ) by {
                let f = equal_to(concat(run_views(runs@)), c);
                assert(f + equal_to(before, c) == equal_to(input@.subrange(start as int, i as int), c));
                before.lemma_filter_push(line, equal_pred(c));
                input@.subrange(start as int, i as int).lemma_filter_push(line, equal_pred(c));
                assert(f + equal_to(before, c).push(line) =~= (f + equal_to(before, c)).push(line));
            }
        }
        if full {
            let ghost held = buf.lines();
            let run = buf.take_run();
            proof {
                lemma_concat_push(runs@, run);
                lemma_concat_push_keeps(runs@, run, held);
                assert(buf.lines().to_multiset() =~= Multiset::empty());
            }
            runs.push(run);
        }
        i = i + 1;
    }
    if !buf.is_empty() {
        let ghost held = buf.lines();
        let run = buf.take_run();
        proof {
            lemma_concat_push(runs@, run);
            lemma_concat_push_keeps(runs@, run, held);
        }
        runs.push(run);
    }
    let ghost parts = concat(run_views(runs@)).to_multiset();
    proof {
        assert(buf.lines().to_multiset() =~= Multiset::empty());
        assert(parts.add(Multiset::empty()) =~= parts);
        assert(parts == input@.subrange(start as int, s as int).to_multiset());
        assert forall|c: Seq<char>| #[trigger] equal_to(concat(run_views(runs@)), c) == equal_to(
            input@.subrange(start as int, s as int),
            c,
        ) by {
            let f = equal_to(concat(run_views(runs@)), c);
            assert(f + equal_to(buf.lines(), c) == equal_to(input@.subrange(start as int, s as int), c));
            lemma_filter_none(buf.lines(), equal_pred(c));
            assert(f + Seq::<String>::empty() =~= f);
        }
    }
    let mut merged = merge_runs(runs);
    let ghost old_out = output@;
    let ghost m = merged@;
    output.append(&mut merged);
    output.push(input[s].clone());
    proof {
        let added = output@.skip(old_out.len() as int);
        assert(output@.take(old_out.len() as int) =~= old_out);
        assert(added =~= m.push(input@[s as int]));
        assert(added.drop_last() =~= m);
        assert(added.last() == input@[s as int]);
        vstd::seq_lib::to_multiset_len(m);
        vstd::seq_lib::to_multiset_len(input@.subrange(start as int, s as int));
        assert(sorted_range(input@, start as int, s as int, added));
    }
    Ok(s + 1)
}

proof fn lemma_sentinel_from_bounds(lines: Seq<String>, i: int)
    ensures
        sentinel_from(lines, i) matches Some(k) ==> i <= k < lines.len() && is_sentinel(lines[k]@),
    decreases lines.len() - i,
{
    if 0 <= i < lines.len() && !is_sentinel(lines[i]@) {
        lemma_sentinel_from_bounds(lines, i + 1);
    }
}

/// Whatever the run budget, and however often it is called, a range sort
/// appends the same lines: two results that meet its contract are equal.
pub proof fn lemma_sorted_range_unique(input: Seq<String>, start: int, s: int, a1: Seq<String>, a2: Seq<String>)
    requires
        0 <= start <= s < input.len(),
        sorted_range(input, start, s, a1),
        sorted_range(input, start, s, a2),
    ensures
        a1 == a2,
{
    assert forall|c: Seq<char>| #[trigger] equal_to(a1.drop_last(), c) == equal_to(a2.drop_last(), c) by {
        assert(equal_to(a1.drop_last(), c) == equal_to(input.subrange(start, s), c));
        assert(equal_to(a2.drop_last(), c) == equal_to(input.subrange(start, s), c));
    }
    lemma_sorted_unique(a1.drop_last(), a2.drop_last());
    assert(a1 =~= a1.drop_last().push(input[s]));
    assert(a2 =~= a2.drop_last().push(input[s]));
}

/// The sentinel line ends what a range sort appends, unchanged, and no line
/// before it is a sentinel.
pub proof fn lemma_sentinel_kept(input: Seq<String>, start: int, added: Seq<String>)
    requires
        sentinel_from(input, start) is Some,
        sorted_range(input, start, sentinel_from(input, start)->0, added),
    ensures
        added.last() == input[sentinel_from(input, start)->0],
        is_sentinel(added.last()@),
        forall|i: int| 0 <= i < added.len() - 1 ==> !is_sentinel(#[trigger] added[i]@),
{
    let s = sentinel_from(input, start)->0;
    lemma_sentinel_from_bounds(input, start);
    lemma_sentinel_from_first(input, start);
    let part = input.subrange(start, s);
    assert forall|i: int| 0 <= i < added.len() - 1 implies !is_sentinel(#[trigger] added[i]@) by {
        let y = added[i];
        assert(added.drop_last()[i] == y);
        assert(added.drop_last().to_multiset().count(y) > 0);
        assert(part.to_multiset().count(y) > 0);
        assert(part.contains(y));
        let j = choose|j: int| 0 <= j < part.len() && part[j] == y;
        assert(input[start + j] == y);
    }
}

proof fn lemma_sentinel_from_first(lines: Seq<String>, i: int)
    ensures
        sentinel_from(lines, i) matches Some(k) ==> forall|j: int|
            i <= j < k ==> !is_sentinel(#[trigger] lines[j]@),
    decreases lines.len() - i,
{
    if 0 <= i < lines.len() && !is_sentinel(lines[i]@) {
        lemma_sentinel_from_first(lines, i + 1);
    }
}

} // verus!
