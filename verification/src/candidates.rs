use vstd::prelude::*;
use crate::job::Job;

verus! {

/// The jobs of `s`, in order, that start strictly after time `t`: the legal
/// followers of a job (or of a sentinel) that ends at `t`.
pub open spec fn after(t: int, s: Seq<Job>) -> Seq<Job>
    decreases s.len(),
{
    if s.len() == 0 {
        Seq::empty()
    } else if s.last().start_time > t {
        after(t, s.drop_last()).push(s.last())
    } else {
        after(t, s.drop_last())
    }
}

/// The jobs of `s`, in order, that start no later than time `t`.
pub open spec fn starting_by(t: int, s: Seq<Job>) -> Seq<Job>
    decreases s.len(),
{
    if s.len() == 0 {
        Seq::empty()
    } else if s.last().start_time <= t {
        starting_by(t, s.drop_last()).push(s.last())
    } else {
        starting_by(t, s.drop_last())
    }
}

/// The least end time among the jobs of `s`; meaningful only when `s` is
/// non-empty.
pub open spec fn min_end(s: Seq<Job>) -> u8
    recommends
        s.len() > 0,
    decreases s.len(),
{
    if s.len() <= 1 {
        s.last().end_time
    } else {
        let m = min_end(s.drop_last());
        if s.last().end_time < m {
            s.last().end_time
        } else {
            m
        }
    }
}

/// The sum of the profits of the jobs of `s`.
pub open spec fn sum_profits(s: Seq<Job>) -> int
    decreases s.len(),
{
    if s.len() == 0 {
        0
    } else {
        sum_profits(s.drop_last()) + s.last().profit
    }
}

/// Profits are unsigned, so a sum of them is never negative.
pub proof fn lemma_sum_nonneg(s: Seq<Job>)
    ensures
        0 <= sum_profits(s),
    decreases s.len(),
{
    if s.len() > 0 {
        lemma_sum_nonneg(s.drop_last());
    }
}

/// Every job kept by `after` starts strictly after `t` and occurs in `s`.
pub proof fn lemma_after_elems(t: int, s: Seq<Job>)
    ensures
        forall|k: int|
            0 <= k < after(t, s).len() ==> (#[trigger] after(t, s)[k]).start_time > t
                && s.contains(after(t, s)[k]),
    decreases s.len(),
{
    if s.len() > 0 {
        lemma_after_elems(t, s.drop_last());
        assert forall|k: int|
            0 <= k < after(t, s).len() implies (#[trigger] after(t, s)[k]).start_time > t
            && s.contains(after(t, s)[k]) by {
            let rest = after(t, s.drop_last());
            if k < rest.len() {
                assert(after(t, s)[k] == rest[k]);
                let i = choose|i: int| 0 <= i < s.drop_last().len() && s.drop_last()[i] == rest[k];
                assert(s[i] == rest[k]);
            } else {
                assert(after(t, s)[k] == s.last());
                assert(s[s.len() - 1] == s.last());
            }
        }
    }
}

/// Every job kept by `starting_by` starts no later than `t` and occurs in `s`.
pub proof fn lemma_starting_by_elems(t: int, s: Seq<Job>)
    ensures
        forall|k: int|
            0 <= k < starting_by(t, s).len() ==> (#[trigger] starting_by(t, s)[k]).start_time <= t
                && s.contains(starting_by(t, s)[k]),
    decreases s.len(),
{
    if s.len() > 0 {
        lemma_starting_by_elems(t, s.drop_last());
        assert forall|k: int|
            0 <= k < starting_by(t, s).len() implies (#[trigger] starting_by(t, s)[k]).start_time
            <= t && s.contains(starting_by(t, s)[k]) by {
            let rest = starting_by(t, s.drop_last());
            if k < rest.len() {
                assert(starting_by(t, s)[k] == rest[k]);
                let i = choose|i: int|
                    0 <= i < s.drop_last().len() && s.drop_last()[i] == rest[k];
                assert(s[i] == rest[k]);
            } else {
                assert(starting_by(t, s)[k] == s.last());
                assert(s[s.len() - 1] == s.last());
            }
        }
    }
}

/// The sum of a concatenation is the sum of the parts.
pub proof fn lemma_sum_concat(a: Seq<Job>, b: Seq<Job>)
    ensures
        sum_profits(a + b) == sum_profits(a) + sum_profits(b),
    decreases b.len(),
{
    if b.len() == 0 {
        assert(a + b =~= a);
    } else {
        lemma_sum_concat(a, b.drop_last());
        assert((a + b).drop_last() =~= a + b.drop_last());
        assert((a + b).last() == b.last());
    }
}

/// Appending a job adds exactly its profit to the sum.
pub proof fn lemma_sum_push(s: Seq<Job>, j: Job)
    ensures
        sum_profits(s.push(j)) == sum_profits(s) + j.profit,
{
    assert(s.push(j).drop_last() =~= s);
    assert(s.push(j).last() == j);
}

/// A threshold no lower than `t1` keeps no more total profit: filtering with
/// `t2 >= t1` yields a sub-list of filtering with `t1`.
pub proof fn lemma_sum_after_mono(t1: int, t2: int, s: Seq<Job>)
    requires
        t1 <= t2,
    ensures
        sum_profits(after(t2, s)) <= sum_profits(after(t1, s)),
    decreases s.len(),
{
    if s.len() > 0 {
        lemma_sum_after_mono(t1, t2, s.drop_last());
        if s.last().start_time > t1 {
            lemma_sum_push(after(t1, s.drop_last()), s.last());
        }
        if s.last().start_time > t2 {
            lemma_sum_push(after(t2, s.drop_last()), s.last());
        }
    }
}

/// Raising the threshold past the start of the job at position `k` drops that
/// job, so at least its profit is lost from the filtered sum.
pub proof fn lemma_sum_after_excl(t1: int, t2: int, s: Seq<Job>, k: int)
    requires
        t1 <= t2,
        0 <= k < s.len(),
        s[k].start_time > t1,
        s[k].start_time <= t2,
    ensures
        sum_profits(after(t2, s)) + s[k].profit <= sum_profits(after(t1, s)),
    decreases s.len(),
{
    if k == s.len() - 1 {
        lemma_sum_after_mono(t1, t2, s.drop_last());
        lemma_sum_push(after(t1, s.drop_last()), s.last());
    } else {
        lemma_sum_after_excl(t1, t2, s.drop_last(), k);
        assert(s.drop_last()[k] == s[k]);
        if s.last().start_time > t1 {
            lemma_sum_push(after(t1, s.drop_last()), s.last());
        }
        if s.last().start_time > t2 {
            lemma_sum_push(after(t2, s.drop_last()), s.last());
        }
    }
}

/// A threshold no lower than `t1` keeps no more jobs.
pub proof fn lemma_after_len_mono(t1: int, t2: int, s: Seq<Job>)
    requires
        t1 <= t2,
    ensures
        after(t2, s).len() <= after(t1, s).len(),
    decreases s.len(),
{
    if s.len() > 0 {
        lemma_after_len_mono(t1, t2, s.drop_last());
    }
}

/// Raising the threshold past the start of the job at position `k` keeps
/// strictly fewer jobs.
pub proof fn lemma_after_len_excl(t1: int, t2: int, s: Seq<Job>, k: int)
    requires
        t1 <= t2,
        0 <= k < s.len(),
        s[k].start_time > t1,
        s[k].start_time <= t2,
    ensures
        after(t2, s).len() < after(t1, s).len(),
    decreases s.len(),
{
    if k == s.len() - 1 {
        lemma_after_len_mono(t1, t2, s.drop_last());
    } else {
        lemma_after_len_excl(t1, t2, s.drop_last(), k);
        assert(s.drop_last()[k] == s[k]);
    }
}

/// A negative threshold keeps every job: start times are unsigned.
pub proof fn lemma_after_neg(t: int, s: Seq<Job>)
    requires
        t < 0,
    ensures
        after(t, s) == s,
    decreases s.len(),
{
    if s.len() == 0 {
        assert(after(t, s) =~= s);
    } else {
        lemma_after_neg(t, s.drop_last());
        assert(after(t, s) =~= s);
    }
}

} // verus!
