use vstd::prelude::*;
use crate::candidates::{
    after, lemma_after_elems, lemma_after_neg, lemma_starting_by_elems, lemma_sum_after_excl,
    lemma_sum_nonneg, min_end, starting_by, sum_profits,
};
use crate::job::{jobs_wf, Job};
use crate::laws::lemma_total_bound;
use crate::tree::{first_max_at, forest_built, node_built, Node};

verus! {

/// Build the options forest for every job that may legally follow a chain
/// ending at `previous_end_time` (use 0 when nothing has been placed yet:
/// no job may start before time 0, and the legality filter is strict).
///
/// The legal candidates are the jobs starting strictly after
/// `previous_end_time`; of those, only the ones starting no later than the
/// earliest candidate end time become roots here, one node each, in list
/// order. Each node's subtree is built the same way past that job's end, its
/// best child is its first child of maximal immediate profit, and its total
/// profit adds that child's total to its own. The result is empty exactly
/// when no job can follow.
///
/// The sum bound on the profits only rules out arithmetic overflow of the
/// cached totals; the recursion terminates because every recursive call
/// strictly raises the lower bound on start times.
#[verifier::loop_isolation(false)]
pub fn get_options(previous_end_time: u8, jobs: &Vec<Job>) -> (r: Vec<Node>)
    requires
        jobs_wf(jobs@),
        sum_profits(jobs@) <= u32::MAX,
    ensures
        forest_built(previous_end_time as int, jobs@, r@),
    decreases 255 - previous_end_time,
{
    let ghost cands = after(previous_end_time as int, jobs@);

    // legality filter: keep the jobs that start strictly after the bound
    let mut jobs_left: Vec<Job> = Vec::new();
    let mut idx: usize = 0;
    while idx < jobs.len()
        invariant
            idx <= jobs@.len(),
            jobs_left@ == after(previous_end_time as int, jobs@.take(idx as int)),
        decreases jobs@.len() - idx,
    {
        proof {
            assert(jobs@.take(idx as int + 1).drop_last() =~= jobs@.take(idx as int));
            assert(jobs@.take(idx as int + 1).last() == jobs@[idx as int]);
        }
        let j = jobs[idx];
        if j.start_time > previous_end_time {
            jobs_left.push(j);
        }
        idx += 1;
    }
    proof {
        assert(jobs@.take(jobs@.len() as int) =~= jobs@);
    }
    assert(jobs_left@ == cands);

    // no candidate is left: this position is a leaf
    if jobs_left.len() == 0 {
        let r: Vec<Node> = Vec::new();
        return r;
    }

    // the earliest end time among the candidates bounds the fan-out
    proof {
        assert(jobs_left@.take(1).drop_last() =~= jobs_left@.take(0));
        assert(jobs_left@.take(1).last() == jobs_left@[0]);
    }
    let mut earliest_end_time: u8 = jobs_left[0].end_time;
    let mut idx2: usize = 1;
    while idx2 < jobs_left.len()
        invariant
            1 <= idx2 <= jobs_left@.len(),
            earliest_end_time == min_end(jobs_left@.take(idx2 as int)),
        decreases jobs_left@.len() - idx2,
    {
        proof {
            assert(jobs_left@.take(idx2 as int + 1).drop_last() =~= jobs_left@.take(idx2 as int));
            assert(jobs_left@.take(idx2 as int + 1).last() == jobs_left@[idx2 as int]);
        }
        if jobs_left[idx2].end_time < earliest_end_time {
            earliest_end_time = jobs_left[idx2].end_time;
        }
        idx2 += 1;
    }
    proof {
        assert(jobs_left@.take(jobs_left@.len() as int) =~= jobs_left@);
    }
    assert(earliest_end_time == min_end(cands));

    let ghost ee = min_end(cands) as int;

    // one node per candidate that starts no later than the earliest end time
    let mut result: Vec<Node> = Vec::new();
    let mut i: usize = 0;
    while i < jobs_left.len()
        invariant
            i <= jobs_left@.len(),
            result@.len() == starting_by(ee, jobs_left@.take(i as int)).len(),
            forall|k: int|
                0 <= k < result@.len() ==> node_built(
                    #[trigger] result@[k],
                    starting_by(ee, jobs_left@.take(i as int))[k],
                    jobs@,
                ),
        decreases jobs_left@.len() - i,
    {
        proof {
            assert(jobs_left@.take(i as int + 1).drop_last() =~= jobs_left@.take(i as int));
            assert(jobs_left@.take(i as int + 1).last() == jobs_left@[i as int]);
        }
        let job = jobs_left[i];
        if job.start_time <= earliest_end_time {
            proof {
                lemma_after_elems(previous_end_time as int, jobs@);
                assert(cands[i as int] == job);
                assert(job.start_time > previous_end_time);
                assert(jobs@.contains(job));
                let w = choose|w: int| 0 <= w < jobs@.len() && jobs@[w] == job;
                assert(jobs@[w].wf());
            }
            let children = get_options(job.end_time, jobs);
            let (total_profit, best_child_index) = if children.len() == 0 {
                (job.profit, None)
            } else {
                // the first child whose immediate profit is maximal
                let mut best: usize = 0;
                let mut k: usize = 1;
                while k < children.len()
                    invariant
                        1 <= k <= children@.len(),
                        best < k,
                        forall|m: int|
                            0 <= m < k ==> (#[trigger] children@[m]).job.profit
                                <= children@[best as int].job.profit,
                        forall|m: int|
                            0 <= m < best ==> (#[trigger] children@[m]).job.profit
                                < children@[best as int].job.profit,
                    decreases children@.len() - k,
                {
                    if children[k].job.profit > children[best].job.profit {
                        best = k;
                    }
                    k += 1;
                }
                assert(first_max_at(children@, best as int));
                proof {
                    // the new total stays within the sum of all profits
                    let candsc = after(job.end_time as int, jobs@);
                    let bsc = starting_by(min_end(candsc) as int, candsc);
                    let c = children@[best as int];
                    let jc = bsc[best as int];
                    assert(node_built(c, jc, jobs@));
                    lemma_total_bound(c, jc, jobs@);
                    lemma_starting_by_elems(min_end(candsc) as int, candsc);
                    assert(candsc.contains(jc));
                    let wc = choose|w: int| 0 <= w < candsc.len() && candsc[w] == jc;
                    lemma_after_elems(job.end_time as int, jobs@);
                    assert(candsc[wc].start_time > job.end_time);
                    assert(jobs@.contains(jc));
                    let kc = choose|w: int| 0 <= w < jobs@.len() && jobs@[w] == jc;
                    assert(jobs@[kc].wf());
                    lemma_sum_after_excl(job.end_time as int, jc.end_time as int, jobs@, kc);
                    lemma_sum_nonneg(after(jc.end_time as int, jobs@));
                    let kj = choose|w: int| 0 <= w < jobs@.len() && jobs@[w] == job;
                    lemma_sum_after_excl(-1, job.end_time as int, jobs@, kj);
                    lemma_after_neg(-1, jobs@);
                    assert(c.total_profit + job.profit <= sum_profits(jobs@));
                }
                (children[best].total_profit + job.profit, Some(best))
            };
            let node = Node::new(job, children, total_profit, best_child_index);
            assert(node_built(node, job, jobs@));
            result.push(node);
        }
        i += 1;
    }
    proof {
        assert(jobs_left@.take(jobs_left@.len() as int) =~= jobs_left@);
    }
    assert(forest_built(previous_end_time as int, jobs@, result@));
    result
}

} // verus!
