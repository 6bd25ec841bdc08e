use vstd::prelude::*;
use crate::candidates::{after, min_end, starting_by};
use crate::job::Job;

verus! {

/// One node of the options tree: the job chosen at this position in a chain,
/// one child per legally-following job considered here, the best achievable
/// profit of this job plus its selected continuation, and the index of the
/// child that realizes it (none at a leaf).
#[derive(Debug)]
pub struct Node {
    pub job: Job,
    pub total_profit: u32,
    pub best_child_index: Option<usize>,
    pub children: Vec<Node>,
}

impl Node {
    pub fn new(job: Job, children: Vec<Node>, total_profit: u32, best_child_index: Option<
        usize,
    >) -> (n: Self)
        ensures
            n.job == job,
            n.children == children,
            n.total_profit == total_profit,
            n.best_child_index == best_child_index,
    {
        Self { job, children, total_profit, best_child_index }
    }
}

/// Position `i` holds the first node of `s` whose job's profit is maximal:
/// no node beats it, and every earlier node is strictly worse. This is the
/// selection rule used uniformly for best children and for the best root.
pub open spec fn first_max_at(s: Seq<Node>, i: int) -> bool {
    &&& 0 <= i < s.len()
    &&& forall|k: int| 0 <= k < s.len() ==> (#[trigger] s[k]).job.profit <= s[i].job.profit
    &&& forall|k: int| 0 <= k < i ==> (#[trigger] s[k]).job.profit < s[i].job.profit
}

/// The index of the first node of `s` whose job's profit is maximal;
/// meaningful only when `s` is non-empty.
pub open spec fn first_max_index(s: Seq<Node>) -> int
    recommends
        s.len() > 0,
    decreases s.len(),
{
    if s.len() <= 1 {
        0
    } else {
        let r = 1 + first_max_index(s.skip(1));
        if s[0].job.profit >= s[r].job.profit {
            0
        } else {
            r
        }
    }
}

/// `r` is exactly the forest the builder produces for the lower bound `p`
/// over the job list `jobs`: one node per job of the branch set (the legal
/// candidates that start no later than the earliest candidate end time), each
/// built for its job.
pub open spec fn forest_built(p: int, jobs: Seq<Job>, r: Seq<Node>) -> bool
    decreases r,
{
    let cands = after(p, jobs);
    if cands.len() == 0 {
        r.len() == 0
    } else {
        let bs = starting_by(min_end(cands) as int, cands);
        &&& r.len() == bs.len()
        &&& forall|i: int| 0 <= i < r.len() ==> node_built(#[trigger] r[i], bs[i], jobs)
    }
}

/// `n` is exactly the node the builder produces for the job `j` over the job
/// list `jobs`: its children are the forest built past `j`'s end, its best
/// child is the first one of maximal immediate profit, and its total profit
/// is its own profit plus the selected child's total.
pub open spec fn node_built(n: Node, j: Job, jobs: Seq<Job>) -> bool
    decreases n,
{
    &&& n.job == j
    &&& forest_built(j.end_time as int, jobs, n.children@)
    &&& match n.best_child_index {
        None => n.children@.len() == 0 && n.total_profit == j.profit,
        Some(bi) => {
            &&& first_max_at(n.children@, bi as int)
            &&& n.total_profit == n.children@[bi as int].total_profit + j.profit
        },
    }
}

/// The chain that the cached best-child pointers describe from `n` downward:
/// `n`'s own job, then the chain of its selected child.
pub open spec fn node_chain(n: Node) -> Seq<Job>
    decreases n,
{
    match n.best_child_index {
        None => seq![n.job],
        Some(bi) => if bi < n.children@.len() {
            seq![n.job] + node_chain(n.children@[bi as int])
        } else {
            seq![n.job]
        },
    }
}

/// The chain selected from a forest: the chain of the first root of maximal
/// immediate profit. Meaningful only when the forest is non-empty.
pub open spec fn forest_chain(s: Seq<Node>) -> Seq<Job>
    recommends
        s.len() > 0,
{
    node_chain(s[first_max_index(s)])
}

/// `first_max_index` lands on a position that satisfies `first_max_at`.
pub proof fn lemma_first_max_index_at(s: Seq<Node>)
    requires
        s.len() > 0,
    ensures
        first_max_at(s, first_max_index(s)),
    decreases s.len(),
{
    if s.len() > 1 {
        let t = s.skip(1);
        lemma_first_max_index_at(t);
        let rt = first_max_index(t);
        let r = 1 + rt;
        assert(forall|m: int| 0 <= m < t.len() ==> t[m] == s[m + 1]);
        if s[0].job.profit >= s[r].job.profit {
            assert forall|k: int| 0 <= k < s.len() implies (#[trigger] s[k]).job.profit
                <= s[0].job.profit by {
                if k >= 1 {
                    assert(s[k] == t[k - 1]);
                    assert(t[k - 1].job.profit <= t[rt].job.profit);
                }
            }
        } else {
            assert forall|k: int| 0 <= k < s.len() implies (#[trigger] s[k]).job.profit
                <= s[r].job.profit by {
                if k >= 1 {
                    assert(s[k] == t[k - 1]);
                }
            }
            assert forall|k: int| 0 <= k < r implies (#[trigger] s[k]).job.profit
                < s[r].job.profit by {
                if k >= 1 {
                    assert(s[k] == t[k - 1]);
                    assert(t[k - 1].job.profit < t[rt].job.profit);
                }
            }
        }
    }
}

/// At most one position of `s` is the first maximum.
pub proof fn lemma_first_max_unique(s: Seq<Node>, i: int, j: int)
    requires
        first_max_at(s, i),
        first_max_at(s, j),
    ensures
        i == j,
{
    if i < j {
        assert(s[i].job.profit < s[j].job.profit);
        assert(s[j].job.profit <= s[i].job.profit);
    }
    if j < i {
        assert(s[j].job.profit < s[i].job.profit);
        assert(s[i].job.profit <= s[j].job.profit);
    }
}

/// Every best-child pointer under `n` stays in bounds, so the chain can be
/// walked.
pub open spec fn links_wf(n: Node) -> bool
    decreases n,
{
    &&& match n.best_child_index {
        None => true,
        Some(bi) => bi < n.children@.len(),
    }
    &&& forall|i: int| 0 <= i < n.children@.len() ==> links_wf(#[trigger] n.children@[i])
}

} // verus!
