use vstd::prelude::*;
use crate::candidates::{
    after, lemma_after_elems, lemma_after_len_excl, lemma_after_neg, lemma_starting_by_elems,
    lemma_sum_after_excl, lemma_sum_concat, lemma_sum_nonneg, min_end, starting_by, sum_profits,
};
use crate::job::{chain_ordered, jobs_wf, Job};
use crate::tree::{
    first_max_at, first_max_index, forest_built, forest_chain, lemma_first_max_index_at,
    lemma_first_max_unique, links_wf, node_built, node_chain, Node,
};

verus! {

/// Every child of every node descends from a job that starts strictly after
/// the node's own job ends: the legality filter, all the way down.
pub open spec fn legal_tree(n: Node) -> bool
    decreases n,
{
    forall|i: int|
        0 <= i < n.children@.len() ==> ((#[trigger] n.children@[i]).job.start_time
            > n.job.end_time && legal_tree(n.children@[i]))
}

/// Every child of every node starts no later than the earliest end time
/// among that node's legal candidates: the fan-out bound, all the way down.
pub open spec fn fanout_bounded(n: Node, jobs: Seq<Job>) -> bool
    decreases n,
{
    forall|i: int|
        0 <= i < n.children@.len() ==> ((#[trigger] n.children@[i]).job.start_time <= min_end(
            after(n.job.end_time as int, jobs),
        ) && fanout_bounded(n.children@[i], jobs))
}

/// Every node's cached total agrees with its selection: its own profit, plus
/// the selected child's total when there is one — all the way down.
pub open spec fn profit_consistent(n: Node) -> bool
    decreases n,
{
    &&& match n.best_child_index {
        None => n.total_profit == n.job.profit,
        Some(bi) => bi < n.children@.len() && n.total_profit == n.children@[bi as int].total_profit
            + n.job.profit,
    }
    &&& forall|i: int| 0 <= i < n.children@.len() ==> profit_consistent(#[trigger] n.children@[i])
}

/// The tree rooted at `n` is at most `d` nodes deep.
pub open spec fn depth_le(n: Node, d: int) -> bool
    decreases n,
{
    &&& 1 <= d
    &&& forall|i: int| 0 <= i < n.children@.len() ==> depth_le(#[trigger] n.children@[i], d - 1)
}

/// A node's cached total profit never exceeds its own profit plus the profit
/// of every job that could still legally follow it. In particular the cached
/// totals stay within the sum of all profits of the job list.
pub proof fn lemma_total_bound(n: Node, j: Job, jobs: Seq<Job>)
    requires
        node_built(n, j, jobs),
        jobs_wf(jobs),
    ensures
        n.total_profit <= j.profit + sum_profits(after(j.end_time as int, jobs)),
    decreases n,
{
    let cands = after(j.end_time as int, jobs);
    lemma_sum_nonneg(cands);
    match n.best_child_index {
        None => {},
        Some(bi) => {
            let bs = starting_by(min_end(cands) as int, cands);
            let c = n.children@[bi as int];
            let jc = bs[bi as int];
            assert(node_built(c, jc, jobs));
            lemma_total_bound(c, jc, jobs);
            lemma_starting_by_elems(min_end(cands) as int, cands);
            assert(cands.contains(jc));
            let wc = choose|w: int| 0 <= w < cands.len() && cands[w] == jc;
            lemma_after_elems(j.end_time as int, jobs);
            assert(cands[wc].start_time > j.end_time);
            assert(jobs.contains(jc));
            let kc = choose|w: int| 0 <= w < jobs.len() && jobs[w] == jc;
            assert(jobs[kc].wf());
            lemma_sum_after_excl(j.end_time as int, jc.end_time as int, jobs, kc);
            lemma_sum_nonneg(after(jc.end_time as int, jobs));
        },
    }
}

/// In a built node every best-child pointer stays in bounds: the selected
/// chain can always be walked.
pub proof fn lemma_built_links_wf(n: Node, j: Job, jobs: Seq<Job>)
    requires
        node_built(n, j, jobs),
    ensures
        links_wf(n),
    decreases n,
{
    let cands = after(j.end_time as int, jobs);
    let bs = starting_by(min_end(cands) as int, cands);
    assert forall|i: int| 0 <= i < n.children@.len() implies links_wf(
        #[trigger] n.children@[i],
    ) by {
        assert(node_built(n.children@[i], bs[i], jobs));
        lemma_built_links_wf(n.children@[i], bs[i], jobs);
    }
}

/// Legality: in a built tree, every child's job starts strictly after its
/// parent's job ends.
pub proof fn lemma_node_legal(n: Node, j: Job, jobs: Seq<Job>)
    requires
        node_built(n, j, jobs),
    ensures
        legal_tree(n),
    decreases n,
{
    let cands = after(j.end_time as int, jobs);
    let bs = starting_by(min_end(cands) as int, cands);
    assert forall|i: int|
        0 <= i < n.children@.len() implies ((#[trigger] n.children@[i]).job.start_time
        > n.job.end_time && legal_tree(n.children@[i])) by {
        assert(node_built(n.children@[i], bs[i], jobs));
        lemma_node_legal(n.children@[i], bs[i], jobs);
        lemma_starting_by_elems(min_end(cands) as int, cands);
        assert(cands.contains(bs[i]));
        let wc = choose|w: int| 0 <= w < cands.len() && cands[w] == bs[i];
        lemma_after_elems(j.end_time as int, jobs);
        assert(cands[wc].start_time > j.end_time);
    }
}

/// Legality over a whole built forest.
pub proof fn lemma_forest_legal(p: int, jobs: Seq<Job>, r: Seq<Node>)
    requires
        forest_built(p, jobs, r),
    ensures
        forall|i: int| 0 <= i < r.len() ==> legal_tree(#[trigger] r[i]),
{
    let cands = after(p, jobs);
    let bs = starting_by(min_end(cands) as int, cands);
    assert forall|i: int| 0 <= i < r.len() implies legal_tree(#[trigger] r[i]) by {
        assert(node_built(r[i], bs[i], jobs));
        lemma_node_legal(r[i], bs[i], jobs);
    }
}

/// Fan-out bound: in a built tree, every child's job starts no later than
/// the earliest end time among its parent's legal candidates.
pub proof fn lemma_node_fanout(n: Node, j: Job, jobs: Seq<Job>)
    requires
        node_built(n, j, jobs),
    ensures
        fanout_bounded(n, jobs),
    decreases n,
{
    let cands = after(j.end_time as int, jobs);
    let bs = starting_by(min_end(cands) as int, cands);
    assert forall|i: int|
        0 <= i < n.children@.len() implies ((#[trigger] n.children@[i]).job.start_time <= min_end(
        after(n.job.end_time as int, jobs),
    ) && fanout_bounded(n.children@[i], jobs)) by {
        assert(node_built(n.children@[i], bs[i], jobs));
        lemma_node_fanout(n.children@[i], bs[i], jobs);
        lemma_starting_by_elems(min_end(cands) as int, cands);
        assert(cands.contains(bs[i]));
    }
}

/// Fan-out bound over a whole built forest.
pub proof fn lemma_forest_fanout(p: int, jobs: Seq<Job>, r: Seq<Node>)
    requires
        forest_built(p, jobs, r),
    ensures
        forall|i: int| 0 <= i < r.len() ==> fanout_bounded(#[trigger] r[i], jobs),
{
    let cands = after(p, jobs);
    let bs = starting_by(min_end(cands) as int, cands);
    assert forall|i: int| 0 <= i < r.len() implies fanout_bounded(#[trigger] r[i], jobs) by {
        assert(node_built(r[i], bs[i], jobs));
        lemma_node_fanout(r[i], bs[i], jobs);
    }
}

/// Total-profit consistency: every built node's cached total is its own
/// profit plus the selected child's total, or its own profit alone at a leaf.
pub proof fn lemma_node_profit_consistent(n: Node, j: Job, jobs: Seq<Job>)
    requires
        node_built(n, j, jobs),
    ensures
        profit_consistent(n),
    decreases n,
{
    let cands = after(j.end_time as int, jobs);
    let bs = starting_by(min_end(cands) as int, cands);
    assert forall|i: int| 0 <= i < n.children@.len() implies profit_consistent(
        #[trigger] n.children@[i],
    ) by {
        assert(node_built(n.children@[i], bs[i], jobs));
        lemma_node_profit_consistent(n.children@[i], bs[i], jobs);
    }
}

/// Total-profit consistency over a whole built forest.
pub proof fn lemma_forest_profit_consistent(p: int, jobs: Seq<Job>, r: Seq<Node>)
    requires
        forest_built(p, jobs, r),
    ensures
        forall|i: int| 0 <= i < r.len() ==> profit_consistent(#[trigger] r[i]),
{
    let cands = after(p, jobs);
    let bs = starting_by(min_end(cands) as int, cands);
    assert forall|i: int| 0 <= i < r.len() implies profit_consistent(#[trigger] r[i]) by {
        assert(node_built(r[i], bs[i], jobs));
        lemma_node_profit_consistent(r[i], bs[i], jobs);
    }
}

/// A built node's cached total is exactly the profit of the chain its
/// pointers select.
pub proof fn lemma_total_is_chain_profit(n: Node, j: Job, jobs: Seq<Job>)
    requires
        node_built(n, j, jobs),
    ensures
        n.total_profit == sum_profits(node_chain(n)),
    decreases n,
{
    assert(seq![n.job].last() == n.job);
    assert(seq![n.job].drop_last() =~= Seq::<Job>::empty());
    assert(sum_profits(Seq::<Job>::empty()) == 0);
    assert(sum_profits(seq![n.job]) == n.job.profit);
    match n.best_child_index {
        None => {},
        Some(bi) => {
            let cands = after(j.end_time as int, jobs);
            let bs = starting_by(min_end(cands) as int, cands);
            let c = n.children@[bi as int];
            assert(node_built(c, bs[bi as int], jobs));
            lemma_total_is_chain_profit(c, bs[bi as int], jobs);
            lemma_sum_concat(seq![n.job], node_chain(c));
        },
    }
}

/// Depth bound: growing the bound keeps it a bound.
pub proof fn lemma_depth_le_mono(n: Node, d1: int, d2: int)
    requires
        depth_le(n, d1),
        d1 <= d2,
    ensures
        depth_le(n, d2),
    decreases n,
{
    assert forall|i: int| 0 <= i < n.children@.len() implies depth_le(
        #[trigger] n.children@[i],
        d2 - 1,
    ) by {
        lemma_depth_le_mono(n.children@[i], d1 - 1, d2 - 1);
    }
}

/// A built tree is no deeper than one more than the number of jobs that may
/// still follow its root's job: each level consumes at least one candidate.
pub proof fn lemma_node_depth(n: Node, j: Job, jobs: Seq<Job>)
    requires
        node_built(n, j, jobs),
        jobs_wf(jobs),
    ensures
        depth_le(n, 1 + after(j.end_time as int, jobs).len() as int),
    decreases n,
{
    let cands = after(j.end_time as int, jobs);
    let bs = starting_by(min_end(cands) as int, cands);
    assert forall|i: int| 0 <= i < n.children@.len() implies depth_le(
        #[trigger] n.children@[i],
        cands.len() as int,
    ) by {
        let c = n.children@[i];
        let jc = bs[i];
        assert(node_built(c, jc, jobs));
        lemma_node_depth(c, jc, jobs);
        lemma_starting_by_elems(min_end(cands) as int, cands);
        assert(cands.contains(jc));
        let wc = choose|w: int| 0 <= w < cands.len() && cands[w] == jc;
        lemma_after_elems(j.end_time as int, jobs);
        assert(cands[wc].start_time > j.end_time);
        assert(jobs.contains(jc));
        let kc = choose|w: int| 0 <= w < jobs.len() && jobs[w] == jc;
        assert(jobs[kc].wf());
        lemma_after_len_excl(j.end_time as int, jc.end_time as int, jobs, kc);
        lemma_depth_le_mono(c, 1 + after(jc.end_time as int, jobs).len() as int, cands.len() as int);
    }
}

/// Termination, as a bound on the structure: every tree of a built forest is
/// at most as deep as the job list is long.
pub proof fn lemma_forest_depth(p: int, jobs: Seq<Job>, r: Seq<Node>)
    requires
        forest_built(p, jobs, r),
        jobs_wf(jobs),
    ensures
        forall|i: int| 0 <= i < r.len() ==> depth_le(#[trigger] r[i], jobs.len() as int),
{
    let cands = after(p, jobs);
    let bs = starting_by(min_end(cands) as int, cands);
    assert forall|i: int| 0 <= i < r.len() implies depth_le(
        #[trigger] r[i],
        jobs.len() as int,
    ) by {
        let jc = bs[i];
        assert(node_built(r[i], jc, jobs));
        lemma_node_depth(r[i], jc, jobs);
        lemma_starting_by_elems(min_end(cands) as int, cands);
        assert(cands.contains(jc));
        let wc = choose|w: int| 0 <= w < cands.len() && cands[w] == jc;
        lemma_after_elems(p, jobs);
        assert(jobs.contains(jc));
        let kc = choose|w: int| 0 <= w < jobs.len() && jobs[w] == jc;
        assert(jobs[kc].wf());
        lemma_after_len_excl(-1, jc.end_time as int, jobs, kc);
        lemma_after_neg(-1, jobs);
        lemma_depth_le_mono(r[i], 1 + after(jc.end_time as int, jobs).len() as int, jobs.len() as int);
    }
}

/// Chain validity: the chain selected from a built node is strictly
/// time-ordered — each job starts strictly after the previous one ends —
/// and begins with the node's own job.
pub proof fn lemma_chain_valid(n: Node, j: Job, jobs: Seq<Job>)
    requires
        node_built(n, j, jobs),
    ensures
        chain_ordered(node_chain(n)),
        node_chain(n).len() >= 1,
        node_chain(n)[0] == n.job,
    decreases n,
{
    match n.best_child_index {
        None => {},
        Some(bi) => {
            let cands = after(j.end_time as int, jobs);
            let bs = starting_by(min_end(cands) as int, cands);
            let c = n.children@[bi as int];
            assert(node_built(c, bs[bi as int], jobs));
            lemma_chain_valid(c, bs[bi as int], jobs);
            lemma_starting_by_elems(min_end(cands) as int, cands);
            assert(cands.contains(bs[bi as int]));
            let wc = choose|w: int| 0 <= w < cands.len() && cands[w] == bs[bi as int];
            lemma_after_elems(j.end_time as int, jobs);
            assert(cands[wc].start_time > j.end_time);
            let ch = node_chain(n);
            let cc = node_chain(c);
            assert forall|i: int| 0 <= i < ch.len() - 1 implies (#[trigger] ch[i]).end_time
                < ch[i + 1].start_time by {
                if i == 0 {
                    assert(ch[1] == cc[0]);
                } else {
                    assert(ch[i] == cc[i - 1]);
                    assert(ch[i + 1] == cc[i]);
                    assert(cc[i - 1].end_time < cc[i].start_time);
                }
            }
        },
    }
}

/// Chain validity for the chain the selector extracts from a built forest.
pub proof fn lemma_selected_chain_valid(p: int, jobs: Seq<Job>, r: Seq<Node>)
    requires
        forest_built(p, jobs, r),
        r.len() > 0,
    ensures
        chain_ordered(forest_chain(r)),
        forest_chain(r).len() >= 1,
{
    lemma_first_max_index_at(r);
    let m = first_max_index(r);
    let cands = after(p, jobs);
    let bs = starting_by(min_end(cands) as int, cands);
    assert(node_built(r[m], bs[m], jobs));
    lemma_chain_valid(r[m], bs[m], jobs);
}

/// Determinism, node by node: two nodes built for the same job over the same
/// job list select the same chain and cache the same total.
pub proof fn lemma_node_deterministic(n1: Node, n2: Node, j: Job, jobs: Seq<Job>)
    requires
        node_built(n1, j, jobs),
        node_built(n2, j, jobs),
    ensures
        node_chain(n1) == node_chain(n2),
        n1.total_profit == n2.total_profit,
    decreases n1,
{
    let cands = after(j.end_time as int, jobs);
    let bs = starting_by(min_end(cands) as int, cands);
    assert(n1.children@.len() == n2.children@.len());
    match (n1.best_child_index, n2.best_child_index) {
        (None, None) => {},
        (Some(bi1), Some(bi2)) => {
            assert(node_built(n1.children@[bi1 as int], bs[bi1 as int], jobs));
            assert forall|k: int| 0 <= k < n1.children@.len() implies (
            #[trigger] n1.children@[k]).job == n2.children@[k].job by {
                assert(node_built(n1.children@[k], bs[k], jobs));
                assert(node_built(n2.children@[k], bs[k], jobs));
            }
            assert(first_max_at(n1.children@, bi2 as int));
            lemma_first_max_unique(n1.children@, bi1 as int, bi2 as int);
            lemma_node_deterministic(
                n1.children@[bi1 as int],
                n2.children@[bi1 as int],
                bs[bi1 as int],
                jobs,
            );
        },
        (None, Some(bi2)) => {
            assert(false);
        },
        (Some(bi1), None) => {
            assert(false);
        },
    }
}

/// Determinism: one job list yields one forest shape and one selected chain.
/// Any two forests built for the same bound over the same list agree on
/// their root count and, when non-empty, on the chain the selector extracts.
pub proof fn lemma_forest_deterministic(p: int, jobs: Seq<Job>, r1: Seq<Node>, r2: Seq<Node>)
    requires
        forest_built(p, jobs, r1),
        forest_built(p, jobs, r2),
    ensures
        r1.len() == r2.len(),
        r1.len() > 0 ==> forest_chain(r1) == forest_chain(r2),
{
    if r1.len() > 0 {
        let cands = after(p, jobs);
        let bs = starting_by(min_end(cands) as int, cands);
        assert forall|k: int| 0 <= k < r1.len() implies (#[trigger] r1[k]).job
            == r2[k].job by {
            assert(node_built(r1[k], bs[k], jobs));
            assert(node_built(r2[k], bs[k], jobs));
        }
        lemma_first_max_index_at(r1);
        lemma_first_max_index_at(r2);
        let i1 = first_max_index(r1);
        let i2 = first_max_index(r2);
        assert(first_max_at(r1, i2));
        lemma_first_max_unique(r1, i1, i2);
        assert(node_built(r1[i1], bs[i1], jobs));
        assert(node_built(r2[i1], bs[i1], jobs));
        lemma_node_deterministic(r1[i1], r2[i1], bs[i1], jobs);
    }
}

} // verus!
