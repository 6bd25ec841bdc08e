use vstd::prelude::*;
use crate::builder::get_options;
use crate::candidates::{after, min_end, starting_by, sum_profits};
use crate::job::{jobs_wf, Job};
use crate::laws::{lemma_built_links_wf, lemma_forest_deterministic};
use crate::tree::{
    first_max_at, first_max_index, forest_built, forest_chain, lemma_first_max_index_at,
    lemma_first_max_unique, links_wf, node_built, node_chain, Node,
};

verus! {

/// Emit `n`'s job, then follow the cached best-child pointers downward,
/// appending one job per node visited.
fn walk(n: &Node, chain: &mut Vec<Job>)
    requires
        links_wf(*n),
    ensures
        final(chain)@ == old(chain)@ + node_chain(*n),
    decreases *n,
{
    chain.push(n.job);
    match n.best_child_index {
        Some(bi) => {
            walk(&n.children[bi], chain);
            proof {
                assert(chain@ =~= old(chain)@ + node_chain(*n));
            }
        },
        None => {
            proof {
                assert(chain@ =~= old(chain)@ + node_chain(*n));
            }
        },
    }
}

/// Extract the single root-to-leaf chain that the forest's cached pointers
/// select: start at the first root of maximal immediate profit — the same
/// rule, with the same tie-break, as the per-node child selection — and
/// follow the best-child pointers to a leaf. The jobs come out in the order
/// visited, which is chronological.
///
/// Returns `None` exactly when the forest is empty: no schedule exists, a
/// legitimate outcome the caller must handle rather than an error.
#[verifier::loop_isolation(false)]
pub fn select_best(forest: &Vec<Node>) -> (r: Option<Vec<Job>>)
    requires
        forall|i: int| 0 <= i < forest@.len() ==> links_wf(#[trigger] forest@[i]),
    ensures
        match r {
            None => forest@.len() == 0,
            Some(chain) => forest@.len() > 0 && chain@ == forest_chain(forest@),
        },
{
    if forest.len() == 0 {
        return None;
    }
    let mut best: usize = 0;
    let mut k: usize = 1;
    while k < forest.len()
        invariant
            1 <= k <= forest@.len(),
            best < k,
            forall|m: int|
                0 <= m < k ==> (#[trigger] forest@[m]).job.profit
                    <= forest@[best as int].job.profit,
            forall|m: int|
                0 <= m < best ==> (#[trigger] forest@[m]).job.profit
                    < forest@[best as int].job.profit,
        decreases forest@.len() - k,
    {
        if forest[k].job.profit > forest[best].job.profit {
            best = k;
        }
        k += 1;
    }
    proof {
        assert(first_max_at(forest@, best as int));
        lemma_first_max_index_at(forest@);
        lemma_first_max_unique(forest@, best as int, first_max_index(forest@));
    }
    let mut chain: Vec<Job> = Vec::new();
    walk(&forest[best], &mut chain);
    proof {
        assert(chain@ =~= node_chain(forest@[best as int]));
    }
    Some(chain)
}

/// Run one whole search: build the options forest past `previous_end_time`
/// and extract the selected chain. `None` exactly when no job can follow at
/// all — in particular on an empty job list.
///
/// The contract quantifies over every forest the builder's specification
/// admits for these inputs; the building is deterministic, so they all
/// select this chain.
pub fn best_schedule(previous_end_time: u8, jobs: &Vec<Job>) -> (r: Option<Vec<Job>>)
    requires
        jobs_wf(jobs@),
        sum_profits(jobs@) <= u32::MAX,
    ensures
        match r {
            None => forall|f: Seq<Node>|
                forest_built(previous_end_time as int, jobs@, f) ==> f.len() == 0,
            Some(chain) => forall|f: Seq<Node>|
                forest_built(previous_end_time as int, jobs@, f) ==> (f.len() > 0 && chain@
                    == forest_chain(f)),
        },
{
    let forest = get_options(previous_end_time, jobs);
    proof {
        let cands = after(previous_end_time as int, jobs@);
        let bs = starting_by(min_end(cands) as int, cands);
        assert forall|i: int| 0 <= i < forest@.len() implies links_wf(
            #[trigger] forest@[i],
        ) by {
            assert(node_built(forest@[i], bs[i], jobs@));
            lemma_built_links_wf(forest@[i], bs[i], jobs@);
        }
    }
    let r = select_best(&forest);
    proof {
        assert forall|f: Seq<Node>|
            forest_built(previous_end_time as int, jobs@, f) implies (f.len() == forest@.len()
            && (f.len() > 0 ==> forest_chain(f) == forest_chain(forest@))) by {
            lemma_forest_deterministic(previous_end_time as int, jobs@, forest@, f);
        }
    }
    r
}

} // verus!
