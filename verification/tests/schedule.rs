use jobchain::{best_schedule, get_options, select_best, Job, Node};

fn jobs_of(triples: &[(u8, u8, u32)]) -> Vec<Job> {
    triples.iter().map(|&(s, e, p)| Job::new(s, e, p)).collect()
}

fn depth(n: &Node) -> usize {
    1 + n.children.iter().map(depth).max().unwrap_or(0)
}

#[test]
fn example_three_jobs() {
    let jobs = jobs_of(&[(1, 3, 50), (4, 6, 10), (2, 5, 100)]);
    let forest = get_options(0, &jobs);

    // branch set: candidates starting no later than the earliest end time 3
    assert_eq!(forest.len(), 2);
    assert_eq!(forest[0].job, Job::new(1, 3, 50));
    assert_eq!(forest[1].job, Job::new(2, 5, 100));

    // (1,3,50) is followed by (4,6,10); (2,5,100) by nothing
    assert_eq!(forest[0].children.len(), 1);
    assert_eq!(forest[0].children[0].job, Job::new(4, 6, 10));
    assert_eq!(forest[0].children[0].total_profit, 10);
    assert_eq!(forest[0].total_profit, 60);
    assert_eq!(forest[0].best_child_index, Some(0));
    assert_eq!(forest[1].children.len(), 0);
    assert_eq!(forest[1].total_profit, 100);
    assert_eq!(forest[1].best_child_index, None);

    // the root of maximal immediate profit wins, regardless of what follows
    let chain = select_best(&forest).unwrap();
    assert_eq!(chain, vec![Job::new(2, 5, 100)]);
}

#[test]
fn empty_job_list() {
    let jobs: Vec<Job> = Vec::new();
    let forest = get_options(0, &jobs);
    assert_eq!(forest.len(), 0);
    assert!(select_best(&forest).is_none());
    assert!(best_schedule(0, &jobs).is_none());
}

#[test]
fn no_legal_candidate() {
    // every job starts at 0, and the legality filter is strict
    let jobs = jobs_of(&[(0, 3, 10), (0, 5, 20)]);
    let forest = get_options(0, &jobs);
    assert_eq!(forest.len(), 0);
    assert!(select_best(&forest).is_none());
}

#[test]
fn legality_and_fanout() {
    let jobs = jobs_of(&[(1, 3, 50), (4, 6, 10), (2, 5, 100)]);
    let forest = get_options(0, &jobs);
    // every child starts strictly after its parent ends ...
    for root in &forest {
        for child in &root.children {
            assert!(child.job.start_time > root.job.end_time);
        }
    }
    // ... and no later than the earliest end among the parent's candidates:
    // past (1,3,50) the only candidate is (4,6,10), ending at 6
    assert!(forest[0].children.iter().all(|c| c.job.start_time <= 6));
}

#[test]
fn total_profit_consistency() {
    let jobs = jobs_of(&[(1, 2, 5), (3, 5, 6), (6, 8, 7), (4, 7, 30)]);
    let forest = get_options(0, &jobs);
    assert_eq!(forest.len(), 1);
    let root = &forest[0];
    assert_eq!(root.job, Job::new(1, 2, 5));
    assert_eq!(root.children.len(), 2);
    assert_eq!(root.children[0].job, Job::new(3, 5, 6));
    assert_eq!(root.children[0].total_profit, 13);
    assert_eq!(root.children[1].job, Job::new(4, 7, 30));
    assert_eq!(root.children[1].total_profit, 30);
    // the selected child has the greater immediate profit (30 over 6)
    assert_eq!(root.best_child_index, Some(1));
    assert_eq!(root.total_profit, 30 + 5);
}

#[test]
fn chain_is_time_ordered() {
    let jobs = jobs_of(&[(1, 2, 5), (3, 5, 6), (6, 8, 7), (4, 7, 30)]);
    let forest = get_options(0, &jobs);
    let chain = select_best(&forest).unwrap();
    assert_eq!(chain, vec![Job::new(1, 2, 5), Job::new(4, 7, 30)]);
    for w in chain.windows(2) {
        assert!(w[0].end_time < w[1].start_time);
    }
    // the cached total of the chosen root is the profit of the chain
    let total: u32 = chain.iter().map(|j| j.profit).sum();
    assert_eq!(total, forest[0].total_profit);
}

#[test]
fn selection_by_immediate_profit() {
    // the first root earns more now but less over all; it still wins
    let jobs = jobs_of(&[(2, 3, 10), (1, 4, 9), (5, 9, 100)]);
    let forest = get_options(0, &jobs);
    assert_eq!(forest[0].total_profit, 110);
    assert_eq!(forest[1].total_profit, 109);
    let chain = select_best(&forest).unwrap();
    assert_eq!(chain, vec![Job::new(2, 3, 10), Job::new(5, 9, 100)]);
}

#[test]
fn root_tie_breaks_to_first() {
    let jobs = jobs_of(&[(1, 3, 10), (2, 4, 10)]);
    let forest = get_options(0, &jobs);
    assert_eq!(forest.len(), 2);
    let chain = select_best(&forest).unwrap();
    assert_eq!(chain, vec![Job::new(1, 3, 10)]);
}

#[test]
fn determinism() {
    let jobs = jobs_of(&[(1, 3, 50), (4, 6, 10), (2, 5, 100), (7, 9, 3)]);
    let first = select_best(&get_options(0, &jobs)).unwrap();
    let second = select_best(&get_options(0, &jobs)).unwrap();
    assert_eq!(first, second);
    assert_eq!(best_schedule(0, &jobs).unwrap(), first);
}

#[test]
fn depth_bounded_by_job_count() {
    let jobs = jobs_of(&[(1, 2, 1), (3, 4, 1), (5, 6, 1), (7, 8, 1)]);
    let forest = get_options(0, &jobs);
    for root in &forest {
        assert!(depth(root) <= jobs.len());
    }
}

#[test]
fn single_job() {
    let jobs = jobs_of(&[(3, 7, 42)]);
    let chain = best_schedule(0, &jobs).unwrap();
    assert_eq!(chain, vec![Job::new(3, 7, 42)]);
    // the same job is out of reach when the chain already ends at its start
    assert!(best_schedule(3, &jobs).is_none());
}

#[test]
fn later_bound_prunes_candidates() {
    let jobs = jobs_of(&[(1, 3, 50), (4, 6, 10), (2, 5, 100)]);
    // past time 3 only (4,6,10) may still run
    let chain = best_schedule(3, &jobs).unwrap();
    assert_eq!(chain, vec![Job::new(4, 6, 10)]);
}

#[test]
fn random_jobs_in_range() {
    let mut rng = rand::thread_rng();
    for _ in 0..200 {
        let j = jobchain::gen_random_job(&mut rng, 0, 9, 1, 100);
        assert!(j.start_time < 9);
        assert!(j.start_time < j.end_time);
        assert!(j.end_time < 10);
        assert!(1 <= j.profit && j.profit < 100);
    }
}

#[test]
fn random_jobs_schedule_runs() {
    let mut rng = rand::thread_rng();
    let jobs: Vec<Job> = (0..10)
        .map(|_| jobchain::gen_random_job(&mut rng, 0, 9, 1, 100))
        .collect();
    match best_schedule(0, &jobs) {
        Some(chain) => {
            assert!(!chain.is_empty());
            for w in chain.windows(2) {
                assert!(w[0].end_time < w[1].start_time);
            }
        },
        None => {
            // only possible when no job starts after time 0
            assert!(jobs.iter().all(|j| j.start_time == 0));
        },
    }
}
