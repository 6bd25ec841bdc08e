use vstd::prelude::*;

verus! {

/// A job: the half-open time interval `[start_time, end_time)` together with
/// the profit earned by running it. A well-formed job ends strictly after it
/// starts.
#[derive(Clone, Copy, Debug, PartialEq, Eq, Structural)]
pub struct Job {
    pub start_time: u8,
    pub end_time: u8,
    pub profit: u32,
}

impl Job {
    /// A job must end strictly after it starts; an interval that violates
    /// this is a construction error, never a runtime state.
    pub fn new(start_time: u8, end_time: u8, profit: u32) -> (j: Self)
        requires
            start_time < end_time,
        ensures
            j.start_time == start_time,
            j.end_time == end_time,
            j.profit == profit,
    {
        Self { start_time, end_time, profit }
    }

    /// The interval is non-empty: the job ends strictly after it starts.
    pub open spec fn wf(self) -> bool {
        self.start_time < self.end_time
    }
}

/// Every job in the list is well-formed.
pub open spec fn jobs_wf(s: Seq<Job>) -> bool {
    forall|i: int| 0 <= i < s.len() ==> (#[trigger] s[i]).wf()
}

/// The jobs form a legal chain: each job starts strictly after the previous
/// one ends, so no two of them overlap or even touch.
pub open spec fn chain_ordered(s: Seq<Job>) -> bool {
    forall|i: int| 0 <= i < s.len() - 1 ==> (#[trigger] s[i]).end_time < s[i + 1].start_time
}

} // verus!
