use vstd::prelude::*;
use crate::job::Job;

verus! {

/// rand's thread-local generator, declared opaquely so that verified code
/// can thread it through to the sampling wrappers.
#[verifier::external_type_specification]
#[verifier::external_body]
pub struct ExThreadRng(rand::rngs::ThreadRng);

/// Relies on rand::Rng::gen_range over a half-open u8 range: the sample lies
/// in the range, and the call panics only when the range is empty, which the
/// precondition rules out. Nothing more is assumed of a random value.
#[verifier::external_body]
fn sample_u8(rng: &mut rand::rngs::ThreadRng, lo: u8, hi: u8) -> (r: u8)
    requires
        lo < hi,
    ensures
        lo <= r < hi,
{
    rand::Rng::gen_range(rng, lo..hi)
}

/// Relies on rand::Rng::gen_range over a half-open u32 range: the sample
/// lies in the range, and the call panics only when the range is empty,
/// which the precondition rules out.
#[verifier::external_body]
fn sample_u32(rng: &mut rand::rngs::ThreadRng, lo: u32, hi: u32) -> (r: u32)
    requires
        lo < hi,
    ensures
        lo <= r < hi,
{
    rand::Rng::gen_range(rng, lo..hi)
}

/// Draw one random job: a start time in `[start_lo, start_hi)`, an end time
/// strictly after it but before 10, and a profit in `[profit_lo, profit_hi)`.
/// Start times may not reach past 9, so the end-time range is never empty.
/// Whatever the generator returns, the job is well-formed.
pub fn gen_random_job(
    rng: &mut rand::rngs::ThreadRng,
    start_lo: u8,
    start_hi: u8,
    profit_lo: u32,
    profit_hi: u32,
) -> (j: Job)
    requires
        start_lo < start_hi,
        start_hi <= 9,
        profit_lo < profit_hi,
    ensures
        j.wf(),
        start_lo <= j.start_time < start_hi,
        j.start_time < j.end_time,
        j.end_time < 10,
        profit_lo <= j.profit < profit_hi,
{
    let start_time = sample_u8(rng, start_lo, start_hi);
    let end_time = sample_u8(rng, start_time + 1, 10);
    let profit = sample_u32(rng, profit_lo, profit_hi);
    Job::new(start_time, end_time, profit)
}

} // verus!
