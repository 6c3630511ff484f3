use vstd::prelude::*;
use crate::domain::models::ElectricityPrice;
use crate::domain::repository::PriceRepository;
use crate::domain::repository::upsert_batch;
use crate::utils::error::AppError;

verus! {

/// The two states of the ingestion scheduler: waiting for the next tick,
/// or one cycle in flight. There is no terminal state — the scheduler runs
/// for the lifetime of the process.
#[derive(Debug, Clone, Copy, PartialEq, Eq, Structural)]
pub enum SchedulerState {
    Idle,
    Running,
}

impl SchedulerState {
    /// The fixed-interval timer fires: an idle scheduler starts a cycle.
    pub fn begin_cycle(&mut self)
        requires
            *old(self) is Idle,
        ensures
            *final(self) is Running,
    {
        *self = SchedulerState::Running;
    }

    /// The cycle's fetch-and-save attempt finished, well or badly: back to
    /// waiting for the next tick.
    pub fn finish_cycle(&mut self)
        requires
            *old(self) is Running,
        ensures
            *final(self) is Idle,
    {
        *self = SchedulerState::Idle;
    }
}

/// What one cycle leaves in the store: a cycle whose fetch failed leaves it
/// untouched; a fetched batch is saved by idempotent upsert.
pub open spec fn cycle_step(
    stored: Seq<ElectricityPrice>,
    fetched: Option<Seq<ElectricityPrice>>,
) -> Seq<ElectricityPrice> {
    match fetched {
        None => stored,
        Some(batch) => upsert_batch(stored, batch),
    }
}

/// How one cycle ended. Every outcome returns the scheduler to waiting:
/// the next tick is the sole recovery mechanism.
#[derive(Debug, Clone, Copy, PartialEq, Eq, Structural)]
pub enum CycleOutcome {
    Saved,
    FetchFailed,
    SaveFailed,
}

/// One scheduler cycle past the fetch: the fetch's result is handed in, a
/// fetched batch is saved to the store, and a failure of either step is
/// caught at the cycle boundary — it ends the cycle, never the scheduler,
/// and is not retried within the cycle.
pub fn run_cycle<R: PriceRepository>(
    repo: &mut R,
    fetched: Result<Vec<ElectricityPrice>, AppError>,
) -> (outcome: CycleOutcome)
    ensures
        outcome is Saved ==> (fetched matches Ok(batch) && final(repo).contents() == cycle_step(
            old(repo).contents(),
            Some(batch@),
        )),
        outcome is FetchFailed ==> final(repo).contents() == cycle_step(
            old(repo).contents(),
            None,
        ),
        outcome is SaveFailed ==> final(repo).contents() == old(repo).contents(),
        outcome is FetchFailed <==> fetched is Err,
{
    match fetched {
        Ok(prices) => {
            match repo.save_prices(&prices) {
                Ok(_) => CycleOutcome::Saved,
                Err(_) => CycleOutcome::SaveFailed,
            }
        },
        Err(_) => CycleOutcome::FetchFailed,
    }
}

/// Law (scheduler isolation): a cycle whose fetch failed leaves the store
/// exactly as it was, so a later cycle that fetches a batch stores the same
/// result as if the failed cycle had never happened.
pub proof fn lemma_scheduler_isolation(
    stored: Seq<ElectricityPrice>,
    batch: Seq<ElectricityPrice>,
)
    ensures
        cycle_step(cycle_step(stored, None), Some(batch)) == cycle_step(stored, Some(batch)),
{
}

} // verus!
