//! One run over the records of a table: the sample, and what the report on it
//! is made from.

use vstd::prelude::*;
use crate::analysis::{
    analysis_plan, codes_valid, influence_counts, is_plan_of, lemma_same_sample_same_plan,
    Analysis, InfluenceCounts,
};
use crate::record::{cells_view, individuals_view, Individual};
use crate::sampler::{drawn_len, drawn_records, sample};

verus! {

/// How many records a run draws.
pub const SAMPLE_SIZE: usize = 2000;

/// What a run works on: the sample, the counts of its family influences, and
/// the plan of its analyses.
#[derive(Debug)]
pub struct Study {
    pub sample: Vec<Individual>,
    pub influence: InfluenceCounts,
    pub plan: Vec<Analysis>,
}

impl Study {
    /// Whether this is the study of a draw of `k` from `records` under
    /// `seed`. Its sample is never empty.
    pub open spec fn is_study_of(&self, records: Seq<Individual>, k: nat, seed: u64) -> bool {
        &&& self.sample@ == drawn_records(records, seed, k)
        &&& self.sample@.len() == drawn_len(records.len(), k)
        &&& self.sample@.len() > 0
        &&& codes_valid(self.sample@)
        &&& self.influence.counts(individuals_view(self.sample@))
        &&& self.influence.none + self.influence.low + self.influence.medium
            + self.influence.high == self.sample@.len()
        &&& is_plan_of(self.plan@, individuals_view(self.sample@))
    }
}

/// Prepares a run: draws `k` of the records under `seed`, counts the family
/// influences of the sample and lays out its analyses. Where there is nothing
/// to draw, because there are no records or none is asked for, there is no
/// study, and nothing is drawn.
pub fn study(records: &Vec<Individual>, k: usize, seed: u64) -> (r: Option<Study>)
    requires
        codes_valid(records@),
    ensures
        r is None <==> drawn_len(records@.len(), k as nat) == 0,
        r is Some ==> r->0.is_study_of(records@, k as nat, seed),
{
    if records.len() == 0 || k == 0 {
        return None;
    }
    let drawn = sample(records, k, seed);
    let influence = influence_counts(&drawn);
    let plan = analysis_plan(&drawn);
    Some(Study { sample: drawn, influence, plan })
}

/// A run is decided by the records, the size of the draw and the seed: two
/// studies of the same records under the same seed hold the same sample, the
/// same counts, and analyses with the same predictors and the same numbers.
pub proof fn lemma_same_seed_same_study(
    records: Seq<Individual>,
    k: nat,
    seed: u64,
    first: Study,
    second: Study,
)
    requires
        first.is_study_of(records, k, seed),
        second.is_study_of(records, k, seed),
    ensures
        first.sample@ == second.sample@,
        first.influence == second.influence,
        first.plan@.len() == second.plan@.len(),
        forall|i: int|
            0 <= i < first.plan@.len() ==> {
                &&& (#[trigger] first.plan@[i]).predictor == second.plan@[i].predictor
                &&& cells_view(first.plan@[i].x@) == cells_view(second.plan@[i].x@)
                &&& cells_view(first.plan@[i].y@) == cells_view(second.plan@[i].y@)
            },
{
    lemma_same_sample_same_plan(individuals_view(first.sample@), first.plan@, second.plan@);
}

} // verus!
