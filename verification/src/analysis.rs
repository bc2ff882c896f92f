//! The plan of the analyses over a sample, the counts that the report needs,
//! and the strength of a correlation.

use vstd::prelude::*;
use crate::doubles::{is_number, magnitude, magnitude_of, INFINITY};
use crate::record::{cells_view, individuals_view, Individual, IndividualView};

verus! {

/// An attribute that salary is set against.
#[derive(Clone, Copy, Debug, PartialEq, Eq, Structural)]
pub enum Predictor {
    Age,
    YearsOfExperience,
    JobSatisfaction,
    ProfessionalNetworkSize,
    FamilyInfluence,
    LikelihoodToChangeOccupation,
}

/// The predictors in the order of the report.
pub open spec fn predictor_order() -> Seq<Predictor> {
    seq![
        Predictor::Age,
        Predictor::YearsOfExperience,
        Predictor::JobSatisfaction,
        Predictor::ProfessionalNetworkSize,
        Predictor::FamilyInfluence,
        Predictor::LikelihoodToChangeOccupation,
    ]
}

/// The decimal text of a family-influence code.
pub open spec fn code_text(code: nat) -> Seq<char> {
    if code == 0 {
        "0"@
    } else if code == 1 {
        "1"@
    } else if code == 2 {
        "2"@
    } else {
        "3"@
    }
}

/// The number that an individual has for a predictor, as decimal text.
pub open spec fn predictor_text(one: IndividualView, predictor: Predictor) -> Seq<char> {
    match predictor {
        Predictor::Age => one.age,
        Predictor::YearsOfExperience => one.years_of_experience,
        Predictor::JobSatisfaction => one.job_satisfaction,
        Predictor::ProfessionalNetworkSize => one.professional_network_size,
        Predictor::FamilyInfluence => code_text(one.family_influence),
        Predictor::LikelihoodToChangeOccupation => one.likelihood_to_change_occupation,
    }
}

/// The numbers of a sample for a predictor, one for each individual and in
/// the order of the sample.
pub open spec fn predictor_values(sample: Seq<IndividualView>, predictor: Predictor) -> Seq<
    Seq<char>,
> {
    sample.map_values(|one: IndividualView| predictor_text(one, predictor))
}

/// The salaries of a sample, in its order.
pub open spec fn salary_values(sample: Seq<IndividualView>) -> Seq<Seq<char>> {
    sample.map_values(|one: IndividualView| one.salary)
}

impl Predictor {
    /// The heading of the predictor's analysis.
    pub open spec fn title_text(self) -> Seq<char> {
        match self {
            Predictor::Age => "Salary vs Age"@,
            Predictor::YearsOfExperience => "Salary vs Years of Experience"@,
            Predictor::JobSatisfaction => "Salary vs Job Satisfaction"@,
            Predictor::ProfessionalNetworkSize => "Salary vs Professional Network Size"@,
            Predictor::FamilyInfluence => "Salary vs Family Influence"@,
            Predictor::LikelihoodToChangeOccupation => "Salary vs Likelihood to Change Occupation"@,
        }
    }

    /// The heading of the predictor's analysis.
    pub fn title(&self) -> (t: &'static str)
        ensures
            t@ == self.title_text(),
    {
        match self {
            Predictor::Age => "Salary vs Age",
            Predictor::YearsOfExperience => "Salary vs Years of Experience",
            Predictor::JobSatisfaction => "Salary vs Job Satisfaction",
            Predictor::ProfessionalNetworkSize => "Salary vs Professional Network Size",
            Predictor::FamilyInfluence => "Salary vs Family Influence",
            Predictor::LikelihoodToChangeOccupation => "Salary vs Likelihood to Change Occupation",
        }
    }

    /// The number that `one` has for the predictor.
    pub fn value_of(&self, one: &Individual) -> (text: String)
        requires
            one.family_influence <= 3,
        ensures
            text@ == predictor_text(one@, *self),
    {
        match self {
            Predictor::Age => one.age.clone(),
            Predictor::YearsOfExperience => one.years_of_experience.clone(),
            Predictor::JobSatisfaction => one.job_satisfaction.clone(),
            Predictor::ProfessionalNetworkSize => one.professional_network_size.clone(),
            Predictor::FamilyInfluence => {
                if one.family_influence == 0 {
                    "0".to_owned()
                } else if one.family_influence == 1 {
                    "1".to_owned()
                } else if one.family_influence == 2 {
                    "2".to_owned()
                } else {
                    "3".to_owned()
                }
            },
            Predictor::LikelihoodToChangeOccupation => one.likelihood_to_change_occupation.clone(),
        }
    }
}

/// The predictors in the order of the report.
pub fn predictors() -> (order: Vec<Predictor>)
    ensures
        order@ == predictor_order(),
{
    let mut order: Vec<Predictor> = Vec::new();
    order.push(Predictor::Age);
    order.push(Predictor::YearsOfExperience);
    order.push(Predictor::JobSatisfaction);
    order.push(Predictor::ProfessionalNetworkSize);
    order.push(Predictor::FamilyInfluence);
    order.push(Predictor::LikelihoodToChangeOccupation);
    assert(order@ =~= predictor_order());
    order
}

/// Whether every individual of the sample has one of the four codes.
pub open spec fn codes_valid(sample: Seq<Individual>) -> bool {
    forall|i: int| 0 <= i < sample.len() ==> (#[trigger] sample[i]).family_influence <= 3
}

/// Decides whether every individual of the sample has one of the four codes.
pub fn has_valid_codes(sample: &Vec<Individual>) -> (b: bool)
    ensures
        b == codes_valid(sample@),
{
    let mut i: usize = 0;
    while i < sample.len()
        invariant
            i <= sample.len(),
            forall|j: int| 0 <= j < i ==> (#[trigger] sample@[j]).family_influence <= 3,
        decreases sample.len() - i,
    {
        if sample[i].family_influence > 3 {
            return false;
        }
        i += 1;
    }
    true
}

/// The numbers of the sample for a predictor, index by index.
pub fn predictor_column(sample: &Vec<Individual>, predictor: Predictor) -> (column: Vec<String>)
    requires
        codes_valid(sample@),
    ensures
        cells_view(column@) == predictor_values(individuals_view(sample@), predictor),
{
    let mut column: Vec<String> = Vec::new();
    let mut i: usize = 0;
    while i < sample.len()
        invariant
            codes_valid(sample@),
            i <= sample.len(),
            column@.len() == i,
            forall|j: int|
                0 <= j < i ==> (#[trigger] column@[j])@ == predictor_text(sample@[j]@, predictor),
        decreases sample.len() - i,
    {
        column.push(predictor.value_of(&sample[i]));
        i += 1;
    }
    assert(cells_view(column@) =~= predictor_values(individuals_view(sample@), predictor));
    column
}

/// The salaries of the sample, index by index.
pub fn salary_column(sample: &Vec<Individual>) -> (column: Vec<String>)
    ensures
        cells_view(column@) == salary_values(individuals_view(sample@)),
{
    let mut column: Vec<String> = Vec::new();
    let mut i: usize = 0;
    while i < sample.len()
        invariant
            i <= sample.len(),
            column@.len() == i,
            forall|j: int| 0 <= j < i ==> (#[trigger] column@[j])@ == sample@[j]@.salary,
        decreases sample.len() - i,
    {
        column.push(sample[i].salary.clone());
        i += 1;
    }
    assert(cells_view(column@) =~= salary_values(individuals_view(sample@)));
    column
}

/// One analysis: a predictor, its numbers over the sample, and the salaries
/// that they are paired with by index.
#[derive(Debug)]
pub struct Analysis {
    pub predictor: Predictor,
    pub x: Vec<String>,
    pub y: Vec<String>,
}

impl Analysis {
    /// Whether this is the analysis of `predictor` over `sample`.
    pub open spec fn is_for(&self, sample: Seq<IndividualView>, predictor: Predictor) -> bool {
        &&& self.predictor == predictor
        &&& cells_view(self.x@) == predictor_values(sample, predictor)
        &&& cells_view(self.y@) == salary_values(sample)
        &&& self.x@.len() == sample.len()
        &&& self.y@.len() == sample.len()
    }
}

/// Whether `plan` is the plan of the analyses of `sample`: one analysis for
/// each predictor, in the order of the report.
pub open spec fn is_plan_of(plan: Seq<Analysis>, sample: Seq<IndividualView>) -> bool {
    &&& plan.len() == predictor_order().len()
    &&& forall|k: int|
        0 <= k < plan.len() ==> (#[trigger] plan[k]).is_for(sample, predictor_order()[k])
}

/// The sample decides the plan: two plans of the same sample hold the same
/// predictors and the same numbers, analysis by analysis.
pub proof fn lemma_same_sample_same_plan(
    sample: Seq<IndividualView>,
    first: Seq<Analysis>,
    second: Seq<Analysis>,
)
    requires
        is_plan_of(first, sample),
        is_plan_of(second, sample),
    ensures
        first.len() == second.len(),
        forall|k: int|
            0 <= k < first.len() ==> {
                &&& (#[trigger] first[k]).predictor == second[k].predictor
                &&& cells_view(first[k].x@) == cells_view(second[k].x@)
                &&& cells_view(first[k].y@) == cells_view(second[k].y@)
            },
{
    assert forall|k: int| 0 <= k < first.len() implies {
        &&& (#[trigger] first[k]).predictor == second[k].predictor
        &&& cells_view(first[k].x@) == cells_view(second[k].x@)
        &&& cells_view(first[k].y@) == cells_view(second[k].y@)
    } by {
        assert(first[k].is_for(sample, predictor_order()[k]));
        assert(second[k].is_for(sample, predictor_order()[k]));
    }
}

/// Lays out the analyses of a sample: one for each predictor, in the order of
/// the report and none left out, each with the predictor's numbers and the
/// salaries, both in the order of the sample.
pub fn analysis_plan(sample: &Vec<Individual>) -> (plan: Vec<Analysis>)
    requires
        codes_valid(sample@),
    ensures
        is_plan_of(plan@, individuals_view(sample@)),
{
    let order = predictors();
    let mut plan: Vec<Analysis> = Vec::new();
    let mut k: usize = 0;
    while k < order.len()
        invariant
            codes_valid(sample@),
            order@ == predictor_order(),
            k <= order.len(),
            plan@.len() == k,
            forall|j: int|
                0 <= j < k ==> (#[trigger] plan@[j]).is_for(
                    individuals_view(sample@),
                    predictor_order()[j],
                ),
        decreases order.len() - k,
    {
        let predictor = order[k];
        let x = predictor_column(sample, predictor);
        let y = salary_column(sample);
        assert(cells_view(x@).len() == x@.len());
        assert(cells_view(y@).len() == y@.len());
        plan.push(Analysis { predictor, x, y });
        k += 1;
    }
    plan
}

/// How many of the first `n` individuals have the family-influence `code`.
pub open spec fn with_code(sample: Seq<IndividualView>, code: nat, n: nat) -> nat
    decreases n,
{
    if n == 0 {
        0
    } else {
        let before = with_code(sample, code, (n - 1) as nat);
        if sample[n - 1].family_influence == code {
            before + 1
        } else {
            before
        }
    }
}

/// How many individuals of a sample have each family influence.
#[derive(Clone, Copy, Debug, PartialEq, Eq, Structural)]
pub struct InfluenceCounts {
    pub none: usize,
    pub low: usize,
    pub medium: usize,
    pub high: usize,
}

impl InfluenceCounts {
    /// Whether these are the counts of `sample`.
    pub open spec fn counts(&self, sample: Seq<IndividualView>) -> bool {
        &&& self.none == with_code(sample, 0, sample.len())
        &&& self.low == with_code(sample, 1, sample.len())
        &&& self.medium == with_code(sample, 2, sample.len())
        &&& self.high == with_code(sample, 3, sample.len())
    }
}

/// Counts the individuals of the sample by their family influence. Where
/// every individual has one of the four codes, the four counts add up to the
/// size of the sample.
pub fn influence_counts(sample: &Vec<Individual>) -> (counts: InfluenceCounts)
    ensures
        counts.counts(individuals_view(sample@)),
        counts.none + counts.low + counts.medium + counts.high <= sample@.len(),
        codes_valid(sample@) ==> counts.none + counts.low + counts.medium + counts.high
            == sample@.len(),
{
    let ghost all = individuals_view(sample@);
    let mut counts = InfluenceCounts { none: 0, low: 0, medium: 0, high: 0 };
    let mut i: usize = 0;
    while i < sample.len()
        invariant
            all == individuals_view(sample@),
            i <= sample.len(),
            counts.none == with_code(all, 0, i as nat),
            counts.low == with_code(all, 1, i as nat),
            counts.medium == with_code(all, 2, i as nat),
            counts.high == with_code(all, 3, i as nat),
            counts.none + counts.low + counts.medium + counts.high <= i,
            codes_valid(sample@) ==> counts.none + counts.low + counts.medium + counts.high == i,
        decreases sample.len() - i,
    {
        let code: u8 = sample[i].family_influence;
        assert(all[i as int].family_influence == code);
        if code == 0 {
            counts.none += 1;
        } else if code == 1 {
            counts.low += 1;
        } else if code == 2 {
            counts.medium += 1;
        } else if code == 3 {
            counts.high += 1;
        }
        i += 1;
    }
    counts
}

/// How many records the report shows from each end of the sample.
pub const SPOT_CHECK: usize = 10;

/// How many positions are shown of `len` where `n` are asked for.
pub open spec fn shown(len: nat, n: nat) -> nat {
    if n <= len {
        n
    } else {
        len
    }
}

/// The first `n` positions of a sample of `len`, from the front; all of them
/// where the sample has fewer.
pub fn first_positions(len: usize, n: usize) -> (at: Vec<usize>)
    ensures
        at@ == Seq::new(shown(len as nat, n as nat), |i: int| i as usize),
{
    let m: usize = if n <= len {
        n
    } else {
        len
    };
    let mut at: Vec<usize> = Vec::new();
    let mut i: usize = 0;
    while i < m
        invariant
            i <= m,
            at@ == Seq::new(i as nat, |j: int| j as usize),
        decreases m - i,
    {
        at.push(i);
        assert(at@ =~= Seq::new((i + 1) as nat, |j: int| j as usize));
        i += 1;
    }
    at
}

/// The last `n` positions of a sample of `len`, in the order of the sample:
/// the last position comes last. All of them where the sample has fewer.
pub fn last_positions(len: usize, n: usize) -> (at: Vec<usize>)
    ensures
        at@ == Seq::new(
            shown(len as nat, n as nat),
            |i: int| (len - shown(len as nat, n as nat) + i) as usize,
        ),
{
    let m: usize = if n <= len {
        n
    } else {
        len
    };
    let mut at: Vec<usize> = Vec::new();
    let mut i: usize = 0;
    while i < m
        invariant
            m <= len,
            i <= m,
            at@ == Seq::new(i as nat, |j: int| (len - m + j) as usize),
        decreases m - i,
    {
        at.push(len - m + i);
        assert(at@ =~= Seq::new((i + 1) as nat, |j: int| (len - m + j) as usize));
        i += 1;
    }
    assert(at@ =~= Seq::new(
        shown(len as nat, n as nat),
        |i: int| (len - shown(len as nat, n as nat) + i) as usize,
    ));
    at
}

/// How strong a correlation is.
#[derive(Clone, Copy, Debug, PartialEq, Eq, Structural)]
pub enum Strength {
    Weak,
    Moderate,
    Strong,
}

impl Strength {
    /// The words of the report for the strength.
    pub open spec fn label_text(self) -> Seq<char> {
        match self {
            Strength::Weak => "Weak correlation"@,
            Strength::Moderate => "Moderate correlation"@,
            Strength::Strong => "Strong correlation"@,
        }
    }

    /// The words of the report for the strength.
    pub fn label(&self) -> (words: &'static str)
        ensures
            words@ == self.label_text(),
    {
        match self {
            Strength::Weak => "Weak correlation",
            Strength::Moderate => "Moderate correlation",
            Strength::Strong => "Strong correlation",
        }
    }
}

/// The encoding of the double nearest to three tenths.
pub const MODERATE_FROM: u64 = 0x3FD3_3333_3333_3333;

/// The encoding of the double nearest to seven tenths.
pub const STRONG_FROM: u64 = 0x3FE6_6666_6666_6666;

/// The strength that goes with the magnitude of a number. The encodings of
/// the doubles that are not negative rise as the doubles do, so the bounds are
/// compared as encodings. A bound itself belongs to the bucket above it.
pub open spec fn strength_of(magnitude: u64) -> Strength {
    if magnitude < MODERATE_FROM {
        Strength::Weak
    } else if magnitude < STRONG_FROM {
        Strength::Moderate
    } else {
        Strength::Strong
    }
}

/// The strength of a correlation: that of its magnitude where it is a
/// number, infinite ones included, and none where it is not.
pub open spec fn strength_of_correlation(correlation_bits: u64) -> Option<Strength> {
    if is_number(correlation_bits) {
        Some(strength_of(magnitude(correlation_bits)))
    } else {
        None
    }
}

/// Classifies a correlation, given as the 64 bits of its double, by its
/// magnitude. A correlation that is no number is undefined and has no
/// strength.
pub fn classify(correlation_bits: u64) -> (strength: Option<Strength>)
    ensures
        strength == strength_of_correlation(correlation_bits),
{
    let m: u64 = magnitude_of(correlation_bits);
    if m > INFINITY {
        None
    } else if m < MODERATE_FROM {
        Some(Strength::Weak)
    } else if m < STRONG_FROM {
        Some(Strength::Moderate)
    } else {
        Some(Strength::Strong)
    }
}

} // verus!
