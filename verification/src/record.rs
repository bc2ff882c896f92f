//! One individual of the table, and how a row of cells becomes one.

use vstd::prelude::*;
use crate::numeral::{is_decimal, is_decimal_chars};
use crate::text::{to_chars, trim_of, trimmed};

verus! {

/// The code of a family-influence label: the four labels are ranked from 0 to
/// 3, and no other text has a code.
pub open spec fn influence_code(label: Seq<char>) -> Option<u8> {
    if label == "None"@ {
        Some(0u8)
    } else if label == "Low"@ {
        Some(1u8)
    } else if label == "Medium"@ {
        Some(2u8)
    } else if label == "High"@ {
        Some(3u8)
    } else {
        None
    }
}

/// The label of a family-influence code.
pub open spec fn influence_label(code: u8) -> Seq<char>
    recommends
        code <= 3,
{
    if code == 0 {
        "None"@
    } else if code == 1 {
        "Low"@
    } else if code == 2 {
        "Medium"@
    } else {
        "High"@
    }
}

/// Decoding undoes labelling: the label of each of the four codes decodes to
/// that code.
pub proof fn lemma_label_decodes(code: u8)
    requires
        code <= 3,
    ensures
        influence_code(influence_label(code)) == Some(code),
{
    reveal_strlit("None");
    reveal_strlit("Low");
    reveal_strlit("Medium");
    reveal_strlit("High");
    assert("Low"@.len() == 3);
    assert("None"@.len() == 4);
    assert("Medium"@.len() == 6);
    assert("High"@[0] == 'H');
    assert("None"@[0] == 'N');
}

/// The label of a family-influence code, by which the report names it.
pub fn family_influence_label(code: u8) -> (label: &'static str)
    requires
        code <= 3,
    ensures
        label@ == influence_label(code),
        influence_code(label@) == Some(code),
{
    proof {
        lemma_label_decodes(code);
    }
    if code == 0 {
        "None"
    } else if code == 1 {
        "Low"
    } else if code == 2 {
        "Medium"
    } else {
        "High"
    }
}

/// Whether `chars` spells `word`.
fn spells(chars: &Vec<char>, word: &str) -> (b: bool)
    ensures
        b == (chars@ == word@),
{
    let n: usize = word.unicode_len();
    if chars.len() != n {
        return false;
    }
    let mut i: usize = 0;
    while i < n
        invariant
            n == word@.len(),
            n == chars@.len(),
            i <= n,
            forall|j: int| 0 <= j < i ==> chars@[j] == word@[j],
        decreases n - i,
    {
        if chars[i] != word.get_char(i) {
            return false;
        }
        i += 1;
    }
    assert(chars@ =~= word@);
    true
}

/// Decodes a family-influence label, taken as it is: white space around it is
/// not removed here.
pub fn family_influence_code(label: &str) -> (code: Option<u8>)
    ensures
        code == influence_code(label@),
{
    let chars = to_chars(label);
    if spells(&chars, "None") {
        Some(0)
    } else if spells(&chars, "Low") {
        Some(1)
    } else if spells(&chars, "Medium") {
        Some(2)
    } else if spells(&chars, "High") {
        Some(3)
    } else {
        None
    }
}

/// One individual. Each number is the decimal text of its cell, without the
/// white space around it; the family influence is its code.
#[derive(Debug)]
pub struct Individual {
    /// The position of the row that the individual was read from.
    pub id: usize,
    pub age: String,
    pub years_of_experience: String,
    pub job_satisfaction: String,
    pub professional_network_size: String,
    pub family_influence: u8,
    pub salary: String,
    pub likelihood_to_change_occupation: String,
}

/// What an `Individual` holds, as plain values.
pub struct IndividualView {
    pub id: nat,
    pub age: Seq<char>,
    pub years_of_experience: Seq<char>,
    pub job_satisfaction: Seq<char>,
    pub professional_network_size: Seq<char>,
    pub family_influence: nat,
    pub salary: Seq<char>,
    pub likelihood_to_change_occupation: Seq<char>,
}

impl IndividualView {
    /// Every number is a decimal number and the family influence is one of
    /// the four codes.
    pub open spec fn well_formed(self) -> bool {
        &&& is_decimal(self.age)
        &&& is_decimal(self.years_of_experience)
        &&& is_decimal(self.job_satisfaction)
        &&& is_decimal(self.professional_network_size)
        &&& self.family_influence <= 3
        &&& is_decimal(self.salary)
        &&& is_decimal(self.likelihood_to_change_occupation)
    }
}

impl View for Individual {
    type V = IndividualView;

    open spec fn view(&self) -> IndividualView {
        IndividualView {
            id: self.id as nat,
            age: self.age@,
            years_of_experience: self.years_of_experience@,
            job_satisfaction: self.job_satisfaction@,
            professional_network_size: self.professional_network_size@,
            family_influence: self.family_influence as nat,
            salary: self.salary@,
            likelihood_to_change_occupation: self.likelihood_to_change_occupation@,
        }
    }
}

impl Clone for Individual {
    fn clone(&self) -> (r: Self)
        ensures
            r == *self,
    {
        Individual {
            id: self.id,
            age: self.age.clone(),
            years_of_experience: self.years_of_experience.clone(),
            job_satisfaction: self.job_satisfaction.clone(),
            professional_network_size: self.professional_network_size.clone(),
            family_influence: self.family_influence,
            salary: self.salary.clone(),
            likelihood_to_change_occupation: self.likelihood_to_change_occupation.clone(),
        }
    }
}

impl Individual {
    /// Every number is a decimal number and the family influence is one of
    /// the four codes.
    pub open spec fn well_formed(&self) -> bool {
        self@.well_formed()
    }

    /// Decides whether the value keeps the invariant of the type.
    pub fn is_well_formed(&self) -> (b: bool)
        ensures
            b == self.well_formed(),
    {
        crate::numeral::is_decimal_text(self.age.as_str())
            && crate::numeral::is_decimal_text(self.years_of_experience.as_str())
            && crate::numeral::is_decimal_text(self.job_satisfaction.as_str())
            && crate::numeral::is_decimal_text(self.professional_network_size.as_str())
            && self.family_influence <= 3
            && crate::numeral::is_decimal_text(self.salary.as_str())
            && crate::numeral::is_decimal_text(self.likelihood_to_change_occupation.as_str())
    }
}

/// The individuals of a vector as plain values.
pub open spec fn individuals_view(records: Seq<Individual>) -> Seq<IndividualView> {
    records.map_values(|one: Individual| one@)
}

/// Which column of a row holds which attribute, and how many columns a row
/// must have.
#[derive(Clone, Copy, Debug)]
pub struct ColumnLayout {
    pub age: usize,
    pub years_of_experience: usize,
    pub job_satisfaction: usize,
    pub professional_network_size: usize,
    pub family_influence: usize,
    pub salary: usize,
    pub likelihood_to_change_occupation: usize,
    /// The least number of columns of a row.
    pub width: usize,
}

impl ColumnLayout {
    /// Every column lies within the width.
    pub open spec fn well_formed(&self) -> bool {
        &&& self.age < self.width
        &&& self.years_of_experience < self.width
        &&& self.job_satisfaction < self.width
        &&& self.professional_network_size < self.width
        &&& self.family_influence < self.width
        &&& self.salary < self.width
        &&& self.likelihood_to_change_occupation < self.width
    }

    /// Decides whether every column lies within the width.
    pub fn is_well_formed(&self) -> (b: bool)
        ensures
            b == self.well_formed(),
    {
        self.age < self.width && self.years_of_experience < self.width
            && self.job_satisfaction < self.width && self.professional_network_size
            < self.width && self.family_influence < self.width && self.salary < self.width
            && self.likelihood_to_change_occupation < self.width
    }

    /// The layout of the career table: 23 columns.
    pub fn standard() -> (layout: ColumnLayout)
        ensures
            layout.well_formed(),
            layout == (ColumnLayout {
                age: 2,
                years_of_experience: 4,
                job_satisfaction: 7,
                professional_network_size: 19,
                family_influence: 14,
                salary: 10,
                likelihood_to_change_occupation: 22,
                width: 23,
            }),
    {
        ColumnLayout {
            age: 2,
            years_of_experience: 4,
            job_satisfaction: 7,
            professional_network_size: 19,
            family_influence: 14,
            salary: 10,
            likelihood_to_change_occupation: 22,
            width: 23,
        }
    }
}

/// Why a row is no record.
#[derive(Clone, Copy, Debug, PartialEq, Eq, Structural)]
pub enum RowFailure {
    /// The row has fewer columns than the layout asks for.
    Short,
    /// A number is no decimal number, or the family influence is no label.
    Invalid,
}

/// The cells of a row as plain values.
pub open spec fn cells_view(cells: Seq<String>) -> Seq<Seq<char>> {
    cells.map_values(|cell: String| cell@)
}

/// What a row is: the individual that its cells spell, or why it is none.
/// A row is taken whole or not at all.
pub open spec fn row_outcome(cells: Seq<Seq<char>>, id: nat, layout: ColumnLayout) -> Result<
    IndividualView,
    RowFailure,
> {
    if cells.len() < layout.width {
        Err(RowFailure::Short)
    } else {
        match influence_code(trim_of(cells[layout.family_influence as int])) {
            None => Err(RowFailure::Invalid),
            Some(code) => {
                let found = IndividualView {
                    id,
                    age: trim_of(cells[layout.age as int]),
                    years_of_experience: trim_of(cells[layout.years_of_experience as int]),
                    job_satisfaction: trim_of(cells[layout.job_satisfaction as int]),
                    professional_network_size: trim_of(
                        cells[layout.professional_network_size as int],
                    ),
                    family_influence: code as nat,
                    salary: trim_of(cells[layout.salary as int]),
                    likelihood_to_change_occupation: trim_of(
                        cells[layout.likelihood_to_change_occupation as int],
                    ),
                };
                if found.well_formed() {
                    Ok(found)
                } else {
                    Err(RowFailure::Invalid)
                }
            },
        }
    }
}

/// The cell without the white space around it, if that is a decimal number.
fn number_cell(cell: &String) -> (text: Option<String>)
    ensures
        text is Some == is_decimal(trim_of(cell@)),
        text is Some ==> text->0@ == trim_of(cell@),
{
    let inner = trimmed(cell.as_str());
    let chars = to_chars(inner);
    if is_decimal_chars(&chars) {
        Some(inner.to_owned())
    } else {
        None
    }
}

/// Reads one row of cells. The row is a record where it is wide enough, its
/// six numbers are decimal numbers and its family influence is a label, each
/// cell taken without the white space around it.
pub fn parse_row(cells: &Vec<String>, id: usize, layout: &ColumnLayout) -> (r: Result<
    Individual,
    RowFailure,
>)
    requires
        layout.well_formed(),
    ensures
        match row_outcome(cells_view(cells@), id as nat, *layout) {
            Ok(found) => r is Ok && r->Ok_0@ == found,
            Err(failure) => r == Err::<Individual, RowFailure>(failure),
        },
        r is Ok ==> r->Ok_0.well_formed(),
{
    if cells.len() < layout.width {
        return Err(RowFailure::Short);
    }
    let family_influence = family_influence_code(trimmed(cells[layout.family_influence].as_str()));
    let age = number_cell(&cells[layout.age]);
    let years_of_experience = number_cell(&cells[layout.years_of_experience]);
    let job_satisfaction = number_cell(&cells[layout.job_satisfaction]);
    let professional_network_size = number_cell(&cells[layout.professional_network_size]);
    let salary = number_cell(&cells[layout.salary]);
    let likelihood_to_change_occupation = number_cell(
        &cells[layout.likelihood_to_change_occupation],
    );
    match (
        age,
        years_of_experience,
        job_satisfaction,
        professional_network_size,
        family_influence,
        salary,
        likelihood_to_change_occupation,
    ) {
        (
            Some(age),
            Some(years_of_experience),
            Some(job_satisfaction),
            Some(professional_network_size),
            Some(family_influence),
            Some(salary),
            Some(likelihood_to_change_occupation),
        ) => Ok(
            Individual {
                id,
                age,
                years_of_experience,
                job_satisfaction,
                professional_network_size,
                family_influence,
                salary,
                likelihood_to_change_occupation,
            },
        ),
        _ => Err(RowFailure::Invalid),
    }
}

} // verus!
