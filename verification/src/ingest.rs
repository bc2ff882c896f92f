//! From the bytes of a delimited table to its records.

use vstd::prelude::*;
use crate::record::{
    cells_view, individuals_view, parse_row, row_outcome, ColumnLayout, Individual,
    IndividualView, RowFailure,
};

verus! {

/// The number of rows of a table that are looked at; what follows them is
/// left unread.
pub const MAX_ROWS: usize = 20000;

/// A row as the reader hands it out: its cells, or the reader's complaint.
pub type RawRow = Result<Vec<String>, String>;

/// What a raw row holds: the text of its cells, or the text of the complaint.
pub type RawRowView = Result<Seq<Seq<char>>, Seq<char>>;

/// The rows that a reader of the `csv` crate that takes rows of any width
/// finds in `data` after the header row, in order: for each either its cells
/// or the message of the reader's error.
pub uninterp spec fn csv_rows(data: Seq<u8>) -> Seq<RawRowView>;

/// A raw row as plain values.
pub open spec fn raw_row_view(row: RawRow) -> RawRowView {
    match row {
        Ok(cells) => Ok(cells_view(cells@)),
        Err(message) => Err(message@),
    }
}

/// Raw rows as plain values, row by row.
pub open spec fn raw_rows_view(rows: Seq<RawRow>) -> Seq<RawRowView> {
    rows.map_values(|row: RawRow| raw_row_view(row))
}

/// The record iterator of the `csv` crate. Nothing inside it is seen here.
#[verifier::external_type_specification]
#[verifier::external_body]
#[verifier::reject_recursive_types(R)]
pub struct ExStringRecordsIntoIter<R>(csv::StringRecordsIntoIter<R>);

/// The rows that a record iterator over bytes has yet to hand out, in order.
pub uninterp spec fn unread_rows(reader: csv::StringRecordsIntoIter<&[u8]>) -> Seq<RawRowView>;

/// Builds a reader of the `csv` crate over the bytes: `ReaderBuilder::new`,
/// `has_headers(true)`, `flexible(true)`, `from_reader`, then `into_records`.
/// The reader is flexible, so a row may have any number of fields. The
/// contract only names the rows that the iterator will hand out; it claims
/// that the bytes alone decide them. Nothing of this is proved here.
#[verifier::external_body]
fn open_rows<'a>(data: &'a [u8]) -> (reader: csv::StringRecordsIntoIter<&'a [u8]>)
    ensures
        unread_rows(reader) == csv_rows(data@),
{
    csv::ReaderBuilder::new().has_headers(true).flexible(true).from_reader(data).into_records()
}

/// Calls `next` of the record iterator of the `csv` crate. A record is handed
/// out as the text of its fields, an error as its message. The contract claims
/// that the row is the first of those yet unread and leaves the others, and
/// that there is none only where none is unread. Nothing of this is proved
/// here.
#[verifier::external_body]
fn next_row(reader: &mut csv::StringRecordsIntoIter<&[u8]>) -> (row: Option<RawRow>)
    ensures
        match row {
            Some(found) => {
                &&& unread_rows(*old(reader)).len() > 0
                &&& raw_row_view(found) == unread_rows(*old(reader))[0]
                &&& unread_rows(*final(reader)) == unread_rows(*old(reader)).drop_first()
            },
            None => {
                &&& unread_rows(*old(reader)).len() == 0
                &&& unread_rows(*final(reader)) == unread_rows(*old(reader))
            },
        },
{
    match reader.next() {
        None => None,
        Some(Ok(record)) => Some(Ok(record.iter().map(|field| field.to_string()).collect())),
        Some(Err(error)) => Some(Err(error.to_string())),
    }
}

/// Reads the first `limit` rows of the table in `data`, or all of them where
/// it has fewer. What follows them is left unread.
pub fn read_rows(data: &[u8], limit: usize) -> (rows: Vec<RawRow>)
    ensures
        raw_rows_view(rows@) == csv_rows(data@).take(
            considered(csv_rows(data@).len(), limit as nat) as int,
        ),
{
    let ghost all = csv_rows(data@);
    let mut reader = open_rows(data);
    let mut rows: Vec<RawRow> = Vec::new();
    assert(raw_rows_view(rows@) + unread_rows(reader) =~= all);
    let mut ended: bool = false;
    while !ended && rows.len() < limit
        invariant
            all == csv_rows(data@),
            raw_rows_view(rows@) + unread_rows(reader) == all,
            rows@.len() <= limit,
            ended ==> unread_rows(reader).len() == 0,
        decreases (if ended { 0int } else { 1int }), limit - rows@.len(),
    {
        let ghost before = rows@;
        let ghost unread = unread_rows(reader);
        match next_row(&mut reader) {
            None => {
                ended = true;
            },
            Some(row) => {
                rows.push(row);
                assert(raw_rows_view(rows@) =~= raw_rows_view(before).push(raw_row_view(row)));
                assert(raw_rows_view(rows@) + unread.drop_first() =~= raw_rows_view(before)
                    + unread);
            },
        }
    }
    assert(raw_rows_view(rows@) =~= all.take(considered(all.len(), limit as nat) as int));
    rows
}

/// The records of a table, in the order of their rows, and the rows that were
/// dropped, counted by the reason.
#[derive(Debug)]
pub struct Dataset {
    pub records: Vec<Individual>,
    pub short_rows: usize,
    pub invalid_rows: usize,
}

/// What a `Dataset` holds, as plain values.
pub struct DatasetView {
    pub records: Seq<IndividualView>,
    pub short_rows: nat,
    pub invalid_rows: nat,
}

impl View for Dataset {
    type V = DatasetView;

    open spec fn view(&self) -> DatasetView {
        DatasetView {
            records: individuals_view(self.records@),
            short_rows: self.short_rows as nat,
            invalid_rows: self.invalid_rows as nat,
        }
    }
}

impl Dataset {
    /// Every record keeps the invariant of its type, and the rows that were
    /// dropped can be counted together.
    pub open spec fn well_formed(&self) -> bool {
        &&& forall|i: int|
            0 <= i < self.records@.len() ==> (#[trigger] self.records@[i]).well_formed()
        &&& self.short_rows + self.invalid_rows <= usize::MAX
    }

    /// The number of rows that were dropped.
    pub fn parse_errors(&self) -> (n: usize)
        requires
            self.short_rows + self.invalid_rows <= usize::MAX,
        ensures
            n == self.short_rows + self.invalid_rows,
    {
        self.short_rows + self.invalid_rows
    }
}

/// The table cannot be read: the reader failed at a row.
#[derive(Debug)]
pub struct TableError {
    /// The position of the row, the first after the header being 0.
    pub row: usize,
    /// The reader's message.
    pub message: String,
}

/// How many rows are looked at.
pub open spec fn considered(len: nat, limit: nat) -> nat {
    if len <= limit {
        len
    } else {
        limit
    }
}

/// The position of the first among the first `n` rows at which the reader
/// failed.
pub open spec fn first_broken(rows: Seq<RawRowView>, n: nat) -> Option<nat>
    decreases n,
{
    if n == 0 {
        None
    } else {
        match first_broken(rows, (n - 1) as nat) {
            Some(i) => Some(i),
            None => if rows[n - 1] is Err {
                Some((n - 1) as nat)
            } else {
                None
            },
        }
    }
}

/// What the row at `i` is; a row at which the reader failed is none.
pub open spec fn outcome_at(rows: Seq<RawRowView>, layout: ColumnLayout, i: int) -> Result<
    IndividualView,
    RowFailure,
> {
    match rows[i] {
        Ok(cells) => row_outcome(cells, i as nat, layout),
        Err(_) => Err(RowFailure::Invalid),
    }
}

/// The records among the first `n` rows, in the order of the rows.
pub open spec fn records_among(rows: Seq<RawRowView>, layout: ColumnLayout, n: nat) -> Seq<
    IndividualView,
>
    decreases n,
{
    if n == 0 {
        Seq::empty()
    } else {
        let before = records_among(rows, layout, (n - 1) as nat);
        match outcome_at(rows, layout, n - 1) {
            Ok(found) => before.push(found),
            Err(_) => before,
        }
    }
}

/// How many of the first `n` rows were dropped for `failure`.
pub open spec fn dropped_among(
    rows: Seq<RawRowView>,
    layout: ColumnLayout,
    n: nat,
    failure: RowFailure,
) -> nat
    decreases n,
{
    if n == 0 {
        0
    } else {
        let before = dropped_among(rows, layout, (n - 1) as nat, failure);
        if outcome_at(rows, layout, n - 1) == Err::<IndividualView, RowFailure>(failure) {
            before + 1
        } else {
            before
        }
    }
}

/// What a table of raw rows is. Only the first `limit` rows count. Where the
/// reader failed at one of them, the table is refused with the position and
/// the message of the first such row. Else each row is a record or is
/// dropped and counted.
pub open spec fn table_outcome(rows: Seq<RawRowView>, layout: ColumnLayout, limit: nat) -> Result<
    DatasetView,
    (nat, Seq<char>),
> {
    let n = considered(rows.len(), limit);
    match first_broken(rows, n) {
        Some(i) => Err((i, rows[i as int]->Err_0)),
        None => Ok(
            DatasetView {
                records: records_among(rows, layout, n),
                short_rows: dropped_among(rows, layout, n, RowFailure::Short),
                invalid_rows: dropped_among(rows, layout, n, RowFailure::Invalid),
            },
        ),
    }
}

/// Whether `r` is what the table's outcome says.
pub open spec fn matches_outcome(
    r: Result<Dataset, TableError>,
    outcome: Result<DatasetView, (nat, Seq<char>)>,
) -> bool {
    match outcome {
        Ok(table) => r is Ok && r->Ok_0@ == table && r->Ok_0.well_formed(),
        Err((row, message)) => r is Err && r->Err_0.row == row && r->Err_0.message@ == message,
    }
}

/// Turns raw rows into records. The rows are numbered from 0, and a record
/// keeps the number of its row. Rows from `limit` on are not looked at.
pub fn collect_records(rows: &Vec<RawRow>, layout: &ColumnLayout, limit: usize) -> (r: Result<
    Dataset,
    TableError,
>)
    requires
        layout.well_formed(),
    ensures
        matches_outcome(r, table_outcome(raw_rows_view(rows@), *layout, limit as nat)),
{
    let n: usize = if rows.len() <= limit {
        rows.len()
    } else {
        limit
    };
    let ghost table = raw_rows_view(rows@);
    let mut records: Vec<Individual> = Vec::new();
    let mut short_rows: usize = 0;
    let mut invalid_rows: usize = 0;
    let mut i: usize = 0;
    while i < n
        invariant
            layout.well_formed(),
            table == raw_rows_view(rows@),
            n == considered(rows@.len(), limit as nat),
            i <= n,
            first_broken(table, i as nat) is None,
            individuals_view(records@) == records_among(table, *layout, i as nat),
            short_rows == dropped_among(table, *layout, i as nat, RowFailure::Short),
            invalid_rows == dropped_among(table, *layout, i as nat, RowFailure::Invalid),
            short_rows + invalid_rows <= i,
            forall|j: int| 0 <= j < records@.len() ==> (#[trigger] records@[j]).well_formed(),
        decreases n - i,
    {
        assert(table[i as int] == raw_row_view(rows@[i as int]));
        match &rows[i] {
            Err(message) => {
                proof {
                    lemma_first_broken_stays(table, (i + 1) as nat, n as nat);
                }
                return Err(TableError { row: i, message: message.clone() });
            },
            Ok(cells) => {
                let ghost before = records@;
                match parse_row(cells, i, layout) {
                    Ok(found) => {
                        records.push(found);
                        assert(individuals_view(records@) =~= individuals_view(before).push(
                            found@,
                        ));
                    },
                    Err(RowFailure::Short) => {
                        short_rows += 1;
                    },
                    Err(RowFailure::Invalid) => {
                        invalid_rows += 1;
                    },
                }
            },
        }
        i += 1;
    }
    Ok(Dataset { records, short_rows, invalid_rows })
}

/// Once the reader has failed among the first `m` rows, the first failure is
/// the same among any more rows.
proof fn lemma_first_broken_stays(rows: Seq<RawRowView>, m: nat, n: nat)
    requires
        m <= n,
        first_broken(rows, m) is Some,
    ensures
        first_broken(rows, n) == first_broken(rows, m),
    decreases n - m,
{
    if m < n {
        lemma_first_broken_stays(rows, m, (n - 1) as nat);
    }
}

/// What a table is depends on its first `limit` rows alone.
proof fn lemma_outcome_of_prefix(
    rows: Seq<RawRowView>,
    front: Seq<RawRowView>,
    layout: ColumnLayout,
    m: nat,
)
    requires
        m <= front.len() <= rows.len(),
        front == rows.take(front.len() as int),
    ensures
        first_broken(front, m) == first_broken(rows, m),
        records_among(front, layout, m) == records_among(rows, layout, m),
        dropped_among(front, layout, m, RowFailure::Short) == dropped_among(
            rows,
            layout,
            m,
            RowFailure::Short,
        ),
        dropped_among(front, layout, m, RowFailure::Invalid) == dropped_among(
            rows,
            layout,
            m,
            RowFailure::Invalid,
        ),
    decreases m,
{
    if m > 0 {
        lemma_outcome_of_prefix(rows, front, layout, (m - 1) as nat);
        assert(front[m - 1] == rows[m - 1]);
    }
}

/// Reads the table in `data`: a header row, then the rows, of which the first
/// `MAX_ROWS` are read and looked at.
pub fn read_dataset(data: &[u8], layout: &ColumnLayout) -> (r: Result<Dataset, TableError>)
    requires
        layout.well_formed(),
    ensures
        matches_outcome(r, table_outcome(csv_rows(data@), *layout, MAX_ROWS as nat)),
{
    let rows = read_rows(data, MAX_ROWS);
    proof {
        let all = csv_rows(data@);
        let front = raw_rows_view(rows@);
        lemma_outcome_of_prefix(all, front, *layout, front.len());
        match first_broken(all, front.len()) {
            Some(i) => {
                lemma_first_broken_within(all, front.len());
                assert(front[i as int] == all[i as int]);
            },
            None => {},
        }
    }
    collect_records(&rows, layout, MAX_ROWS)
}

/// The first row at which the reader failed lies among those looked at.
proof fn lemma_first_broken_within(rows: Seq<RawRowView>, n: nat)
    ensures
        first_broken(rows, n) is Some ==> first_broken(rows, n)->0 < n,
    decreases n,
{
    if n > 0 {
        lemma_first_broken_within(rows, (n - 1) as nat);
    }
}

} // verus!
