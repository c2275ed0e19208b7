//! A truth table as text: one column for each variable, in the order of
//! their names, and one for the result.
//!
//! The rows are put in name order by `itertools` and laid out by `tabled`.

use crate::evaluator::{
    in_strict_name_order, rows_in_name_order, rows_view, table_shaped, truth_table, Evaluator,
    EvaluatorPassResult, PassRow,
};
use itertools::Itertools;
use std::cmp::Ordering;
use tabled::builder::Builder;
use tabled::settings::Style;
use tabled::Table;
use vstd::prelude::*;
use vstd::relations::{sorted_by, total_ordering};
use vstd::seq_lib::lemma_sorted_unique;
use vstd::string::*;

verus! {

/// The builder of `tabled`: a list of records, all of one length.
#[verifier::external_type_specification]
#[verifier::external_body]
pub struct ExBuilder(Builder);

/// The table of `tabled`: records and the style in which they are written.
#[verifier::external_type_specification]
#[verifier::external_body]
pub struct ExTable(Table);

/// The records that a table holds: the texts of their cells.
pub uninterp spec fn table_cells(table: Table) -> Seq<Seq<Seq<char>>>;

/// Whether a table is as its builder made it.
pub uninterp spec fn table_plain(table: Table) -> bool;

/// Whether a table is as its builder made it, but for the rounded style.
pub uninterp spec fn table_rounded(table: Table) -> bool;

/// The records that a builder holds: the texts of their cells.
pub uninterp spec fn builder_records(builder: Builder) -> Seq<Seq<Seq<char>>>;

/// The number of columns that a builder counts.
pub uninterp spec fn builder_columns(builder: Builder) -> nat;

/// What the stable sort of `itertools` makes of `states`, ordered by name.
pub uninterp spec fn name_sorted(states: Seq<(char, bool)>) -> Seq<(char, bool)>;

/// The text that `tabled` writes for `records` in its rounded style.
pub uninterp spec fn rounded_table(records: Seq<Seq<Seq<char>>>) -> Seq<char>;

/// Whether `states` stand in the order of their names; states of one name
/// may follow each other.
pub open spec fn in_name_order(states: Seq<(char, bool)>) -> bool {
    forall|i: int, j: int| 0 <= i < j < states.len() ==> states[i].0 <= states[j].0
}

/// Whether every record of the builder is as long as the builder counts
/// columns. A builder is made so, and its methods keep it so.
pub open spec fn builder_even(builder: Builder) -> bool {
    forall|i: int|
        0 <= i < builder_records(builder).len() ==> (#[trigger] builder_records(builder)[i]).len()
            == builder_columns(builder)
}

/// The record `record` with `count` empty cells after it.
pub open spec fn extended(record: Seq<Seq<char>>, count: int) -> Seq<Seq<char>> {
    if count > 0 {
        record + Seq::new(count as nat, |i: int| Seq::<char>::empty())
    } else {
        record
    }
}

/// Each of `records` with `count` empty cells after it.
pub open spec fn extended_all(records: Seq<Seq<Seq<char>>>, count: int) -> Seq<Seq<Seq<char>>> {
    Seq::new(records.len(), |i: int| extended(records[i], count))
}

/// The greater of two numbers.
pub open spec fn wider(a: nat, b: nat) -> nat {
    if a >= b {
        a
    } else {
        b
    }
}

/// The texts of a record.
pub open spec fn record_view(record: Seq<String>) -> Seq<Seq<char>> {
    record.map_values(|cell: String| cell@)
}

/// Compares two states by their names.
fn name_order(a: &(char, bool), b: &(char, bool)) -> (order: Ordering)
    ensures
        order == if a.0 < b.0 {
            Ordering::Less
        } else if a.0 > b.0 {
            Ordering::Greater
        } else {
            Ordering::Equal
        },
{
    if a.0 < b.0 {
        Ordering::Less
    } else if a.0 > b.0 {
        Ordering::Greater
    } else {
        Ordering::Equal
    }
}

/// `Itertools::sorted_by` with the comparison by name: a stable sort, so
/// the result holds the same states, in the order of their names.
#[verifier::external_body]
fn sorted_by_name(states: &Vec<(char, bool)>) -> (sorted: Vec<(char, bool)>)
    ensures
        sorted@ == name_sorted(states@),
        sorted@.len() == states@.len(),
        sorted@.to_multiset() == states@.to_multiset(),
        in_name_order(sorted@),
{
    states.iter().copied().sorted_by(|a, b| name_order(a, b)).collect()
}

/// `Builder::new`: a builder without records and without columns.
#[verifier::external_body]
fn new_builder() -> (builder: Builder)
    ensures
        builder_records(builder) == Seq::<Seq<Seq<char>>>::empty(),
        builder_columns(builder) == 0,
{
    Builder::new()
}

/// `Builder::push_record`: the record becomes the last. The builder then
/// counts as many columns as the longer of the record and its former count.
/// A shorter record is filled up with empty cells; for a longer record
/// every former record gets as many empty cells as the count has grown by.
#[verifier::external_body]
fn push_record(builder: &mut Builder, record: Vec<String>)
    requires
        builder_even(*old(builder)),
    ensures
        builder_columns(*final(builder)) == wider(
            builder_columns(*old(builder)),
            record@.len(),
        ),
        builder_records(*final(builder)) == extended_all(
            builder_records(*old(builder)),
            builder_columns(*final(builder)) - builder_columns(*old(builder)),
        ).push(
            extended(record_view(record@), builder_columns(*final(builder)) - record@.len()),
        ),
{
    builder.push_record(record)
}

/// `Builder::insert_record`: as `push_record`, but the record takes the
/// place `index`, which must not lie beyond the last record.
#[verifier::external_body]
fn insert_record(builder: &mut Builder, index: usize, record: Vec<String>)
    requires
        builder_even(*old(builder)),
        index <= builder_records(*old(builder)).len(),
    ensures
        builder_columns(*final(builder)) == wider(
            builder_columns(*old(builder)),
            record@.len(),
        ),
        builder_records(*final(builder)) == extended_all(
            builder_records(*old(builder)),
            builder_columns(*final(builder)) - builder_columns(*old(builder)),
        ).insert(
            index as int,
            extended(record_view(record@), builder_columns(*final(builder)) - record@.len()),
        ),
{
    builder.insert_record(index, record)
}

/// `Builder::insert_column`: each record gets a cell at the place `index`,
/// which must not lie beyond its end: the first record the first cell of
/// the column, and so on; a record for which the column has no cell gets an
/// empty one, and cells of the column beyond the last record are dropped.
/// The builder counts one column more.
#[verifier::external_body]
fn insert_column(builder: &mut Builder, index: usize, column: Vec<String>)
    requires
        forall|i: int|
            0 <= i < builder_records(*old(builder)).len() ==> index <= (#[trigger] builder_records(
                *old(builder),
            )[i]).len(),
    ensures
        builder_columns(*final(builder)) == builder_columns(*old(builder)) + 1,
        builder_records(*final(builder)) == Seq::new(
            builder_records(*old(builder)).len(),
            |i: int|
                builder_records(*old(builder))[i].insert(
                    index as int,
                    if i < column@.len() {
                        column@[i]@
                    } else {
                        Seq::<char>::empty()
                    },
                ),
        ),
{
    builder.insert_column(index, column)
}

/// `Builder::build`: the table holds the records of the builder, and
/// nothing else is set in it.
#[verifier::external_body]
fn build_table(builder: Builder) -> (table: Table)
    ensures
        table_cells(table) == builder_records(builder),
        table_plain(table),
{
    builder.build()
}

/// `Table::with` for `Style::rounded`: the table keeps its records and
/// takes the rounded style.
#[verifier::external_body]
fn round_table(table: &mut Table)
    ensures
        table_cells(*final(table)) == table_cells(*old(table)),
        table_plain(*old(table)) ==> table_rounded(*final(table)),
{
    table.with(Style::rounded());
}

/// The text that `Table` writes through `Display`: for a table in the
/// rounded style it depends on the records alone.
#[verifier::external_body]
fn table_string(table: &Table) -> (text: String)
    ensures
        table_rounded(*table) ==> text@ == rounded_table(table_cells(*table)),
{
    table.to_string()
}

/// Writes the records of `builder` as a table in the rounded style.
fn render_rounded(builder: Builder) -> (text: String)
    ensures
        text@ == rounded_table(builder_records(builder)),
{
    let mut table = build_table(builder);
    round_table(&mut table);
    table_string(&table)
}

/// Which rows of a truth table are shown.
#[derive(Debug, PartialEq, Eq, Clone, Copy, Structural)]
pub enum RowFilter {
    /// Every row.
    All,
    /// The rows with the result true.
    OnlyTrue,
    /// The rows with the result false.
    OnlyFalse,
}

impl RowFilter {
    /// Whether the filter shows a row with the result `result`.
    pub open spec fn shows(self, result: bool) -> bool {
        match self {
            RowFilter::All => true,
            RowFilter::OnlyTrue => result,
            RowFilter::OnlyFalse => !result,
        }
    }

    /// The filter that the two flags choose. Both at once are refused.
    pub fn from_flags(filter_true: bool, filter_false: bool) -> (res: Result<RowFilter, String>)
        ensures
            match res {
                Ok(filter) => {
                    &&& !(filter_true && filter_false)
                    &&& forall|result: bool| #[trigger]
                        filter.shows(result) == !((filter_true && !result) || (filter_false
                            && result))
                },
                Err(msg) => filter_true && filter_false && msg@
                    == "Cannot filter for both true and false"@,
            },
    {
        if filter_true && filter_false {
            Err(String::from_str("Cannot filter for both true and false"))
        } else if filter_true {
            Ok(RowFilter::OnlyTrue)
        } else if filter_false {
            Ok(RowFilter::OnlyFalse)
        } else {
            Ok(RowFilter::All)
        }
    }

    /// Whether the filter shows `row`.
    pub fn keeps(&self, row: &EvaluatorPassResult) -> (keep: bool)
        ensures
            keep == self.shows(row.result),
    {
        match self {
            RowFilter::All => true,
            RowFilter::OnlyTrue => row.result,
            RowFilter::OnlyFalse => !row.result,
        }
    }
}

/// The text of a truth value.
pub open spec fn bool_text(value: bool) -> Seq<char> {
    if value {
        "true"@
    } else {
        "false"@
    }
}

/// The head of the table for states in name order: the names, then `Result`.
pub open spec fn header_of(sorted: Seq<(char, bool)>) -> Seq<Seq<char>> {
    Seq::new(sorted.len(), |i: int| seq![sorted[i].0]).push("Result"@)
}

/// The record of a row for its states in name order: their values, then
/// the result.
pub open spec fn record_of(sorted: Seq<(char, bool)>, result: bool) -> Seq<Seq<char>> {
    Seq::new(sorted.len(), |i: int| bool_text(sorted[i].1)).push(bool_text(result))
}

/// The records of the first `n` rows that the filter shows.
pub open spec fn shown_records(rows: Seq<PassRow>, filter: RowFilter, n: nat) -> Seq<
    Seq<Seq<char>>,
>
    decreases n,
{
    if n == 0 {
        Seq::empty()
    } else {
        let before = shown_records(rows, filter, (n - 1) as nat);
        let row = rows[n - 1];
        if filter.shows(row.result) {
            before.push(record_of(name_sorted(row.ident_states), row.result))
        } else {
            before
        }
    }
}

/// The records of the table of `rows`: the head, made of the names of the
/// first row, and below it the rows that the filter shows.
pub open spec fn table_records(rows: Seq<PassRow>, filter: RowFilter) -> Seq<Seq<Seq<char>>> {
    seq![header_of(name_sorted(rows[0].ident_states))] + shown_records(
        rows,
        filter,
        rows.len(),
    )
}

/// The records of the first `n` rows that the filter shows, their states
/// taken as they stand.
pub open spec fn plain_shown_records(rows: Seq<PassRow>, filter: RowFilter, n: nat) -> Seq<
    Seq<Seq<char>>,
>
    decreases n,
{
    if n == 0 {
        Seq::empty()
    } else {
        let before = plain_shown_records(rows, filter, (n - 1) as nat);
        let row = rows[n - 1];
        if filter.shows(row.result) {
            before.push(record_of(row.ident_states, row.result))
        } else {
            before
        }
    }
}

/// The records of the table of `rows`, their states taken as they stand.
pub open spec fn plain_table_records(rows: Seq<PassRow>, filter: RowFilter) -> Seq<
    Seq<Seq<char>>,
> {
    seq![header_of(rows[0].ident_states)] + plain_shown_records(rows, filter, rows.len())
}

/// The order by name, and by value among states of one name.
pub open spec fn state_order() -> spec_fn((char, bool), (char, bool)) -> bool {
    |a: (char, bool), b: (char, bool)| a.0 < b.0 || (a.0 == b.0 && (!a.1 || b.1))
}

/// States that stand in strict name order stay as they are when they are
/// put in name order: no other order of the same states is one by name.
pub proof fn lemma_sorting_keeps_name_order(states: Seq<(char, bool)>, sorted: Seq<(char, bool)>)
    requires
        in_strict_name_order(states),
        in_name_order(sorted),
        sorted.to_multiset() == states.to_multiset(),
    ensures
        sorted == states,
{
    broadcast use vstd::seq_lib::to_multiset_contains;

    assert(states.no_duplicates());
    states.lemma_multiset_has_no_duplicates();
    sorted.lemma_multiset_has_no_duplicates_conv();
    let leq = state_order();
    assert(sorted_by(states, leq));
    assert forall|i: int, j: int| 0 <= i < j < sorted.len() implies #[trigger] leq(
        sorted[i],
        sorted[j],
    ) by {
        if sorted[i].0 == sorted[j].0 {
            assert(sorted.contains(sorted[i]));
            assert(sorted.contains(sorted[j]));
            assert(states.to_multiset().count(sorted[i]) > 0);
            assert(states.to_multiset().count(sorted[j]) > 0);
            assert(states.contains(sorted[i]));
            assert(states.contains(sorted[j]));
            let a = choose|a: int| 0 <= a < states.len() && states[a] == sorted[i];
            let b = choose|b: int| 0 <= b < states.len() && states[b] == sorted[j];
            if a < b {
                assert(states[a].0 < states[b].0);
            } else if b < a {
                assert(states[b].0 < states[a].0);
            }
            assert(sorted[i] == sorted[j]);
        }
    }
    assert(total_ordering(leq)) by {
        assert(vstd::relations::reflexive(leq));
        assert(vstd::relations::antisymmetric(leq));
        assert(vstd::relations::transitive(leq));
        assert(vstd::relations::strongly_connected(leq));
    }
    lemma_sorted_unique(sorted, states, leq);
}

/// Writes a truth value.
fn bool_string(value: bool) -> (text: String)
    ensures
        text@ == bool_text(value),
{
    if value {
        String::from_str("true")
    } else {
        String::from_str("false")
    }
}

/// Makes the head of the table from states in name order.
pub fn table_header(sorted: &Vec<(char, bool)>) -> (header: Vec<String>)
    ensures
        record_view(header@) == header_of(sorted@),
{
    let mut header: Vec<String> = Vec::new();
    let mut i: usize = 0;
    while i < sorted.len()
        invariant
            i <= sorted.len(),
            record_view(header@) == Seq::new(i as nat, |k: int| seq![sorted@[k].0]),
        decreases sorted.len() - i,
    {
        let ghost before = record_view(header@);
        let mut name = String::new();
        name.push(sorted[i].0);
        assert(name@ =~= seq![sorted@[i as int].0]);
        header.push(name);
        assert(record_view(header@) =~= before.push(seq![sorted@[i as int].0]));
        i += 1;
    }
    let ghost names = record_view(header@);
    header.push(String::from_str("Result"));
    assert(record_view(header@) =~= names.push("Result"@));
    header
}

/// Writes the values of states in name order.
pub fn state_values(sorted: &Vec<(char, bool)>) -> (values: Vec<String>)
    ensures
        record_view(values@) == Seq::new(sorted@.len(), |k: int| bool_text(sorted@[k].1)),
{
    let mut values: Vec<String> = Vec::new();
    let mut i: usize = 0;
    while i < sorted.len()
        invariant
            i <= sorted.len(),
            record_view(values@) == Seq::new(i as nat, |k: int| bool_text(sorted@[k].1)),
        decreases sorted.len() - i,
    {
        let ghost before = record_view(values@);
        values.push(bool_string(sorted[i].1));
        assert(record_view(values@) =~= before.push(bool_text(sorted@[i as int].1)));
        i += 1;
    }
    values
}

/// Writes the table of `rows`: a head with the names of the variables and
/// `Result`, and a record for each row that `filter` shows, with the values
/// of its states in name order and its result.
pub fn truth_table_text(rows: &Vec<EvaluatorPassResult>, filter: RowFilter) -> (text: String)
    requires
        table_shaped(rows_view(rows@)),
    ensures
        text@ == rounded_table(table_records(rows_view(rows@), filter)),
        rows_in_name_order(rows_view(rows@)) ==> text@ == rounded_table(
            plain_table_records(rows_view(rows@), filter),
        ),
{
    let ghost table = rows_view(rows@);
    let ghost strict = rows_in_name_order(table);
    let ident_count = rows[0].ident_states.len();
    assert(table[0] == rows@[0]@);
    let first = sorted_by_name(&rows[0].ident_states);
    proof {
        if strict {
            lemma_sorting_keeps_name_order(table[0].ident_states, first@);
        }
    }
    let header = table_header(&first);
    let mut builder = new_builder();
    let mut results: Vec<String> = Vec::new();
    let ghost mut values: Seq<Seq<Seq<char>>> = Seq::empty();
    let mut i: usize = 0;
    while i < rows.len()
        invariant
            i <= rows.len(),
            table == rows_view(rows@),
            table_shaped(table),
            strict == rows_in_name_order(table),
            ident_count == table[0].ident_states.len(),
            values.len() == results.len(),
            builder_records(builder) == values,
            builder_columns(builder) == if values.len() > 0 {
                ident_count as nat
            } else {
                0
            },
            builder_even(builder),
            forall|k: int| 0 <= k < values.len() ==> (#[trigger] values[k]).len() == ident_count,
            shown_records(table, filter, i as nat) == Seq::new(
                values.len(),
                |k: int| values[k].push(results@[k]@),
            ),
            strict ==> shown_records(table, filter, i as nat) == plain_shown_records(
                table,
                filter,
                i as nat,
            ),
        decreases rows.len() - i,
    {
        assert(table[i as int] == rows@[i as int]@);
        if filter.keeps(&rows[i]) {
            let sorted = sorted_by_name(&rows[i].ident_states);
            proof {
                if strict {
                    lemma_sorting_keeps_name_order(table[i as int].ident_states, sorted@);
                }
            }
            let record = state_values(&sorted);
            assert(record@.len() == ident_count) by {
                assert(record_view(record@).len() == record@.len());
                assert(sorted@.len() == table[i as int].ident_states.len());
            }
            let ghost before = values;
            let ghost outcomes = results@;
            push_record(&mut builder, record);
            results.push(bool_string(rows[i].result));
            proof {
                values = before.push(record_view(record@));
                let grown = if before.len() > 0 {
                    0int
                } else {
                    ident_count as int
                };
                assert(extended_all(before, grown) =~= before);
                assert(extended(record_view(record@), 0) == record_view(record@));
                assert(builder_records(builder) == values);
                assert(shown_records(table, filter, (i + 1) as nat) =~= Seq::new(
                    values.len(),
                    |k: int| values[k].push(results@[k]@),
                )) by {
                    let earlier = Seq::new(before.len(), |k: int| before[k].push(outcomes[k]@));
                    let now = Seq::new(values.len(), |k: int| values[k].push(results@[k]@));
                    assert(record_of(sorted@, rows@[i as int].result) =~= record_view(
                        record@,
                    ).push(bool_text(rows@[i as int].result)));
                    assert(now =~= earlier.push(record_of(sorted@, rows@[i as int].result)));
                }
            }
        }
        i += 1;
    }
    let ghost outcomes = results@;
    insert_column(&mut builder, ident_count, results);
    proof {
        assert(builder_records(builder) =~= shown_records(table, filter, rows.len() as nat)) by {
            assert forall|k: int| 0 <= k < values.len() implies values[k].insert(
                ident_count as int,
                outcomes[k]@,
            ) == values[k].push(outcomes[k]@) by {
                assert(values[k].insert(ident_count as int, outcomes[k]@) =~= values[k].push(
                    outcomes[k]@,
                ));
            }
        }
    }
    let ghost shown = builder_records(builder);
    let ghost head = record_view(header@);
    let ghost counted = builder_columns(builder);
    proof {
        assert forall|k: int| 0 <= k < shown.len() implies (#[trigger] shown[k]).len()
            == counted by {
            assert(shown[k] == values[k].push(outcomes[k]@));
        }
    }
    assert(header@.len() == ident_count + 1) by {
        assert(record_view(header@).len() == header@.len());
    }
    insert_record(&mut builder, 0, header);
    proof {
        let width = builder_columns(builder);
        assert(width == ident_count + 1);
        assert(extended(head, 0) == head);
        assert(extended_all(shown, width - counted) =~= shown);
        assert(builder_records(builder) =~= table_records(table, filter));
        if strict {
            assert(table_records(table, filter) =~= plain_table_records(table, filter));
        }
    }
    render_rounded(builder)
}

/// Writes the truth table of the tree of `evaluator`, for the rows that
/// `filter` shows.
pub fn truth_table_of(evaluator: &Evaluator, filter: RowFilter) -> (text: String)
    ensures
        text@ == rounded_table(plain_table_records(truth_table(evaluator.ast()), filter)),
{
    let rows = evaluator.evaluate_iter();
    truth_table_text(&rows, filter)
}

} // verus!
