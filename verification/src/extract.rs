//! Extraction: projecting rows onto the feature columns and the target
//! column, as text that is known to be numeric.

use crate::number::{is_number, is_number_text};
use crate::record::{as_map, entries_of, Entries, Record};
use crate::schema::{
    faultless, feature_fields, features, is_first_fault, target, target_field, DataError, Field,
};
use crate::text::texts;
use rand::rngs::StdRng;
use rand::seq::SliceRandom;
use vstd::prelude::*;

verus! {

/// What keeps the row at `record` from giving a number in column `field`, if
/// anything: it has no value there, or the value is not a number.
pub open spec fn cell_fault(es: Entries, field: Field, record: int) -> Option<DataError> {
    if !as_map(es).contains_key(field.name()) {
        Some(DataError::MissingField { record: record as usize, field })
    } else if !is_number_text(as_map(es)[field.name()]) {
        Some(DataError::InvalidNumber { record: record as usize, field })
    } else {
        None
    }
}

/// The first fault of the row at `record` in the columns `fields`, taken in order.
pub open spec fn row_fault(es: Entries, fields: Seq<Field>, record: int) -> Option<DataError>
    decreases fields.len(),
{
    if fields.len() == 0 {
        None
    } else if cell_fault(es, fields.first(), record) is Some {
        cell_fault(es, fields.first(), record)
    } else {
        row_fault(es, fields.drop_first(), record)
    }
}

/// The row's values in the columns `fields`, in order.
pub open spec fn values_in(es: Entries, fields: Seq<Field>) -> Seq<Seq<char>> {
    fields.map_values(|field: Field| as_map(es)[field.name()])
}

/// The row's feature vector, as text.
pub open spec fn feature_row(es: Entries) -> Seq<Seq<char>> {
    values_in(es, feature_fields())
}

/// The row's target value, as text.
pub open spec fn target_value(es: Entries) -> Seq<char> {
    as_map(es)[target_field().name()]
}

/// For each row, its first fault in the feature columns.
pub open spec fn feature_faults(table: Seq<Entries>) -> Seq<Option<DataError>> {
    Seq::new(table.len(), |i: int| row_fault(table[i], feature_fields(), i))
}

/// For each row, its fault in the target column.
pub open spec fn target_faults(table: Seq<Entries>) -> Seq<Option<DataError>> {
    Seq::new(table.len(), |i: int| cell_fault(table[i], target_field(), i))
}

/// The faults of extraction in the order in which they are looked for: the
/// feature columns of every row first, the target column of every row after.
pub open spec fn extraction_faults(table: Seq<Entries>) -> Seq<Option<DataError>> {
    feature_faults(table) + target_faults(table)
}

/// Whether `order` lists each of the positions `0 .. n` once.
pub open spec fn is_permutation(order: Seq<int>, n: int) -> bool {
    &&& order.len() == n
    &&& order.no_duplicates()
    &&& forall|i: int| 0 <= i < n ==> 0 <= #[trigger] order[i] < n
}

/// Whether `features` and `target` hold the feature vectors and target
/// values of the rows of `table`, the row at `order[i]` at position `i`.
pub open spec fn is_extraction(
    table: Seq<Entries>,
    order: Seq<int>,
    features: Seq<Vec<String>>,
    target: Seq<String>,
) -> bool {
    &&& features.len() == table.len()
    &&& target.len() == table.len()
    &&& order.len() == table.len()
    &&& forall|i: int|
        0 <= i < table.len() ==> {
            &&& texts((#[trigger] features[i])@) == feature_row(table[order[i]])
            &&& target[i]@ == target_value(table[order[i]])
        }
}

/// The positions `0 .. n` in ascending order.
pub open spec fn identity(n: int) -> Seq<int> {
    Seq::new(n as nat, |i: int| i)
}

/// A feature vector has one entry for each feature column: five.
pub proof fn lemma_feature_row_width(es: Entries)
    ensures
        feature_row(es).len() == 5,
{
}

/// A row's first fault is that of the first faulty column, if there is one.
pub proof fn lemma_row_fault(es: Entries, fields: Seq<Field>, record: int, k: int)
    requires
        0 <= k <= fields.len(),
        forall|j: int| 0 <= j < k ==> cell_fault(es, #[trigger] fields[j], record) is None,
        k < fields.len() ==> cell_fault(es, fields[k], record) is Some,
    ensures
        row_fault(es, fields, record) == if k < fields.len() {
            cell_fault(es, fields[k], record)
        } else {
            None
        },
    decreases fields.len(),
{
    if fields.len() > 0 && k > 0 {
        let rest = fields.drop_first();
        assert(cell_fault(es, fields[0], record) is None);
        assert forall|j: int| 0 <= j < k - 1 implies cell_fault(
            es,
            #[trigger] rest[j],
            record,
        ) is None by {
            assert(rest[j] == fields[j + 1]);
        }
        lemma_row_fault(es, rest, record, k - 1);
    }
}

/// A row without a fault holds a number in each of the columns.
pub proof fn lemma_row_faultless(es: Entries, fields: Seq<Field>, record: int)
    requires
        row_fault(es, fields, record) is None,
    ensures
        forall|k: int|
            0 <= k < fields.len() ==> {
                &&& as_map(es).contains_key((#[trigger] fields[k]).name())
                &&& is_number_text(as_map(es)[fields[k].name()])
            },
    decreases fields.len(),
{
    if fields.len() > 0 {
        let rest = fields.drop_first();
        lemma_row_faultless(es, rest, record);
        assert forall|k: int| 0 <= k < fields.len() implies {
            &&& as_map(es).contains_key((#[trigger] fields[k]).name())
            &&& is_number_text(as_map(es)[fields[k].name()])
        } by {
            if k > 0 {
                assert(rest[k - 1] == fields[k]);
            }
        }
    }
}

/// Where extraction finds no fault, every value that it takes is a number.
pub proof fn lemma_extracted_values_are_numbers(table: Seq<Entries>, i: int)
    requires
        faultless(extraction_faults(table)),
        0 <= i < table.len(),
    ensures
        forall|k: int|
            0 <= k < feature_row(table[i]).len() ==> is_number_text(
                #[trigger] feature_row(table[i])[k],
            ),
        is_number_text(target_value(table[i])),
{
    let faults = extraction_faults(table);
    assert(faults[i] == row_fault(table[i], feature_fields(), i));
    assert(faults[table.len() + i] == cell_fault(table[i], target_field(), i));
    lemma_row_faultless(table[i], feature_fields(), i);
    assert forall|k: int| 0 <= k < feature_row(table[i]).len() implies is_number_text(
        #[trigger] feature_row(table[i])[k],
    ) by {
        assert(is_number_text(as_map(table[i])[feature_fields()[k].name()]));
    }
}

/// The value of the row at `record` in column `field`, if it is a number.
fn numeric_cell(row: &Record, field: Field, record: usize) -> (cell: Result<&String, DataError>)
    ensures
        match cell {
            Ok(value) => cell_fault(row.entries(), field, record as int) is None && value@
                == as_map(row.entries())[field.name()],
            Err(e) => cell_fault(row.entries(), field, record as int) == Some(e),
        },
{
    match row.get(field.as_str()) {
        Some(value) => {
            if is_number(value.as_str()) {
                Ok(value)
            } else {
                Err(DataError::InvalidNumber { record, field })
            }
        },
        None => Err(DataError::MissingField { record, field }),
    }
}

/// The values of the row at `record` in the columns `fields`, if all are numbers.
fn numeric_cells(row: &Record, fields: &Vec<Field>, record: usize) -> (cells: Result<
    Vec<String>,
    DataError,
>)
    ensures
        match cells {
            Ok(values) => row_fault(row.entries(), fields@, record as int) is None && texts(
                values@,
            ) == values_in(row.entries(), fields@),
            Err(e) => row_fault(row.entries(), fields@, record as int) == Some(e),
        },
{
    let ghost es = row.entries();
    let mut values: Vec<String> = Vec::new();
    let mut k: usize = 0;
    while k < fields.len()
        invariant
            k <= fields.len(),
            es == row.entries(),
            forall|j: int| 0 <= j < k ==> cell_fault(es, #[trigger] fields@[j], record as int) is None,
            texts(values@) == values_in(es, fields@.take(k as int)),
        decreases fields.len() - k,
    {
        match numeric_cell(row, fields[k], record) {
            Ok(value) => {
                let ghost before = values@;
                values.push(value.clone());
                assert(texts(values@) =~= texts(before).push(value@));
                assert(values_in(es, fields@.take(k + 1)) =~= values_in(
                    es,
                    fields@.take(k as int),
                ).push(value@));
            },
            Err(e) => {
                proof {
                    lemma_row_fault(es, fields@, record as int, k as int);
                }
                return Err(e);
            },
        }
        k += 1;
    }
    proof {
        lemma_row_fault(es, fields@, record as int, k as int);
        assert(fields@.take(k as int) =~= fields@);
    }
    Ok(values)
}

/// Projects every row onto the feature columns and onto the target column.
///
/// Every value taken must be a number. The feature columns of all rows are
/// looked at first, row by row and in the order of the columns, the target
/// column of all rows after that; the first value that is missing or not a
/// number is reported. Otherwise row `i` of the features and entry `i` of the
/// target hold the values of record `i`, as text.
pub fn extract_features_and_target(data: &[Record]) -> (extracted: Result<
    (Vec<Vec<String>>, Vec<String>),
    DataError,
>)
    ensures
        match extracted {
            Ok((features, target)) => {
                &&& faultless(extraction_faults(entries_of(data@)))
                &&& is_extraction(
                    entries_of(data@),
                    identity(data.len() as int),
                    features@,
                    target@,
                )
            },
            Err(e) => is_first_fault(extraction_faults(entries_of(data@)), e),
        },
{
    let ghost table = entries_of(data@);
    let ghost faults = extraction_faults(table);
    let n = data.len();
    let columns = features();
    let mut rows: Vec<Vec<String>> = Vec::new();
    let mut i: usize = 0;
    while i < n
        invariant
            n == data.len(),
            i <= n,
            table == entries_of(data@),
            faults == extraction_faults(table),
            columns@ == feature_fields(),
            rows.len() == i,
            forall|j: int| 0 <= j < i ==> (#[trigger] faults[j]) is None,
            forall|j: int| 0 <= j < i ==> texts((#[trigger] rows[j])@) == feature_row(table[j]),
        decreases n - i,
    {
        match numeric_cells(&data[i], &columns, i) {
            Ok(values) => {
                assert(faults[i as int] == row_fault(table[i as int], feature_fields(), i as int));
                rows.push(values);
            },
            Err(e) => {
                proof {
                    assert(faults[i as int] == Some(e));
                    assert(faultless(faults.take(i as int)));
                }
                return Err(e);
            },
        }
        i += 1;
    }
    let column = target();
    let mut values: Vec<String> = Vec::new();
    let mut i: usize = 0;
    while i < n
        invariant
            n == data.len(),
            i <= n,
            table == entries_of(data@),
            faults == extraction_faults(table),
            column == target_field(),
            values.len() == i,
            rows.len() == n,
            forall|j: int| 0 <= j < n + i ==> (#[trigger] faults[j]) is None,
            forall|j: int| 0 <= j < n ==> texts((#[trigger] rows[j])@) == feature_row(table[j]),
            forall|j: int| 0 <= j < i ==> (#[trigger] values[j])@ == target_value(table[j]),
        decreases n - i,
    {
        match numeric_cell(&data[i], column, i) {
            Ok(value) => {
                assert(faults[n + i] == cell_fault(table[i as int], target_field(), i as int));
                values.push(value.clone());
            },
            Err(e) => {
                proof {
                    assert(faults[n + i] == Some(e));
                    assert(faultless(faults.take(n + i)));
                }
                return Err(e);
            },
        }
        i += 1;
    }
    Ok((rows, values))
}

/// `rand::rngs::StdRng`, the random source that decides the order of the rows.
/// It can be seeded, so an order can be had again.
#[verifier::external_type_specification]
#[verifier::external_body]
pub struct SeededSource(rand::rngs::StdRng);

/// Shuffles the positions in place with the random source `rng`: what they
/// hold afterwards is what they held before, in some order. This is
/// `rand::seq::SliceRandom::shuffle`, which only swaps entries.
#[verifier::external_body]
fn shuffle_positions(order: &mut Vec<usize>, rng: &mut StdRng)
    ensures
        final(order)@.to_multiset() == old(order)@.to_multiset(),
{
    order.shuffle(rng);
}

/// The positions `0 .. n` in ascending order.
fn ascending(n: usize) -> (order: Vec<usize>)
    ensures
        order@ == Seq::new(n as nat, |i: int| i as usize),
{
    let mut order: Vec<usize> = Vec::new();
    let mut i: usize = 0;
    while i < n
        invariant
            i <= n,
            order.len() == i,
            forall|j: int| 0 <= j < i ==> #[trigger] order[j] == j,
        decreases n - i,
    {
        order.push(i);
        i += 1;
    }
    assert(order@ =~= Seq::new(n as nat, |i: int| i as usize));
    order
}

/// Positions that are `0 .. n` in some order list each of them once.
proof fn lemma_shuffled_identity(order: Seq<usize>, n: int)
    requires
        0 <= n,
        order.to_multiset() == Seq::new(n as nat, |i: int| i as usize).to_multiset(),
        n <= usize::MAX,
    ensures
        is_permutation(order.map_values(|p: usize| p as int), n),
{
    let sorted = Seq::new(n as nat, |i: int| i as usize);
    let mapped = order.map_values(|p: usize| p as int);
    vstd::seq_lib::to_multiset_len(order);
    vstd::seq_lib::to_multiset_len(sorted);
    assert(sorted.no_duplicates());
    sorted.lemma_multiset_has_no_duplicates();
    order.lemma_multiset_has_no_duplicates_conv();
    assert forall|i: int| 0 <= i < n implies 0 <= #[trigger] mapped[i] < n by {
        assert(order.contains(order[i]));
        vstd::seq_lib::to_multiset_contains(order, order[i]);
        vstd::seq_lib::to_multiset_contains(sorted, order[i]);
        let k = choose|k: int| 0 <= k < sorted.len() && sorted[k] == order[i];
        assert(sorted[k] == k);
    }
    assert forall|i: int, j: int| 0 <= i < mapped.len() && 0 <= j < mapped.len() && i != j implies mapped[i]
        != mapped[j] by {
        assert(order[i] != order[j]);
    }
}

/// The texts, copied.
fn copy_texts(values: &Vec<String>) -> (copy: Vec<String>)
    ensures
        texts(copy@) == texts(values@),
{
    let mut copy: Vec<String> = Vec::new();
    let mut i: usize = 0;
    while i < values.len()
        invariant
            i <= values.len(),
            copy.len() == i,
            forall|j: int| 0 <= j < i ==> (#[trigger] copy[j])@ == values[j]@,
        decreases values.len() - i,
    {
        copy.push(values[i].clone());
        i += 1;
    }
    assert(texts(copy@) =~= texts(values@));
    copy
}

/// Rows and values picked from an extraction at the positions that `order`
/// lists are the extraction in that order.
proof fn lemma_rearranged(
    table: Seq<Entries>,
    order: Seq<int>,
    rows: Seq<Vec<String>>,
    values: Seq<String>,
    features: Seq<Vec<String>>,
    target: Seq<String>,
)
    requires
        is_extraction(table, identity(table.len() as int), rows, values),
        is_permutation(order, table.len() as int),
        features.len() == order.len(),
        target.len() == order.len(),
        forall|i: int|
            0 <= i < order.len() ==> {
                &&& texts((#[trigger] features[i])@) == texts(rows[order[i]]@)
                &&& target[i]@ == values[order[i]]@
            },
    ensures
        is_extraction(table, order, features, target),
{
    assert forall|i: int| 0 <= i < table.len() implies {
        &&& texts((#[trigger] features[i])@) == feature_row(table[order[i]])
        &&& target[i]@ == target_value(table[order[i]])
    } by {
        let k = order[i];
        assert(0 <= k < table.len());
        assert(identity(table.len() as int)[k] == k);
        assert(texts(rows[k]@) == feature_row(table[k]));
        assert(values[k]@ == target_value(table[k]));
    }
}

/// The rows and values at the positions that `order` lists, in that order.
fn arranged(rows: &Vec<Vec<String>>, values: &Vec<String>, order: &Vec<usize>) -> (out: (
    Vec<Vec<String>>,
    Vec<String>,
))
    requires
        rows.len() == values.len(),
        forall|i: int| 0 <= i < order.len() ==> #[trigger] order[i] < rows.len(),
    ensures
        out.0.len() == order.len(),
        out.1.len() == order.len(),
        forall|i: int|
            0 <= i < order.len() ==> {
                &&& texts((#[trigger] out.0[i])@) == texts(rows[order[i] as int]@)
                &&& out.1[i]@ == values[order[i] as int]@
            },
{
    let mut features: Vec<Vec<String>> = Vec::new();
    let mut target: Vec<String> = Vec::new();
    let mut i: usize = 0;
    while i < order.len()
        invariant
            i <= order.len(),
            rows.len() == values.len(),
            forall|j: int| 0 <= j < order.len() ==> #[trigger] order[j] < rows.len(),
            features.len() == i,
            target.len() == i,
            forall|j: int|
                0 <= j < i ==> {
                    &&& texts((#[trigger] features[j])@) == texts(rows[order[j] as int]@)
                    &&& target[j]@ == values[order[j] as int]@
                },
        decreases order.len() - i,
    {
        let at = order[i];
        features.push(copy_texts(&rows[at]));
        target.push(values[at].clone());
        i += 1;
    }
    (features, target)
}

/// Projects every row onto the feature columns and onto the target column,
/// and hands the rows out in an order drawn from `rng`.
///
/// A fault is found and reported as by [`extract_features_and_target`], on
/// the rows in the order given. Otherwise the features and the target hold
/// every row once, and entry `i` of the target belongs to row `i` of the
/// features.
pub fn shuffled_features_and_target(data: &[Record], rng: &mut StdRng) -> (extracted: Result<
    (Vec<Vec<String>>, Vec<String>),
    DataError,
>)
    ensures
        match extracted {
            Ok((features, target)) => {
                &&& faultless(extraction_faults(entries_of(data@)))
                &&& exists|order: Seq<int>|
                    {
                        &&& is_permutation(order, data.len() as int)
                        &&& #[trigger] is_extraction(entries_of(data@), order, features@, target@)
                    }
            },
            Err(e) => is_first_fault(extraction_faults(entries_of(data@)), e),
        },
{
    match extract_features_and_target(data) {
        Ok((rows, values)) => {
            let mut order = ascending(data.len());
            shuffle_positions(&mut order, rng);
            let ghost places = order@.map_values(|p: usize| p as int);
            proof {
                lemma_shuffled_identity(order@, data.len() as int);
                assert forall|i: int| 0 <= i < order.len() implies #[trigger] order[i]
                    < rows.len() by {
                    assert(places[i] == order[i]);
                }
            }
            let arranged = arranged(&rows, &values, &order);
            proof {
                assert forall|i: int| 0 <= i < places.len() implies {
                    &&& texts((#[trigger] arranged.0@[i])@) == texts(rows@[places[i]]@)
                    &&& arranged.1@[i]@ == values@[places[i]]@
                } by {
                    assert(places[i] == order[i]);
                }
                lemma_rearranged(
                    entries_of(data@),
                    places,
                    rows@,
                    values@,
                    arranged.0@,
                    arranged.1@,
                );
            }
            let extracted: Result<(Vec<Vec<String>>, Vec<String>), DataError> = Ok(arranged);
            assert(is_extraction(
                entries_of(data@),
                places,
                extracted->Ok_0.0@,
                extracted->Ok_0.1@,
            ));
            extracted
        },
        Err(e) => Err(e),
    }
}

} // verus!
