//! Cleaning: trimming every name and value, and dropping incomplete rows.

use crate::record::{
    as_map, distinct_keys, entries_of, has_key, has_key_before, insert_entry,
    lemma_insert_entry, lemma_insert_keeps_distinct, lemma_position, value_of, Entries, Record,
};
use crate::schema::{required, required_fields, Field};
use crate::text::{
    is_trimmed, lemma_trimmed_fixes_trimmed, lemma_trimmed_is_trimmed, trim, trimmed,
};
use vstd::prelude::*;

verus! {

/// The fields of a record after every name and value was trimmed. Where two
/// names become equal, the later field's value stands in the earlier field's
/// place.
pub open spec fn cleaned_entries(es: Entries) -> Entries
    decreases es.len(),
{
    if es.len() == 0 {
        Seq::empty()
    } else {
        insert_entry(
            cleaned_entries(es.drop_last()),
            trimmed(es.last().0),
            trimmed(es.last().1),
        )
    }
}

/// Whether the fields hold a value, and not the empty one, in column `field`.
pub open spec fn is_filled(es: Entries, field: Field) -> bool {
    as_map(es).contains_key(field.name()) && as_map(es)[field.name()].len() > 0
}

/// Whether the fields hold a value, and not the empty one, in every required column.
pub open spec fn is_complete(es: Entries) -> bool {
    forall|k: int| 0 <= k < required_fields().len() ==> is_filled(es, #[trigger] required_fields()[k])
}

/// Whether no name and no value starts or ends with whitespace.
pub open spec fn all_trimmed(es: Entries) -> bool {
    forall|i: int|
        0 <= i < es.len() ==> is_trimmed((#[trigger] es[i]).0) && is_trimmed(es[i].1)
}

/// The table after cleaning: every row trimmed, the complete ones kept, in order.
pub open spec fn cleaned_table(table: Seq<Entries>) -> Seq<Entries> {
    table.map_values(|es: Entries| cleaned_entries(es)).filter(|es: Entries| is_complete(es))
}

/// Cleaned fields have distinct, trimmed names and trimmed values.
pub proof fn lemma_cleaned_entries(es: Entries)
    ensures
        distinct_keys(cleaned_entries(es)),
        all_trimmed(cleaned_entries(es)),
    decreases es.len(),
{
    if es.len() > 0 {
        let rest = cleaned_entries(es.drop_last());
        let key = trimmed(es.last().0);
        let value = trimmed(es.last().1);
        lemma_cleaned_entries(es.drop_last());
        lemma_insert_keeps_distinct(rest, key, value);
        lemma_trimmed_is_trimmed(es.last().0);
        lemma_trimmed_is_trimmed(es.last().1);
        if has_key(rest, key) {
            lemma_position(rest, key);
        }
    }
}

/// A name stands in the cleaned fields exactly if it is the trimmed form of
/// a name in the raw ones.
pub proof fn lemma_cleaned_names(es: Entries, name: Seq<char>)
    ensures
        has_key(cleaned_entries(es), name) <==> exists|i: int|
            0 <= i < es.len() && trimmed((#[trigger] es[i]).0) == name,
    decreases es.len(),
{
    if es.len() > 0 {
        let rest = es.drop_last();
        let key = trimmed(es.last().0);
        let value = trimmed(es.last().1);
        lemma_cleaned_names(rest, name);
        lemma_cleaned_entries(rest);
        lemma_insert_entry(cleaned_entries(rest), key, value);
        if has_key(cleaned_entries(es), name) {
            if name == key {
                assert(trimmed(es[es.len() - 1].0) == name);
            } else {
                let i = choose|i: int| 0 <= i < rest.len() && trimmed((#[trigger] rest[i]).0) == name;
                assert(trimmed(es[i].0) == name);
            }
        }
        if exists|i: int| 0 <= i < es.len() && trimmed((#[trigger] es[i]).0) == name {
            let i = choose|i: int| 0 <= i < es.len() && trimmed((#[trigger] es[i]).0) == name;
            if name != key {
                assert(trimmed(rest[i].0) == name);
            }
        }
    } else {
        assert(!has_key_before(cleaned_entries(es), name, 0));
    }
}

/// Where only one raw name trims to a given name, the cleaned record holds
/// that field's trimmed value under it.
pub proof fn lemma_cleaned_value(es: Entries, i: int)
    requires
        0 <= i < es.len(),
        forall|j: int| 0 <= j < es.len() && j != i ==> trimmed(es[j].0) != trimmed(es[i].0),
    ensures
        has_key(cleaned_entries(es), trimmed(es[i].0)),
        value_of(cleaned_entries(es), trimmed(es[i].0)) == trimmed(es[i].1),
    decreases es.len(),
{
    let rest = es.drop_last();
    let key = trimmed(es.last().0);
    let value = trimmed(es.last().1);
    lemma_cleaned_entries(rest);
    lemma_insert_entry(cleaned_entries(rest), key, value);
    if i < es.len() - 1 {
        assert(trimmed(es[es.len() - 1].0) != trimmed(es[i].0));
        assert forall|j: int| 0 <= j < rest.len() && j != i implies trimmed(rest[j].0) != trimmed(
            rest[i].0,
        ) by {
            assert(rest[j] == es[j]);
        }
        lemma_cleaned_value(rest, i);
    }
}

/// Cleaning keeps the rows that are complete once trimmed, and only those;
/// every row it keeps is trimmed throughout.
pub proof fn lemma_cleaning_keeps_complete_rows(table: Seq<Entries>)
    ensures
        forall|j: int|
            0 <= j < cleaned_table(table).len() ==> is_complete(#[trigger] cleaned_table(table)[j])
                && all_trimmed(cleaned_table(table)[j]) && distinct_keys(cleaned_table(table)[j]),
        forall|i: int|
            0 <= i < table.len() ==> (is_complete(cleaned_entries(#[trigger] table[i]))
                <==> cleaned_table(table).contains(cleaned_entries(table[i]))),
        cleaned_table(table).len() <= table.len(),
{
    let trimmed_rows = table.map_values(|es: Entries| cleaned_entries(es));
    let complete = |es: Entries| is_complete(es);
    let kept = cleaned_table(table);
    broadcast use vstd::seq_lib::group_filter_ensures;
    assert forall|j: int| 0 <= j < kept.len() implies is_complete(#[trigger] kept[j])
        && all_trimmed(kept[j]) && distinct_keys(kept[j]) by {
        assert(complete(kept[j]));
        assert(kept.contains(kept[j]));
        trimmed_rows.lemma_filter_contains_rev(complete, kept[j]);
        let i = choose|i: int| 0 <= i < trimmed_rows.len() && trimmed_rows[i] == kept[j];
        lemma_cleaned_entries(table[i]);
    }
    assert forall|i: int| 0 <= i < table.len() implies (is_complete(
        cleaned_entries(#[trigger] table[i]),
    ) <==> kept.contains(cleaned_entries(table[i]))) by {
        let c = cleaned_entries(table[i]);
        assert(trimmed_rows[i] == c);
        if kept.contains(c) {
            let j = choose|j: int| 0 <= j < kept.len() && kept[j] == c;
            assert(complete(kept[j]));
        }
        if is_complete(c) {
            assert(complete(trimmed_rows[i]));
        }
    }
}

/// Cleaning leaves fields with distinct names as they are where no name and
/// no value starts or ends with whitespace.
pub proof fn lemma_cleaning_fixes_trimmed_entries(es: Entries)
    requires
        distinct_keys(es),
        all_trimmed(es),
    ensures
        cleaned_entries(es) == es,
    decreases es.len(),
{
    if es.len() > 0 {
        let rest = es.drop_last();
        lemma_cleaning_fixes_trimmed_entries(rest);
        lemma_trimmed_fixes_trimmed(es.last().0);
        lemma_trimmed_fixes_trimmed(es.last().1);
        assert(!has_key(rest, es.last().0)) by {
            if has_key(rest, es.last().0) {
                lemma_position(rest, es.last().0);
            }
        }
        assert(rest.push(es.last()) =~= es);
    } else {
        assert(cleaned_entries(es) =~= es);
    }
}

/// Cleaning a record twice gives what cleaning it once gives.
pub proof fn lemma_cleaning_record_idempotent(es: Entries)
    ensures
        cleaned_entries(cleaned_entries(es)) == cleaned_entries(es),
{
    lemma_cleaned_entries(es);
    lemma_cleaning_fixes_trimmed_entries(cleaned_entries(es));
}

/// Cleaning a table twice gives what cleaning it once gives.
pub proof fn lemma_cleaning_idempotent(table: Seq<Entries>)
    ensures
        cleaned_table(cleaned_table(table)) == cleaned_table(table),
{
    let once = cleaned_table(table);
    lemma_cleaning_keeps_complete_rows(table);
    let again = once.map_values(|es: Entries| cleaned_entries(es));
    assert(again =~= once) by {
        assert forall|j: int| 0 <= j < once.len() implies again[j] == once[j] by {
            lemma_cleaning_fixes_trimmed_entries(once[j]);
        }
    }
    lemma_filter_keeps_all(once, |es: Entries| is_complete(es));
}

/// A filter that every entry passes keeps the sequence as it is.
proof fn lemma_filter_keeps_all(rows: Seq<Entries>, keep: spec_fn(Entries) -> bool)
    requires
        forall|j: int| 0 <= j < rows.len() ==> keep(#[trigger] rows[j]),
    ensures
        rows.filter(keep) == rows,
    decreases rows.len(),
{
    reveal(Seq::filter);
    if rows.len() > 0 {
        lemma_filter_keeps_all(rows.drop_last(), keep);
        assert(rows.drop_last().push(rows.last()) =~= rows);
    }
}

/// Returns the record with every name and value trimmed.
pub fn clean_record(record: &Record) -> (cleaned: Record)
    ensures
        cleaned.entries() == cleaned_entries(record.entries()),
        all_trimmed(cleaned.entries()),
{
    let n = record.len();
    let mut cleaned = Record::new();
    let mut i: usize = 0;
    while i < n
        invariant
            n == record.entries().len(),
            i <= n,
            cleaned.entries() == cleaned_entries(record.entries().take(i as int)),
        decreases n - i,
    {
        let key = trim(record.key_at(i).as_str());
        let value = trim(record.value_at(i).as_str());
        cleaned.insert(key, value);
        proof {
            let next = record.entries().take(i + 1);
            assert(next.drop_last() =~= record.entries().take(i as int));
            assert(next.last() == record.entries()[i as int]);
        }
        i += 1;
    }
    proof {
        assert(record.entries().take(n as int) =~= record.entries());
        lemma_cleaned_entries(record.entries());
    }
    cleaned
}

/// Whether the record holds a value, and not the empty one, in column `field`.
pub fn filled(record: &Record, field: Field) -> (b: bool)
    ensures
        b == is_filled(record.entries(), field),
{
    match record.get(field.as_str()) {
        Some(value) => !value.as_str().is_empty(),
        None => false,
    }
}

/// Whether the record holds a value, and not the empty one, in every required column.
pub fn complete(record: &Record) -> (b: bool)
    ensures
        b == is_complete(record.entries()),
{
    let fields = required();
    let mut k: usize = 0;
    while k < fields.len()
        invariant
            fields@ == required_fields(),
            k <= fields.len(),
            forall|j: int| 0 <= j < k ==> is_filled(record.entries(), #[trigger] required_fields()[j]),
        decreases fields.len() - k,
    {
        if !filled(record, fields[k]) {
            return false;
        }
        k += 1;
    }
    true
}

/// Trims every name and value of every record, then keeps the records that
/// hold a value, and not the empty one, in every required column. The records
/// kept stand in the order in which they came.
pub fn clean_data(data: Vec<Record>) -> (cleaned: Vec<Record>)
    ensures
        entries_of(cleaned@) == cleaned_table(entries_of(data@)),
        forall|j: int|
            0 <= j < cleaned.len() ==> is_complete((#[trigger] cleaned[j]).entries())
                && all_trimmed(cleaned[j].entries()),
        forall|i: int|
            0 <= i < data.len() ==> (is_complete(cleaned_entries((#[trigger] data[i]).entries()))
                <==> entries_of(cleaned@).contains(cleaned_entries(data[i].entries()))),
        cleaned.len() <= data.len(),
{
    let ghost table = entries_of(data@);
    let ghost trimmed_rows = table.map_values(|es: Entries| cleaned_entries(es));
    let ghost keep = |es: Entries| is_complete(es);
    let n = data.len();
    let mut cleaned: Vec<Record> = Vec::new();
    let mut i: usize = 0;
    proof {
        reveal(Seq::filter);
        assert(trimmed_rows.take(0) =~= Seq::<Entries>::empty());
    }
    while i < n
        invariant
            n == data.len(),
            i <= n,
            table == entries_of(data@),
            trimmed_rows == table.map_values(|es: Entries| cleaned_entries(es)),
            keep == |es: Entries| is_complete(es),
            entries_of(cleaned@) == trimmed_rows.take(i as int).filter(keep),
        decreases n - i,
    {
        let record = clean_record(&data[i]);
        proof {
            reveal(Seq::filter);
            let next = trimmed_rows.take(i + 1);
            assert(next.drop_last() =~= trimmed_rows.take(i as int));
            assert(next.last() == cleaned_entries(data[i as int].entries()));
        }
        let ghost before = cleaned@;
        if complete(&record) {
            cleaned.push(record);
            assert(entries_of(cleaned@) =~= entries_of(before).push(record.entries()));
        }
        i += 1;
    }
    proof {
        assert(trimmed_rows.take(n as int) =~= trimmed_rows);
        lemma_cleaning_keeps_complete_rows(table);
        assert forall|j: int| 0 <= j < cleaned.len() implies is_complete(
            (#[trigger] cleaned[j]).entries(),
        ) && all_trimmed(cleaned[j].entries()) by {
            assert(entries_of(cleaned@)[j] == cleaned[j].entries());
        }
        assert forall|i: int| 0 <= i < data.len() implies (is_complete(
            cleaned_entries((#[trigger] data[i]).entries()),
        ) <==> entries_of(cleaned@).contains(cleaned_entries(data[i].entries()))) by {
            assert(table[i] == data[i].entries());
        }
        assert(entries_of(cleaned@).len() == cleaned.len());
    }
    cleaned
}

} // verus!
