//! The publisher rating: grouping the rows' ratings by publisher, and
//! writing each publisher's rating back into its rows.
//!
//! The average itself is floating-point arithmetic and is left to the
//! caller: [`group_ratings`] hands out, for each publisher, the ratings to
//! average, and [`add_publisher_rating`] takes the averages back as text.

use crate::number::{is_number, is_number_text};
use crate::record::{
    as_map, distinct_keys, entries_of, has_key, has_key_before, insert_entry,
    lemma_first_position, lemma_insert_entry, lemma_insert_keeps_distinct, position, value_of,
    Entries, Record,
};
use crate::schema::{faultless, is_first_fault, DataError, Field};
use crate::text::texts;
use vstd::prelude::*;

verus! {

/// The row's publisher; meaningful where the row names one.
pub open spec fn publisher_of(es: Entries) -> Seq<char> {
    as_map(es)[Field::Publisher.name()]
}

/// The row's rating; meaningful where the row holds one.
pub open spec fn rating_of(es: Entries) -> Seq<char> {
    as_map(es)[Field::BookAverageRating.name()]
}

/// The distinct values of `keys`, in the order in which each first occurs.
#[verifier::opaque]
pub open spec fn first_occurrences(keys: Seq<Seq<char>>) -> Seq<Seq<char>>
    decreases keys.len(),
{
    if keys.len() == 0 {
        Seq::empty()
    } else {
        let earlier = first_occurrences(keys.drop_last());
        if earlier.contains(keys.last()) {
            earlier
        } else {
            earlier.push(keys.last())
        }
    }
}

/// The publisher of each row, in the order of the rows.
pub open spec fn publisher_column(table: Seq<Entries>) -> Seq<Seq<char>> {
    table.map_values(|es: Entries| publisher_of(es))
}

/// The publishers of the table, in the order in which each first occurs.
pub open spec fn publishers_of(table: Seq<Entries>) -> Seq<Seq<char>> {
    first_occurrences(publisher_column(table))
}

/// The ratings of the rows of `publisher`, in the order of the rows.
pub open spec fn ratings_of(table: Seq<Entries>, publisher: Seq<char>) -> Seq<Seq<char>> {
    table.filter(|es: Entries| publisher_of(es) == publisher).map_values(
        |es: Entries| rating_of(es),
    )
}

/// What keeps the row at `record` from being grouped, if anything: it names
/// no publisher, or it holds no rating, or its rating is not a number.
pub open spec fn rating_fault(es: Entries, record: int) -> Option<DataError> {
    if !as_map(es).contains_key(Field::Publisher.name()) {
        Some(DataError::MissingField { record: record as usize, field: Field::Publisher })
    } else if !as_map(es).contains_key(Field::BookAverageRating.name()) {
        Some(DataError::MissingField { record: record as usize, field: Field::BookAverageRating })
    } else if !is_number_text(rating_of(es)) {
        Some(DataError::InvalidNumber { record: record as usize, field: Field::BookAverageRating })
    } else {
        None
    }
}

/// For each row, what keeps it from being grouped.
pub open spec fn rating_faults(table: Seq<Entries>) -> Seq<Option<DataError>> {
    Seq::new(table.len(), |i: int| rating_fault(table[i], i))
}

/// One group for each publisher, in the order in which the publishers first
/// occur: the publisher's name, and the ratings of its rows in the order of
/// the rows.
pub open spec fn grouped(table: Seq<Entries>) -> Seq<(Seq<char>, Seq<Seq<char>>)> {
    publishers_of(table).map_values(|publisher: Seq<char>| (publisher, ratings_of(table, publisher)))
}

/// A publisher and the ratings of its rows, in the order of the rows.
#[derive(Clone, Debug, PartialEq, Eq)]
pub struct PublisherGroup {
    pub publisher: String,
    pub ratings: Vec<String>,
}

impl PublisherGroup {
    /// The publisher's name and its ratings as plain text.
    pub open spec fn content(&self) -> (Seq<char>, Seq<Seq<char>>) {
        (self.publisher@, texts(self.ratings@))
    }
}

/// What each group holds, in order.
pub open spec fn contents(groups: Seq<PublisherGroup>) -> Seq<(Seq<char>, Seq<Seq<char>>)> {
    groups.map_values(|group: PublisherGroup| group.content())
}

/// A publisher and its rating, as text.
#[derive(Clone, Debug, PartialEq, Eq)]
pub struct PublisherRating {
    pub publisher: String,
    pub rating: String,
}

/// The ratings as entries, each publisher's name with its rating.
pub open spec fn rating_entries(ratings: Seq<PublisherRating>) -> Entries {
    ratings.map_values(|r: PublisherRating| (r.publisher@, r.rating@))
}

/// What keeps the row at `record` from receiving its publisher's rating, if
/// anything: it names no publisher, or `ratings` has none for its publisher.
pub open spec fn enrich_fault(es: Entries, ratings: Entries, record: int) -> Option<DataError> {
    if !as_map(es).contains_key(Field::Publisher.name()) {
        Some(DataError::MissingField { record: record as usize, field: Field::Publisher })
    } else if !has_key(ratings, publisher_of(es)) {
        Some(DataError::UnratedPublisher { record: record as usize })
    } else {
        None
    }
}

/// For each row, what keeps it from receiving its publisher's rating.
pub open spec fn enrich_faults(table: Seq<Entries>, ratings: Entries) -> Seq<Option<DataError>> {
    Seq::new(table.len(), |i: int| enrich_fault(table[i], ratings, i))
}

/// The row with its publisher's rating set in the derived column.
pub open spec fn enriched(es: Entries, ratings: Entries) -> Entries {
    insert_entry(es, Field::PublisherRating.name(), value_of(ratings, publisher_of(es)))
}

/// `first_occurrences` holds each value of `keys` once and nothing else.
pub proof fn lemma_first_occurrences(keys: Seq<Seq<char>>)
    ensures
        first_occurrences(keys).no_duplicates(),
        forall|key: Seq<char>| first_occurrences(keys).contains(key) <==> keys.contains(key),
        first_occurrences(keys).len() <= keys.len(),
    decreases keys.len(),
{
    reveal(first_occurrences);
    let found = first_occurrences(keys);
    if keys.len() > 0 {
        let rest = keys.drop_last();
        let last = keys.last();
        let earlier = first_occurrences(rest);
        lemma_first_occurrences(rest);
        assert forall|key: Seq<char>| found.contains(key) implies keys.contains(key) by {
            let j = choose|j: int| 0 <= j < found.len() && found[j] == key;
            if j < earlier.len() {
                assert(earlier[j] == key);
                assert(earlier.contains(key));
                assert(rest.contains(key));
                let i = choose|i: int| 0 <= i < rest.len() && rest[i] == key;
                assert(keys[i] == key);
            } else {
                assert(keys[keys.len() - 1] == key);
            }
        }
        assert forall|key: Seq<char>| keys.contains(key) implies found.contains(key) by {
            let i = choose|i: int| 0 <= i < keys.len() && keys[i] == key;
            if i < rest.len() {
                assert(rest[i] == key);
                assert(rest.contains(key));
            }
            if earlier.contains(key) {
                let j = choose|j: int| 0 <= j < earlier.len() && earlier[j] == key;
                assert(found[j] == key);
            } else {
                assert(key == last);
                assert(found[earlier.len() as int] == key);
            }
        }
    } else {
        assert forall|key: Seq<char>| !keys.contains(key) && !found.contains(key) by {}
    }
}

/// There are as many groups as the table has distinct publishers.
pub proof fn lemma_one_group_per_publisher(table: Seq<Entries>)
    ensures
        publishers_of(table).len() == publisher_column(table).to_set().len(),
{
    let keys = publisher_column(table);
    lemma_first_occurrences(keys);
    first_occurrences(keys).unique_seq_to_set();
    assert(first_occurrences(keys).to_set() =~= keys.to_set());
}

/// Every row is in the group of its publisher: the publisher has a group,
/// and the group holds the row's rating.
pub proof fn lemma_row_is_grouped(table: Seq<Entries>, i: int)
    requires
        0 <= i < table.len(),
    ensures
        publishers_of(table).contains(publisher_of(table[i])),
        ratings_of(table, publisher_of(table[i])).contains(rating_of(table[i])),
        ratings_of(table, publisher_of(table[i])).len() >= 1,
{
    broadcast use vstd::seq_lib::group_filter_ensures;

    let publisher = publisher_of(table[i]);
    let column = publisher_column(table);
    assert(column[i] == publisher);
    assert(column.contains(publisher));
    lemma_first_occurrences(column);
    let of_publisher = |es: Entries| publisher_of(es) == publisher;
    let rows = table.filter(of_publisher);
    assert(of_publisher(table[i]));
    assert(rows.contains(table[i]));
    let j = choose|j: int| 0 <= j < rows.len() && rows[j] == table[i];
    assert(ratings_of(table, publisher)[j] == rating_of(table[i]));
}

/// No group is empty: an average over a group divides by at least one.
pub proof fn lemma_groups_are_not_empty(table: Seq<Entries>, k: int)
    requires
        0 <= k < grouped(table).len(),
    ensures
        grouped(table)[k].1.len() >= 1,
        grouped(table)[k].1.len() <= table.len(),
{
    let column = publisher_column(table);
    let publisher = publishers_of(table)[k];
    lemma_first_occurrences(column);
    assert(publishers_of(table).contains(publisher));
    assert(column.contains(publisher));
    let i = choose|i: int| 0 <= i < column.len() && column[i] == publisher;
    lemma_row_is_grouped(table, i);
    lemma_group_members(table, publisher, 0);
}

/// Where every row can be grouped and every group's publisher has a rating,
/// every row can receive its publisher's rating.
pub proof fn lemma_rated_groups_cover_rows(table: Seq<Entries>, ratings: Entries)
    requires
        faultless(rating_faults(table)),
        forall|k: int|
            0 <= k < publishers_of(table).len() ==> has_key(
                ratings,
                #[trigger] publishers_of(table)[k],
            ),
    ensures
        faultless(enrich_faults(table, ratings)),
{
    assert forall|i: int| 0 <= i < table.len() implies (#[trigger] enrich_faults(
        table,
        ratings,
    )[i]) is None by {
        assert(rating_faults(table)[i] is None);
        lemma_row_is_grouped(table, i);
        let publisher = publisher_of(table[i]);
        let k = choose|k: int|
            0 <= k < publishers_of(table).len() && publishers_of(table)[k] == publisher;
        assert(has_key(ratings, publishers_of(table)[k]));
    }
}

/// A group holds ratings of its own publisher's rows only, and no more
/// ratings than the table has rows.
pub proof fn lemma_group_members(table: Seq<Entries>, publisher: Seq<char>, j: int)
    requires
        0 <= j < ratings_of(table, publisher).len(),
    ensures
        ratings_of(table, publisher).len() <= table.len(),
        exists|i: int|
            0 <= i < table.len() && publisher_of(#[trigger] table[i]) == publisher && rating_of(
                table[i],
            ) == ratings_of(table, publisher)[j],
{
    broadcast use vstd::seq_lib::group_filter_ensures;

    let of_publisher = |es: Entries| publisher_of(es) == publisher;
    let rows = table.filter(of_publisher);
    assert(of_publisher(rows[j]));
    assert(rows.contains(rows[j]));
    table.lemma_filter_contains_rev(of_publisher, rows[j]);
    let i = choose|i: int| 0 <= i < table.len() && table[i] == rows[j];
    assert(publisher_of(table[i]) == publisher);
}

/// A row that received its publisher's rating holds it in the derived
/// column, beside the fields it had, which are as they were.
pub proof fn lemma_enriched_fields(es: Entries, ratings: Entries)
    requires
        distinct_keys(es),
    ensures
        distinct_keys(enriched(es, ratings)),
        as_map(enriched(es, ratings)) == as_map(es).insert(
            Field::PublisherRating.name(),
            value_of(ratings, publisher_of(es)),
        ),
        as_map(es).contains_key(Field::Publisher.name()) ==> publisher_of(enriched(es, ratings))
            == publisher_of(es),
{
    let rating = value_of(ratings, publisher_of(es));
    lemma_insert_entry(es, Field::PublisherRating.name(), rating);
    lemma_insert_keeps_distinct(es, Field::PublisherRating.name(), rating);
    reveal_strlit("Publisher");
    reveal_strlit("Publisher_rating");
    assert(Field::Publisher.name().len() != Field::PublisherRating.name().len());
}

/// The position of the first text equal to `wanted`, if there is one.
fn find_text(list: &Vec<String>, wanted: &String) -> (found: Option<usize>)
    ensures
        found is Some == texts(list@).contains(wanted@),
        found is Some ==> found->0 < list.len() && list[found->0 as int]@ == wanted@,
{
    let mut i: usize = 0;
    while i < list.len()
        invariant
            i <= list.len(),
            forall|j: int| 0 <= j < i ==> texts(list@)[j] != wanted@,
        decreases list.len() - i,
    {
        if list[i] == *wanted {
            assert(texts(list@)[i as int] == wanted@);
            return Some(i);
        }
        i += 1;
    }
    None
}

/// Checks the row at `record` for grouping and returns its publisher.
fn grouping_key(row: &Record, record: usize) -> (key: Result<&String, DataError>)
    ensures
        match key {
            Ok(publisher) => rating_fault(row.entries(), record as int) is None && publisher@
                == publisher_of(row.entries()),
            Err(e) => rating_fault(row.entries(), record as int) == Some(e),
        },
{
    let publisher = match row.get(Field::Publisher.as_str()) {
        Some(publisher) => publisher,
        None => {
            return Err(DataError::MissingField { record, field: Field::Publisher });
        },
    };
    match row.get(Field::BookAverageRating.as_str()) {
        Some(rating) => {
            if is_number(rating.as_str()) {
                Ok(publisher)
            } else {
                Err(DataError::InvalidNumber { record, field: Field::BookAverageRating })
            }
        },
        None => Err(DataError::MissingField { record, field: Field::BookAverageRating }),
    }
}

/// The publishers of the rows, each once, in the order in which each first
/// occurs; fails on the first row that cannot be grouped.
fn distinct_publishers(data: &[Record]) -> (found: Result<Vec<String>, DataError>)
    ensures
        match found {
            Ok(publishers) => {
                &&& faultless(rating_faults(entries_of(data@)))
                &&& texts(publishers@) == publishers_of(entries_of(data@))
            },
            Err(e) => is_first_fault(rating_faults(entries_of(data@)), e),
        },
{
    let ghost table = entries_of(data@);
    let ghost faults = rating_faults(table);
    let ghost keys = publisher_column(table);
    let mut publishers: Vec<String> = Vec::new();
    let mut i: usize = 0;
    proof {
        reveal(first_occurrences);
        assert(texts(publishers@) =~= first_occurrences(keys.take(0)));
    }
    while i < data.len()
        invariant
            i <= data.len(),
            table == entries_of(data@),
            faults == rating_faults(table),
            keys == publisher_column(table),
            forall|j: int| 0 <= j < i ==> (#[trigger] faults[j]) is None,
            texts(publishers@) == first_occurrences(keys.take(i as int)),
        decreases data.len() - i,
    {
        assert(faults[i as int] == rating_fault(data[i as int].entries(), i as int));
        let publisher = match grouping_key(&data[i], i) {
            Ok(publisher) => publisher,
            Err(e) => {
                assert(faultless(faults.take(i as int)));
                return Err(e);
            },
        };
        let known = find_text(&publishers, publisher).is_some();
        proof {
            assert(keys[i as int] == publisher@);
            lemma_first_occurrences_step(keys, i as int);
        }
        if !known {
            let ghost before = publishers@;
            publishers.push(publisher.clone());
            assert(texts(publishers@) =~= texts(before).push(publisher@));
        }
        i += 1;
    }
    assert(keys.take(data.len() as int) =~= keys);
    Ok(publishers)
}

/// The distinct values up to a position are those before it, and the value
/// at it where that one is new.
pub proof fn lemma_first_occurrences_step(keys: Seq<Seq<char>>, i: int)
    requires
        0 <= i < keys.len(),
    ensures
        first_occurrences(keys.take(i + 1)) == if first_occurrences(keys.take(i)).contains(
            keys[i],
        ) {
            first_occurrences(keys.take(i))
        } else {
            first_occurrences(keys.take(i)).push(keys[i])
        },
{
    reveal(first_occurrences);
    let next = keys.take(i + 1);
    assert(next.drop_last() =~= keys.take(i));
    assert(next.last() == keys[i]);
}

/// A publisher's ratings up to a row are those before it, and the row's own
/// where the row is the publisher's.
pub proof fn lemma_ratings_of_push(table: Seq<Entries>, row: Entries, publisher: Seq<char>)
    ensures
        ratings_of(table.push(row), publisher) == if publisher_of(row) == publisher {
            ratings_of(table, publisher).push(rating_of(row))
        } else {
            ratings_of(table, publisher)
        },
{
    reveal(Seq::filter);
    let of_publisher = |es: Entries| publisher_of(es) == publisher;
    let longer = table.push(row);
    assert(longer.drop_last() =~= table);
    assert(longer.last() == row);
    if publisher_of(row) == publisher {
        assert(longer.filter(of_publisher) == table.filter(of_publisher).push(row));
        assert(ratings_of(longer, publisher) =~= ratings_of(table, publisher).push(
            rating_of(row),
        ));
    } else {
        assert(longer.filter(of_publisher) == table.filter(of_publisher));
    }
}

/// The ratings of the rows of `publisher`, in the order of the rows.
fn collect_ratings(data: &[Record], publisher: &String) -> (ratings: Vec<String>)
    requires
        faultless(rating_faults(entries_of(data@))),
    ensures
        texts(ratings@) == ratings_of(entries_of(data@), publisher@),
{
    let ghost table = entries_of(data@);
    let ghost faults = rating_faults(table);
    let mut ratings: Vec<String> = Vec::new();
    let mut i: usize = 0;
    proof {
        reveal(Seq::filter);
        assert(table.take(0) =~= Seq::<Entries>::empty());
        assert(texts(ratings@) =~= ratings_of(table.take(0), publisher@));
    }
    while i < data.len()
        invariant
            i <= data.len(),
            table == entries_of(data@),
            faults == rating_faults(table),
            faultless(faults),
            texts(ratings@) == ratings_of(table.take(i as int), publisher@),
        decreases data.len() - i,
    {
        proof {
            assert(table.take(i + 1) =~= table.take(i as int).push(data[i as int].entries()));
            lemma_ratings_of_push(table.take(i as int), data[i as int].entries(), publisher@);
            assert(faults[i as int] is None);
            assert(rating_fault(data[i as int].entries(), i as int) is None);
        }
        let row = &data[i];
        let key = row.get(Field::Publisher.as_str());
        let value = row.get(Field::BookAverageRating.as_str());
        if let (Some(key), Some(value)) = (key, value) {
            if *key == *publisher {
                let ghost before = ratings@;
                ratings.push(value.clone());
                assert(texts(ratings@) =~= texts(before).push(value@));
            }
        }
        i += 1;
    }
    assert(table.take(data.len() as int) =~= table);
    ratings
}

/// Groups the ratings of the rows by publisher.
///
/// Every row must name a publisher and hold a rating that is a number; the
/// first row that does not is reported. Otherwise there is one group for each
/// publisher, in the order in which the publishers first occur, and a group
/// holds the ratings of its publisher's rows in the order of the rows.
pub fn group_ratings(data: &[Record]) -> (groups: Result<Vec<PublisherGroup>, DataError>)
    ensures
        match groups {
            Ok(groups) => {
                &&& faultless(rating_faults(entries_of(data@)))
                &&& contents(groups@) == grouped(entries_of(data@))
            },
            Err(e) => is_first_fault(rating_faults(entries_of(data@)), e),
        },
{
    let publishers = match distinct_publishers(data) {
        Ok(publishers) => publishers,
        Err(e) => {
            return Err(e);
        },
    };
    let ghost table = entries_of(data@);
    let ghost names = publishers_of(table);
    let mut groups: Vec<PublisherGroup> = Vec::new();
    let mut k: usize = 0;
    while k < publishers.len()
        invariant
            k <= publishers.len(),
            table == entries_of(data@),
            names == publishers_of(table),
            texts(publishers@) == names,
            faultless(rating_faults(table)),
            groups.len() == k,
            forall|j: int|
                0 <= j < k ==> (#[trigger] groups[j]).content() == (
                    names[j],
                    ratings_of(table, names[j]),
                ),
        decreases publishers.len() - k,
    {
        let publisher = publishers[k].clone();
        assert(texts(publishers@)[k as int] == publisher@);
        let ratings = collect_ratings(data, &publisher);
        groups.push(PublisherGroup { publisher, ratings });
        k += 1;
    }
    proof {
        assert(texts(publishers@).len() == publishers.len());
        assert(contents(groups@) =~= grouped(table));
    }
    Ok(groups)
}

/// The position of the first rating of `publisher`, if there is one.
fn find_rating(ratings: &[PublisherRating], publisher: &String) -> (found: Option<usize>)
    ensures
        found is Some == has_key(rating_entries(ratings@), publisher@),
        found is Some ==> found->0 < ratings.len() && found->0 == position(
            rating_entries(ratings@),
            publisher@,
        ),
{
    let ghost es = rating_entries(ratings@);
    let mut i: usize = 0;
    while i < ratings.len()
        invariant
            i <= ratings.len(),
            es == rating_entries(ratings@),
            !has_key_before(es, publisher@, i as int),
        decreases ratings.len() - i,
    {
        if ratings[i].publisher == *publisher {
            proof {
                lemma_first_position(es, publisher@, i as int);
            }
            return Some(i);
        }
        assert(es[i as int].0 != publisher@);
        i += 1;
    }
    None
}

/// Returns the rows, each with the rating of its publisher set in the
/// derived column.
///
/// Every row must name a publisher for which `ratings` holds a rating; the
/// first row that does not is reported. Where `ratings` names a publisher
/// more than once, the first of its ratings counts.
pub fn add_publisher_rating(data: &[Record], ratings: &[PublisherRating]) -> (rows: Result<
    Vec<Record>,
    DataError,
>)
    ensures
        match rows {
            Ok(rows) => {
                &&& faultless(enrich_faults(entries_of(data@), rating_entries(ratings@)))
                &&& entries_of(rows@) == entries_of(data@).map_values(
                    |es: Entries| enriched(es, rating_entries(ratings@)),
                )
            },
            Err(e) => is_first_fault(
                enrich_faults(entries_of(data@), rating_entries(ratings@)),
                e,
            ),
        },
{
    let ghost faults = enrich_faults(entries_of(data@), rating_entries(ratings@));
    let ghost table = rating_entries(ratings@);
    let mut rows: Vec<Record> = Vec::new();
    let mut i: usize = 0;
    while i < data.len()
        invariant
            i <= data.len(),
            table == rating_entries(ratings@),
            faults == enrich_faults(entries_of(data@), table),
            rows.len() == i,
            forall|j: int| 0 <= j < i ==> (#[trigger] faults[j]) is None,
            forall|j: int|
                0 <= j < i ==> (#[trigger] rows[j]).entries() == enriched(data[j].entries(), table),
        decreases data.len() - i,
    {
        let publisher = match data[i].get(Field::Publisher.as_str()) {
            Some(publisher) => publisher,
            None => {
                proof {
                    assert(faults[i as int] == enrich_fault(data[i as int].entries(), table, i as int));
                    assert(faultless(faults.take(i as int)));
                }
                return Err(DataError::MissingField { record: i, field: Field::Publisher });
            },
        };
        let at = match find_rating(ratings, publisher) {
            Some(at) => at,
            None => {
                proof {
                    assert(faults[i as int] == enrich_fault(data[i as int].entries(), table, i as int));
                    assert(faultless(faults.take(i as int)));
                }
                return Err(DataError::UnratedPublisher { record: i });
            },
        };
        assert(faults[i as int] == enrich_fault(data[i as int].entries(), table, i as int));
        let mut row = data[i].clone();
        assert(table[at as int].1 == ratings[at as int].rating@);
        row.insert(Field::PublisherRating.as_str().to_owned(), ratings[at].rating.clone());
        rows.push(row);
        i += 1;
    }
    assert(entries_of(rows@) =~= entries_of(data@).map_values(
        |es: Entries| enriched(es, table),
    ));
    Ok(rows)
}

} // verus!
