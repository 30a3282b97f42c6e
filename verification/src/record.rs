//! Records: the named text fields of one row of a table.
//!
//! A record maps field names to values and remembers the order in which its
//! fields were first set, so that walking it is deterministic.

use vstd::prelude::*;

verus! {

/// The fields of a record in order, each a name and a value.
pub type Entries = Seq<(Seq<char>, Seq<char>)>;

/// Whether no two entries have the same name.
pub open spec fn distinct_keys(es: Entries) -> bool {
    forall|i: int, j: int| 0 <= i < j < es.len() ==> es[i].0 != es[j].0
}

/// Whether an entry of `es` before position `n` is named `key`.
pub open spec fn has_key_before(es: Entries, key: Seq<char>, n: int) -> bool {
    exists|i: int| 0 <= i < n && i < es.len() && (#[trigger] es[i]).0 == key
}

/// Whether an entry of `es` is named `key`.
pub open spec fn has_key(es: Entries, key: Seq<char>) -> bool {
    has_key_before(es, key, es.len() as int)
}

/// The position of the first entry named `key`; meaningful where there is one.
pub open spec fn position(es: Entries, key: Seq<char>) -> int {
    choose|i: int| 0 <= i < es.len() && (#[trigger] es[i]).0 == key && !has_key_before(es, key, i)
}

/// The value of the first entry named `key`; meaningful where there is one.
pub open spec fn value_of(es: Entries, key: Seq<char>) -> Seq<char> {
    es[position(es, key)].1
}

/// `es` with `key` set to `value`: in place where an entry has that name, at
/// the end otherwise.
pub open spec fn insert_entry(es: Entries, key: Seq<char>, value: Seq<char>) -> Entries {
    if has_key(es, key) {
        es.update(position(es, key), (key, value))
    } else {
        es.push((key, value))
    }
}

/// The mapping from names to values that `es` stands for.
pub open spec fn as_map(es: Entries) -> Map<Seq<char>, Seq<char>> {
    Map::new(|key: Seq<char>| has_key(es, key), |key: Seq<char>| value_of(es, key))
}

/// Where an entry is named `key`, `position` finds the first such entry.
pub proof fn lemma_position(es: Entries, key: Seq<char>)
    requires
        has_key(es, key),
    ensures
        0 <= position(es, key) < es.len(),
        es[position(es, key)].0 == key,
        !has_key_before(es, key, position(es, key)),
{
    lemma_first_key(es, key, es.len() as int);
}

/// An entry named `key` before `n` implies a first one.
proof fn lemma_first_key(es: Entries, key: Seq<char>, n: int)
    requires
        has_key_before(es, key, n),
    ensures
        exists|i: int|
            0 <= i < es.len() && (#[trigger] es[i]).0 == key && !has_key_before(es, key, i),
    decreases n,
{
    let i = choose|i: int| 0 <= i < n && i < es.len() && (#[trigger] es[i]).0 == key;
    if has_key_before(es, key, i) {
        lemma_first_key(es, key, i);
    }
}

/// An entry named `key` that no entry of that name precedes is the one that
/// `position` finds.
pub proof fn lemma_first_position(es: Entries, key: Seq<char>, i: int)
    requires
        0 <= i < es.len(),
        es[i].0 == key,
        !has_key_before(es, key, i),
    ensures
        has_key(es, key),
        position(es, key) == i,
{
    assert(has_key_before(es, key, es.len() as int));
    lemma_position(es, key);
}

/// With distinct names, the entry at `i` is the one that `position` finds
/// for its name, and `value_of` gives its value.
pub proof fn lemma_position_of_entry(es: Entries, i: int)
    requires
        distinct_keys(es),
        0 <= i < es.len(),
    ensures
        has_key(es, es[i].0),
        position(es, es[i].0) == i,
        value_of(es, es[i].0) == es[i].1,
{
    assert(has_key_before(es, es[i].0, es.len() as int));
    lemma_position(es, es[i].0);
}

/// Setting a field keeps the names distinct.
pub proof fn lemma_insert_keeps_distinct(es: Entries, key: Seq<char>, value: Seq<char>)
    requires
        distinct_keys(es),
    ensures
        distinct_keys(insert_entry(es, key, value)),
{
    let out = insert_entry(es, key, value);
    if has_key(es, key) {
        lemma_position(es, key);
        let p = position(es, key);
        assert forall|i: int, j: int| 0 <= i < j < out.len() implies out[i].0 != out[j].0 by {
            assert(out[i].0 == es[i].0);
            assert(out[j].0 == es[j].0);
        }
    } else {
        assert forall|i: int, j: int| 0 <= i < j < out.len() implies out[i].0 != out[j].0 by {
            if j == es.len() {
                if out[i].0 == key {
                    assert(has_key_before(es, key, es.len() as int));
                }
            }
        }
    }
}

/// Setting a field changes which names are present, and their values, as
/// inserting into a map does.
pub proof fn lemma_insert_entry(es: Entries, key: Seq<char>, value: Seq<char>)
    requires
        distinct_keys(es),
    ensures
        has_key(insert_entry(es, key, value), key),
        value_of(insert_entry(es, key, value), key) == value,
        forall|other: Seq<char>|
            other != key ==> has_key(insert_entry(es, key, value), other) == has_key(es, other),
        forall|other: Seq<char>|
            other != key && has_key(es, other) ==> value_of(insert_entry(es, key, value), other)
                == value_of(es, other),
        as_map(insert_entry(es, key, value)) == as_map(es).insert(key, value),
{
    let out = insert_entry(es, key, value);
    lemma_insert_keeps_distinct(es, key, value);
    let p = if has_key(es, key) {
        position(es, key)
    } else {
        es.len() as int
    };
    if has_key(es, key) {
        lemma_position(es, key);
    }
    assert(out[p] == (key, value));
    lemma_position_of_entry(out, p);
    assert forall|other: Seq<char>| other != key implies (has_key(out, other) == has_key(
        es,
        other,
    )) && (has_key(es, other) ==> value_of(out, other) == value_of(es, other)) by {
        if has_key(es, other) {
            lemma_position(es, other);
            let q = position(es, other);
            assert(out[q] == es[q]);
            lemma_position_of_entry(out, q);
        }
        if has_key(out, other) {
            lemma_position(out, other);
            let q = position(out, other);
            assert(es[q] == out[q]);
            assert(has_key_before(es, other, es.len() as int));
        }
    }
    assert(as_map(out) =~= as_map(es).insert(key, value));
}

/// With distinct names, the mapping has as many names as there are entries.
pub proof fn lemma_map_size(es: Entries)
    requires
        distinct_keys(es),
    ensures
        as_map(es).dom().finite(),
        as_map(es).dom().len() == es.len(),
{
    let names = es.map_values(|e: (Seq<char>, Seq<char>)| e.0);
    assert(names.no_duplicates());
    names.unique_seq_to_set();
    assert(as_map(es).dom() =~= names.to_set()) by {
        assert forall|key: Seq<char>| as_map(es).dom().contains(key) <==> names.to_set().contains(
            key,
        ) by {
            if has_key(es, key) {
                lemma_position(es, key);
                assert(names[position(es, key)] == key);
            }
            if names.contains(key) {
                let i = choose|i: int| 0 <= i < names.len() && names[i] == key;
                assert(es[i].0 == key);
                assert(has_key_before(es, key, es.len() as int));
            }
        }
    }
}

/// One row of a table: text values under distinct text names.
#[derive(Debug, PartialEq, Eq)]
pub struct Record {
    fields: Vec<(String, String)>,
}

impl View for Record {
    type V = Map<Seq<char>, Seq<char>>;

    /// The mapping from field names to values.
    open spec fn view(&self) -> Map<Seq<char>, Seq<char>> {
        as_map(self.entries())
    }
}

impl Record {
    /// The fields in the order in which they were first set.
    pub closed spec fn entries(&self) -> Entries {
        self.fields@.map_values(|e: (String, String)| (e.0@, e.1@))
    }

    /// No two fields of a record have the same name.
    #[verifier::type_invariant]
    spec fn well_formed(&self) -> bool {
        distinct_keys(self.entries())
    }

    /// A record without fields.
    pub fn new() -> (record: Record)
        ensures
            record.entries() == Seq::<(Seq<char>, Seq<char>)>::empty(),
            record@ == Map::<Seq<char>, Seq<char>>::empty(),
    {
        let record = Record { fields: Vec::new() };
        assert(record.entries() =~= Seq::<(Seq<char>, Seq<char>)>::empty());
        assert(record@ =~= Map::<Seq<char>, Seq<char>>::empty());
        record
    }

    /// The number of fields.
    pub fn len(&self) -> (n: usize)
        ensures
            n == self.entries().len(),
            n == self@.dom().len(),
            distinct_keys(self.entries()),
    {
        proof {
            use_type_invariant(self);
            lemma_map_size(self.entries());
        }
        self.fields.len()
    }

    /// The name of the field at position `i`.
    pub fn key_at(&self, i: usize) -> (key: &String)
        requires
            i < self.entries().len(),
        ensures
            key@ == self.entries()[i as int].0,
    {
        &self.fields[i].0
    }

    /// The value of the field at position `i`.
    pub fn value_at(&self, i: usize) -> (value: &String)
        requires
            i < self.entries().len(),
        ensures
            value@ == self.entries()[i as int].1,
    {
        &self.fields[i].1
    }

    /// The position of the field named `key`, if there is one.
    pub fn position_of(&self, key: &str) -> (found: Option<usize>)
        ensures
            found is Some == has_key(self.entries(), key@),
            found is Some ==> found->0 == position(self.entries(), key@),
            found is Some ==> found->0 < self.entries().len(),
    {
        proof {
            use_type_invariant(self);
        }
        let wanted = key.to_owned();
        let n = self.fields.len();
        let mut i: usize = 0;
        while i < n
            invariant
                n == self.entries().len(),
                n == self.fields.len(),
                i <= n,
                wanted@ == key@,
                !has_key_before(self.entries(), key@, i as int),
                distinct_keys(self.entries()),
            decreases n - i,
        {
            if self.fields[i].0 == wanted {
                proof {
                    lemma_position_of_entry(self.entries(), i as int);
                }
                return Some(i);
            }
            assert(self.entries()[i as int].0 != key@);
            i += 1;
        }
        None
    }

    /// Whether a field is named `key`.
    pub fn contains_key(&self, key: &str) -> (found: bool)
        ensures
            found == self@.contains_key(key@),
            found == has_key(self.entries(), key@),
    {
        self.position_of(key).is_some()
    }

    /// The value of the field named `key`, if there is one.
    pub fn get(&self, key: &str) -> (value: Option<&String>)
        ensures
            value is Some == self@.contains_key(key@),
            value is Some ==> value->0@ == self@[key@],
    {
        match self.position_of(key) {
            Some(i) => Some(&self.fields[i].1),
            None => None,
        }
    }

    /// Sets the field named `key` to `value`. A field that exists keeps its
    /// place; a new one goes to the end.
    pub fn insert(&mut self, key: String, value: String)
        ensures
            final(self).entries() == insert_entry(old(self).entries(), key@, value@),
            final(self)@ == old(self)@.insert(key@, value@),
    {
        proof {
            use_type_invariant(&*self);
            lemma_insert_entry(self.entries(), key@, value@);
            lemma_insert_keeps_distinct(self.entries(), key@, value@);
        }
        let found = self.position_of(key.as_str());
        let ghost before = self.entries();
        let mut fields: Vec<(String, String)> = Vec::new();
        std::mem::swap(&mut fields, &mut self.fields);
        match found {
            Some(i) => {
                fields.set(i, (key, value));
            },
            None => {
                fields.push((key, value));
            },
        }
        assert(fields@.map_values(|e: (String, String)| (e.0@, e.1@)) =~= insert_entry(
            before,
            key@,
            value@,
        ));
        self.fields = fields;
    }
}

/// The fields of each record, in the order of the records.
pub open spec fn entries_of(records: Seq<Record>) -> Seq<Entries> {
    records.map_values(|r: Record| r.entries())
}

impl Clone for Record {
    fn clone(&self) -> (copy: Record)
        ensures
            copy.entries() == self.entries(),
            copy@ == self@,
    {
        proof {
            use_type_invariant(self);
        }
        let n = self.fields.len();
        let mut fields: Vec<(String, String)> = Vec::new();
        let mut i: usize = 0;
        while i < n
            invariant
                n == self.fields.len(),
                i <= n,
                fields.len() == i,
                forall|j: int|
                    0 <= j < i ==> (#[trigger] fields[j]).0@ == self.fields[j].0@ && fields[j].1@
                        == self.fields[j].1@,
            decreases n - i,
        {
            fields.push((self.fields[i].0.clone(), self.fields[i].1.clone()));
            i += 1;
        }
        assert(fields@.map_values(|e: (String, String)| (e.0@, e.1@)) =~= self.entries());
        Record { fields }
    }
}

} // verus!
