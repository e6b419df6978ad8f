//! A set of build records that remembers the order in which they arrived.
use vstd::prelude::*;
use crate::command_table_entry::{same_record, CompileCommandsTableEntry, EntryModel};

verus! {

/// Whether the sequence holds the build record of `entry`, however its
/// paths are written.
pub open spec fn holds(items: Seq<EntryModel>, entry: EntryModel) -> bool {
    exists|i: int| 0 <= i < items.len() && same_record(#[trigger] items[i], entry)
}

/// No build record stands in the sequence twice.
pub open spec fn distinct(items: Seq<EntryModel>) -> bool {
    forall|i: int, j: int|
        0 <= i < j < items.len() ==> !same_record(#[trigger] items[i], #[trigger] items[j])
}

/// The sequence with `entry` appended, unless it holds that build record
/// already.
pub open spec fn inserted(items: Seq<EntryModel>, entry: EntryModel) -> Seq<EntryModel> {
    if holds(items, entry) {
        items
    } else {
        items.push(entry)
    }
}

/// The sequence after inserting each of `entries` in turn.
pub open spec fn inserted_all(items: Seq<EntryModel>, entries: Seq<EntryModel>) -> Seq<EntryModel>
    decreases entries.len(),
{
    if entries.len() == 0 {
        items
    } else {
        inserted(inserted_all(items, entries.drop_last()), entries.last())
    }
}

/// The values of a vector of records, record by record.
pub open spec fn models(values: Seq<CompileCommandsTableEntry>) -> Seq<EntryModel> {
    Seq::new(values.len(), |i: int| values[i]@)
}

/// A sequence that holds no build record twice holds no value twice.
pub proof fn lemma_distinct_values(items: Seq<EntryModel>)
    requires
        distinct(items),
    ensures
        items.no_duplicates(),
{
    assert forall|i: int, j: int| 0 <= i < items.len() && 0 <= j < items.len() && i != j implies items[i]
        != items[j] by {
        if i < j {
            assert(!same_record(items[i], items[j]));
        } else {
            assert(!same_record(items[j], items[i]));
        }
    }
}

/// A value that stands in the sequence is a build record that it holds.
pub proof fn lemma_contained_is_held(items: Seq<EntryModel>, entry: EntryModel)
    requires
        items.contains(entry),
    ensures
        holds(items, entry),
{
    let i = choose|i: int| 0 <= i < items.len() && items[i] == entry;
    assert(same_record(items[i], entry));
}

/// Inserting keeps a sequence free of repeated build records, keeps what
/// it held, and adds the inserted record and nothing else.
pub proof fn lemma_inserted(items: Seq<EntryModel>, entry: EntryModel)
    requires
        distinct(items),
    ensures
        distinct(inserted(items, entry)),
        forall|e: EntryModel|
            #[trigger] holds(inserted(items, entry), e) <==> holds(items, e) || same_record(entry, e),
        forall|e: EntryModel|
            inserted(items, entry).contains(e) ==> items.contains(e) || e == entry,
        forall|e: EntryModel| items.contains(e) ==> inserted(items, entry).contains(e),
{
    let after = inserted(items, entry);
    if holds(items, entry) {
        assert forall|e: EntryModel| same_record(entry, e) implies holds(items, e) by {
            let i = choose|i: int| 0 <= i < items.len() && same_record(#[trigger] items[i], entry);
            assert(same_record(items[i], e));
        }
    } else {
        assert forall|i: int, j: int| 0 <= i < j < after.len() implies !same_record(
            #[trigger] after[i],
            #[trigger] after[j],
        ) by {
            if j == items.len() {
                assert(after[i] == items[i]);
                assert(!same_record(items[i], entry));
            } else {
                assert(after[i] == items[i] && after[j] == items[j]);
            }
        }
        assert forall|e: EntryModel| #[trigger] holds(after, e) <==> holds(items, e) || same_record(
            entry,
            e,
        ) by {
            if holds(after, e) {
                let i = choose|i: int| 0 <= i < after.len() && same_record(#[trigger] after[i], e);
                if i < items.len() {
                    assert(same_record(items[i], e));
                }
            }
            if holds(items, e) {
                let i = choose|i: int| 0 <= i < items.len() && same_record(#[trigger] items[i], e);
                assert(same_record(after[i], e));
            }
            if same_record(entry, e) {
                assert(same_record(after[items.len() as int], e));
            }
        }
        assert forall|e: EntryModel| items.contains(e) implies after.contains(e) by {
            let i = choose|i: int| 0 <= i < items.len() && items[i] == e;
            assert(after[i] == e);
        }
    }
}

/// Inserting a record a second time changes nothing, and neither does
/// inserting the same build record written with the other separator: a set
/// that held nothing holds one record after the same record was inserted
/// twice.
pub proof fn lemma_insert_twice(items: Seq<EntryModel>, entry: EntryModel, again: EntryModel)
    requires
        same_record(entry, again),
    ensures
        inserted(inserted(items, entry), entry) == inserted(items, entry),
        inserted(inserted(items, entry), again) == inserted(items, entry),
        inserted(inserted(Seq::empty(), entry), again).len() == 1,
{
    let once = inserted(items, entry);
    if holds(items, entry) {
        let i = choose|i: int| 0 <= i < items.len() && same_record(#[trigger] items[i], entry);
        assert(same_record(items[i], again));
    } else {
        assert(same_record(once[items.len() as int], entry));
        assert(same_record(once[items.len() as int], again));
    }
    let single = inserted(Seq::<EntryModel>::empty(), entry);
    assert(!holds(Seq::<EntryModel>::empty(), entry));
    assert(same_record(single[0], again));
}

/// Inserting a run of records keeps the sequence free of repeated build
/// records, keeps what it held, and adds those records and nothing else.
pub proof fn lemma_inserted_all(items: Seq<EntryModel>, entries: Seq<EntryModel>)
    requires
        distinct(items),
    ensures
        distinct(inserted_all(items, entries)),
        forall|e: EntryModel|
            #[trigger] holds(inserted_all(items, entries), e) <==> holds(items, e) || holds(entries, e),
        forall|e: EntryModel|
            inserted_all(items, entries).contains(e) ==> items.contains(e) || entries.contains(e),
        forall|e: EntryModel| items.contains(e) ==> inserted_all(items, entries).contains(e),
    decreases entries.len(),
{
    if entries.len() > 0 {
        let front = entries.drop_last();
        let last = entries.last();
        let middle = inserted_all(items, front);
        let after = inserted_all(items, entries);
        lemma_inserted_all(items, front);
        lemma_inserted(middle, last);
        assert forall|e: EntryModel| #[trigger] holds(after, e) <==> holds(items, e) || holds(entries, e) by {
            if holds(front, e) {
                let i = choose|i: int| 0 <= i < front.len() && same_record(#[trigger] front[i], e);
                assert(same_record(entries[i], e));
            }
            if same_record(last, e) {
                assert(same_record(entries[entries.len() - 1], e));
            }
            if holds(entries, e) {
                let i = choose|i: int|
                    0 <= i < entries.len() && same_record(#[trigger] entries[i], e);
                if i < front.len() {
                    assert(same_record(front[i], e));
                }
            }
        }
        assert forall|e: EntryModel| after.contains(e) implies items.contains(e)
            || entries.contains(e) by {
            if middle.contains(e) && !items.contains(e) {
                let i = choose|i: int| 0 <= i < front.len() && front[i] == e;
                assert(entries[i] == e);
            }
            if e == last {
                assert(entries[entries.len() - 1] == e);
            }
        }
    }
}

/// Records that are all new and all different are appended as they are.
pub proof fn lemma_inserted_all_fresh(items: Seq<EntryModel>, entries: Seq<EntryModel>)
    requires
        distinct(items + entries),
    ensures
        inserted_all(items, entries) == items + entries,
    decreases entries.len(),
{
    if entries.len() == 0 {
        assert(items + entries =~= items);
    } else {
        let front = entries.drop_last();
        let whole = items + entries;
        assert forall|i: int, j: int| 0 <= i < j < (items + front).len() implies !same_record(
            #[trigger] (items + front)[i],
            #[trigger] (items + front)[j],
        ) by {
            assert((items + front)[i] == whole[i]);
            assert((items + front)[j] == whole[j]);
        }
        lemma_inserted_all_fresh(items, front);
        let last = entries.last();
        if holds(items + front, last) {
            let i = choose|i: int|
                0 <= i < (items + front).len() && same_record(#[trigger] (items + front)[i], last);
            assert(whole[i] == (items + front)[i]);
            assert(whole[whole.len() - 1] == last);
            assert(!same_record(whole[i], whole[whole.len() - 1]));
        }
        assert((items + front).push(last) =~= whole);
    }
}

/// An insertion-ordered set of build records: no build record occurs
/// twice, however its paths are written, and what came first stays first.
pub struct OrderedHashSet {
    values: Vec<CompileCommandsTableEntry>,
}

impl View for OrderedHashSet {
    type V = Seq<EntryModel>;

    closed spec fn view(&self) -> Seq<EntryModel> {
        models(self.values@)
    }
}

impl Clone for OrderedHashSet {
    fn clone(&self) -> (result: Self)
        ensures
            result@ == self@,
    {
        proof {
            use_type_invariant(self);
        }
        let mut values: Vec<CompileCommandsTableEntry> = Vec::new();
        let mut pos: usize = 0;
        while pos < self.values.len()
            invariant
                pos <= self.values.len(),
                values@.len() == pos,
                forall|i: int| 0 <= i < pos ==> (#[trigger] values@[i])@ == self.values@[i]@,
            decreases self.values.len() - pos,
        {
            values.push(self.values[pos].clone());
            pos = pos + 1;
        }
        assert(models(values@) =~= models(self.values@));
        OrderedHashSet { values }
    }
}

impl OrderedHashSet {
    #[verifier::type_invariant]
    pub closed spec fn holds_each_once(self) -> bool {
        distinct(models(self.values@))
    }

    /// The empty set.
    pub fn new() -> (result: Self)
        ensures
            result@ == Seq::<EntryModel>::empty(),
    {
        let values: Vec<CompileCommandsTableEntry> = Vec::new();
        assert(models(values@) =~= Seq::empty());
        OrderedHashSet { values }
    }

    /// The set of the given records: each build record held once, as it
    /// first occurs.
    pub fn from_iter(values: Vec<CompileCommandsTableEntry>) -> (result: Self)
        ensures
            result@ == inserted_all(Seq::empty(), models(values@)),
            distinct(result@),
    {
        let mut result = OrderedHashSet::new();
        result.extend(values);
        result
    }

    /// Inserts each of the given records in turn.
    pub fn extend(&mut self, values: Vec<CompileCommandsTableEntry>)
        ensures
            final(self)@ == inserted_all(old(self)@, models(values@)),
            distinct(final(self)@),
    {
        let ghost start = self@;
        let ghost given = models(values@);
        proof {
            use_type_invariant(&*self);
            assert(given.take(0) =~= Seq::empty());
        }
        let mut pos: usize = 0;
        while pos < values.len()
            invariant
                pos <= values.len(),
                given == models(values@),
                self@ == inserted_all(start, given.take(pos as int)),
                distinct(self@),
            decreases values.len() - pos,
        {
            assert(given.take(pos + 1).drop_last() =~= given.take(pos as int));
            self.insert(values[pos].clone());
            pos = pos + 1;
        }
        assert(given.take(pos as int) =~= given);
    }

    /// How many records the set holds.
    pub fn len(&self) -> (result: usize)
        ensures
            result == self@.len(),
            distinct(self@),
    {
        proof {
            use_type_invariant(self);
        }
        self.values.len()
    }

    /// The record at `index`, counted in order of arrival.
    pub fn get(&self, index: usize) -> (result: &CompileCommandsTableEntry)
        requires
            index < self@.len(),
        ensures
            result@ == self@[index as int],
    {
        &self.values[index]
    }

    /// The records in order of arrival.
    pub fn values(&self) -> (result: &Vec<CompileCommandsTableEntry>)
        ensures
            models(result@) == self@,
            distinct(self@),
    {
        proof {
            use_type_invariant(self);
        }
        &self.values
    }

    /// Whether the set holds the build record of `value`, however its
    /// paths are written.
    pub fn contains(&self, value: &CompileCommandsTableEntry) -> (result: bool)
        ensures
            result == holds(self@, value@),
    {
        let mut pos: usize = 0;
        while pos < self.values.len()
            invariant
                pos <= self.values.len(),
                forall|i: int| 0 <= i < pos ==> !same_record(models(self.values@)[i], value@),
            decreases self.values.len() - pos,
        {
            if self.values[pos].same_as(value) {
                assert(same_record(models(self.values@)[pos as int], value@));
                return true;
            }
            pos = pos + 1;
        }
        false
    }

    /// Adds `value` at the end unless the set holds that build record
    /// already. Returns whether it was added.
    pub fn insert(&mut self, value: CompileCommandsTableEntry) -> (added: bool)
        ensures
            added == !holds(old(self)@, value@),
            final(self)@ == inserted(old(self)@, value@),
            distinct(final(self)@),
            holds(final(self)@, value@),
    {
        proof {
            use_type_invariant(&*self);
            lemma_inserted(self@, value@);
            assert(same_record(value@, value@));
        }
        if self.contains(&value) {
            false
        } else {
            let mut taken = OrderedHashSet::new();
            core::mem::swap(self, &mut taken);
            let mut values = taken.values;
            let ghost before = models(values@);
            values.push(value);
            assert(models(values@) =~= before.push(value@));
            *self = OrderedHashSet { values };
            true
        }
    }
}

} // verus!
