//! The deduplicated table of build records.
use vstd::prelude::*;
use crate::command_table_entry::{
    normalized, same_record, texts, CompileCommandsTableEntry, EntryModel,
};
use crate::compilation_database::{
    arranged, lemma_sorted_distinct_is_strict, lemma_sorted_is_unique, lemma_sorted_same_records, rows,
    same_rows, sorted, strictly_sorted, CompilationDatabase, CompilationDatabaseEntry,
};
use crate::glob_pattern::{accepts, GlobPattern};
use crate::ordered_hash_set::{
    distinct, holds, inserted, inserted_all, lemma_distinct_values, lemma_inserted_all,
    lemma_inserted_all_fresh, models, OrderedHashSet,
};

verus! {

/// A raw row with its argument vector normalized.
pub open spec fn normalized_row(row: EntryModel) -> EntryModel {
    EntryModel { directory: row.directory, file: row.file, command: normalized(row.command) }
}

/// Raw rows, each with its argument vector normalized.
pub open spec fn normalized_rows(rows: Seq<EntryModel>) -> Seq<EntryModel> {
    Seq::new(rows.len(), |i: int| normalized_row(rows[i]))
}

/// The records whose file passes the filter, in their order.
pub open spec fn matching(items: Seq<EntryModel>, pattern: Option<Seq<char>>) -> Seq<EntryModel>
    decreases items.len(),
{
    if items.len() == 0 {
        Seq::empty()
    } else {
        let front = matching(items.drop_last(), pattern);
        if accepts(pattern, Some(items.last().file)) {
            front.push(items.last())
        } else {
            front
        }
    }
}

/// Where shard `index` of `count` starts in a table of `len` records.
pub open spec fn shard_start(len: nat, index: nat, count: nat) -> nat {
    (len * index / count) as nat
}

/// Shard `index` of `count`: a contiguous run of the table's records.
pub open spec fn shard(items: Seq<EntryModel>, index: nat, count: nat) -> Seq<EntryModel> {
    items.subrange(
        shard_start(items.len(), index, count) as int,
        shard_start(items.len(), index + 1, count) as int,
    )
}

/// All `count` shards of a table, in order.
pub open spec fn shards(items: Seq<EntryModel>, count: nat) -> Seq<Seq<EntryModel>> {
    Seq::new(count, |i: int| shard(items, i as nat, count))
}

/// The union of tables: every record of every part, inserted part by part.
pub open spec fn merged(parts: Seq<Seq<EntryModel>>) -> Seq<EntryModel>
    decreases parts.len(),
{
    if parts.len() == 0 {
        Seq::empty()
    } else {
        inserted_all(merged(parts.drop_last()), parts.last())
    }
}

/// The record sequences of a vector of tables.
pub open spec fn views(tables: Seq<CompileCommandsTable>) -> Seq<Seq<EntryModel>> {
    Seq::new(tables.len(), |i: int| tables[i]@)
}

/// Shard boundaries lie inside the table and never go backwards; the first
/// is the table's start and the last its end.
pub proof fn lemma_shard_bounds(len: nat, index: nat, count: nat)
    requires
        count >= 1,
        index < count,
    ensures
        shard_start(len, index, count) <= shard_start(len, index + 1, count) <= len,
        shard_start(len, 0, count) == 0,
        shard_start(len, count, count) == len,
{
    let l = len as int;
    let i = index as int;
    let n = count as int;
    assert(0 <= l * i / n <= l * (i + 1) / n <= l) by (nonlinear_arith)
        requires
            0 <= l,
            0 <= i < n,
    ;
    assert(l * 0 / n == 0) by (nonlinear_arith)
        requires
            n >= 1,
    ;
    assert(l * n / n == l) by (nonlinear_arith)
        requires
            n >= 1,
    ;
}

/// Any two shards differ in size by at most one record.
pub proof fn lemma_shards_are_even(items: Seq<EntryModel>, count: nat, first: nat, second: nat)
    requires
        count >= 1,
        first < count,
        second < count,
    ensures
        shard(items, first, count).len() <= shard(items, second, count).len() + 1,
        shard(items, second, count).len() <= shard(items, first, count).len() + 1,
{
    lemma_shard_size(items.len(), first, count);
    lemma_shard_size(items.len(), second, count);
    lemma_shard_bounds(items.len(), first, count);
    lemma_shard_bounds(items.len(), second, count);
}

/// A shard holds the whole quotient of the table's size by the number of
/// shards, or one record more.
pub proof fn lemma_shard_size(len: nat, index: nat, count: nat)
    requires
        count >= 1,
        index < count,
    ensures
        len / count <= shard_start(len, index + 1, count) - shard_start(len, index, count) <= len
            / count + 1,
{
    let l = len as int;
    let i = index as int;
    let n = count as int;
    let a = l * i;
    assert(l * (i + 1) == a + l) by (nonlinear_arith)
        requires
            a == l * i,
    ;
    assert(l / n <= (a + l) / n - a / n <= l / n + 1) by (nonlinear_arith)
        requires
            n >= 1,
            a >= 0,
            l >= 0,
    ;
}

/// The merged table holds the build records that the parts hold, each
/// once, and every value in it comes from one of the parts.
pub proof fn lemma_merged_holds(parts: Seq<Seq<EntryModel>>)
    ensures
        distinct(merged(parts)),
        forall|e: EntryModel|
            #[trigger] holds(merged(parts), e) <==> exists|i: int|
                0 <= i < parts.len() && holds(#[trigger] parts[i], e),
        forall|e: EntryModel|
            merged(parts).contains(e) ==> exists|i: int|
                0 <= i < parts.len() && (#[trigger] parts[i]).contains(e),
    decreases parts.len(),
{
    if parts.len() == 0 {
    } else {
        let front = parts.drop_last();
        lemma_merged_holds(front);
        lemma_inserted_all(merged(front), parts.last());
        assert forall|e: EntryModel|
            #[trigger] holds(merged(parts), e) <==> exists|i: int|
                0 <= i < parts.len() && holds(#[trigger] parts[i], e) by {
            if holds(merged(front), e) {
                let i = choose|i: int| 0 <= i < front.len() && holds(#[trigger] front[i], e);
                assert(holds(parts[i], e));
            }
            if holds(parts.last(), e) {
                assert(holds(parts[parts.len() - 1], e));
            }
            if exists|i: int| 0 <= i < parts.len() && holds(#[trigger] parts[i], e) {
                let i = choose|i: int| 0 <= i < parts.len() && holds(#[trigger] parts[i], e);
                if i < front.len() {
                    assert(holds(front[i], e));
                }
            }
        }
        assert forall|e: EntryModel| merged(parts).contains(e) implies exists|i: int|
            0 <= i < parts.len() && (#[trigger] parts[i]).contains(e) by {
            if merged(front).contains(e) {
                let i = choose|i: int| 0 <= i < front.len() && (#[trigger] front[i]).contains(e);
                assert(parts[i].contains(e));
            } else {
                assert(parts[parts.len() - 1].contains(e));
            }
        }
    }
}

/// Merging the first shards of a table gives back the table up to where
/// the next shard starts.
proof fn lemma_merge_shard_prefix(items: Seq<EntryModel>, count: nat, taken: nat)
    requires
        count >= 1,
        taken <= count,
        distinct(items),
    ensures
        merged(shards(items, count).take(taken as int)) == items.subrange(
            0,
            shard_start(items.len(), taken, count) as int,
        ),
    decreases taken,
{
    let parts = shards(items, count).take(taken as int);
    if taken == 0 {
        lemma_shard_bounds(items.len(), 0, count);
        assert(items.subrange(0, 0) =~= Seq::empty());
    } else {
        let before = (taken - 1) as nat;
        lemma_merge_shard_prefix(items, count, before);
        lemma_shard_bounds(items.len(), before, count);
        assert(parts.drop_last() =~= shards(items, count).take(before as int));
        assert(parts.last() == shard(items, before, count));
        let done = items.subrange(0, shard_start(items.len(), before, count) as int);
        let next = shard(items, before, count);
        let both = items.subrange(0, shard_start(items.len(), taken, count) as int);
        assert(done + next =~= both);
        assert forall|i: int, j: int| 0 <= i < j < both.len() implies !same_record(
            #[trigger] both[i],
            #[trigger] both[j],
        ) by {
            assert(both[i] == items[i]);
            assert(both[j] == items[j]);
        }
        lemma_inserted_all_fresh(done, next);
    }
}

/// Splitting a table into any number of shards and merging the shards
/// gives the table back, record for record.
pub proof fn lemma_split_then_merge(items: Seq<EntryModel>, count: nat)
    requires
        count >= 1,
        distinct(items),
    ensures
        merged(shards(items, count)) == items,
        merged(shards(items, count)).to_set() == items.to_set(),
{
    lemma_merge_shard_prefix(items, count, count);
    lemma_shard_bounds(items.len(), 0, count);
    assert(shards(items, count).take(count as int) =~= shards(items, count));
    assert(items.subrange(0, items.len() as int) =~= items);
}

/// A sequence that lists the values of a table, each as often as the
/// table, holds no build record twice and the same set of values.
pub proof fn lemma_same_records(items: Seq<EntryModel>, listed: Seq<EntryModel>)
    requires
        distinct(items),
        listed.to_multiset() == items.to_multiset(),
    ensures
        distinct(listed),
        listed.no_duplicates(),
        listed.to_set() == items.to_set(),
        listed.len() == items.len(),
        forall|e: EntryModel|
            #![trigger holds(listed, e)]
            #![trigger holds(items, e)]
            holds(listed, e) <==> holds(items, e),
{
    lemma_distinct_values(items);
    items.lemma_multiset_has_no_duplicates();
    listed.lemma_multiset_has_no_duplicates_conv();
    items.to_multiset_ensures();
    listed.to_multiset_ensures();
    assert forall|e: EntryModel| listed.contains(e) <==> items.contains(e) by {
        assert(listed.contains(e) <==> listed.to_multiset().count(e) > 0);
        assert(items.contains(e) <==> items.to_multiset().count(e) > 0);
    }
    assert(listed.to_set() =~= items.to_set());
    assert forall|i: int, j: int| 0 <= i < j < listed.len() implies !same_record(
        #[trigger] listed[i],
        #[trigger] listed[j],
    ) by {
        assert(listed.contains(listed[i]) && listed.contains(listed[j]));
        let p = choose|p: int| 0 <= p < items.len() && items[p] == listed[i];
        let q = choose|q: int| 0 <= q < items.len() && items[q] == listed[j];
        if p < q {
            assert(!same_record(items[p], items[q]));
        } else if q < p {
            assert(!same_record(items[q], items[p]));
        }
    }
    assert forall|e: EntryModel|
        #![trigger holds(listed, e)]
        #![trigger holds(items, e)]
        holds(listed, e) <==> holds(items, e) by {
        if holds(listed, e) {
            let k = choose|k: int| 0 <= k < listed.len() && same_record(#[trigger] listed[k], e);
            assert(listed.contains(listed[k]));
            let p = choose|p: int| 0 <= p < items.len() && items[p] == listed[k];
            assert(same_record(items[p], e));
        }
        if holds(items, e) {
            let k = choose|k: int| 0 <= k < items.len() && same_record(#[trigger] items[k], e);
            assert(items.contains(items[k]));
            assert(listed.contains(items[k]));
            let p = choose|p: int| 0 <= p < listed.len() && listed[p] == items[k];
            assert(same_record(listed[p], e));
        }
    }
}

/// Two tables that hold the same set of values hold each value as often
/// as the other.
pub proof fn lemma_same_set_same_counts(left: Seq<EntryModel>, right: Seq<EntryModel>)
    requires
        left.no_duplicates(),
        right.no_duplicates(),
        left.to_set() == right.to_set(),
    ensures
        left.to_multiset() == right.to_multiset(),
{
    left.lemma_multiset_has_no_duplicates();
    right.lemma_multiset_has_no_duplicates();
    left.to_multiset_ensures();
    right.to_multiset_ensures();
    assert forall|e: EntryModel| left.to_multiset().count(e) == right.to_multiset().count(e) by {
        assert(left.to_set().contains(e) <==> left.contains(e));
        assert(right.to_set().contains(e) <==> right.contains(e));
        assert(left.contains(e) <==> left.to_multiset().count(e) > 0);
        assert(right.contains(e) <==> right.to_multiset().count(e) > 0);
    }
    assert(left.to_multiset() =~= right.to_multiset());
}

/// The database of a table does not depend on the order in which the
/// records were inserted. Tables that hold the same build records give
/// databases that list the same build records in the same order; tables
/// that hold the same values give the same database.
pub proof fn lemma_database_ignores_insertion_order(
    first: Seq<EntryModel>,
    second: Seq<EntryModel>,
    first_database: Seq<EntryModel>,
    second_database: Seq<EntryModel>,
)
    requires
        distinct(first),
        distinct(second),
        forall|e: EntryModel| #![trigger holds(first, e)] #![trigger holds(second, e)]
            holds(first, e) <==> holds(second, e),
        sorted(first_database),
        sorted(second_database),
        first_database.to_multiset() == first.to_multiset(),
        second_database.to_multiset() == second.to_multiset(),
    ensures
        same_rows(first_database, second_database),
        first.to_set() == second.to_set() ==> first_database == second_database,
{
    lemma_same_records(first, first_database);
    lemma_same_records(second, second_database);
    lemma_sorted_same_records(first_database, second_database);
    if first.to_set() == second.to_set() {
        lemma_distinct_values(first);
        lemma_distinct_values(second);
        lemma_same_set_same_counts(first, second);
        lemma_sorted_is_unique(first_database, second_database);
    }
}

/// A set of build records keyed by directory, file and argument vector,
/// the two paths taken without regard to the separator they are written
/// with.
pub struct CompileCommandsTable {
    table: OrderedHashSet,
}

impl View for CompileCommandsTable {
    type V = Seq<EntryModel>;

    closed spec fn view(&self) -> Seq<EntryModel> {
        self.table@
    }
}

impl Clone for CompileCommandsTable {
    fn clone(&self) -> (result: Self)
        ensures
            result@ == self@,
    {
        CompileCommandsTable { table: self.table.clone() }
    }
}

/// Where shard `index` of `count` starts in a table of `len` records.
fn shard_bound(len: usize, index: usize, count: usize) -> (result: usize)
    requires
        count >= 1,
        index <= count,
    ensures
        result == shard_start(len as nat, index as nat, count as nat),
        result <= len,
{
    let wide_len: u128 = len as u128;
    let wide_index: u128 = index as u128;
    let wide_count: u128 = count as u128;
    assert(wide_len * wide_index <= 0xFFFF_FFFF_FFFF_FFFF * 0xFFFF_FFFF_FFFF_FFFF)
        by (nonlinear_arith)
        requires
            0 <= wide_len <= 0xFFFF_FFFF_FFFF_FFFF,
            0 <= wide_index <= 0xFFFF_FFFF_FFFF_FFFF,
    ;
    assert(0 <= (wide_len * wide_index) / (wide_count as int) <= wide_len) by (nonlinear_arith)
        requires
            0 <= wide_len,
            0 <= wide_index <= wide_count,
            wide_count >= 1,
    ;
    let start: u128 = wide_len * wide_index / wide_count;
    start as usize
}

impl CompileCommandsTable {
    /// The table of a database: every row, its arguments normalized, with
    /// rows of the same build record held once, as the first of them.
    pub fn from_database(database: CompilationDatabase) -> (result: Self)
        ensures
            result@ == inserted_all(Seq::empty(), normalized_rows(database@)),
            distinct(result@),
    {
        let mut table = OrderedHashSet::new();
        let ghost rows = normalized_rows(database@);
        let mut pos: usize = 0;
        while pos < database.entries.len()
            invariant
                pos <= database.entries.len(),
                rows == normalized_rows(database@),
                table@ == inserted_all(Seq::empty(), rows.take(pos as int)),
                distinct(table@),
            decreases database.entries.len() - pos,
        {
            let row = &database.entries[pos];
            let entry = CompileCommandsTableEntry::new(
                row.directory.as_str(),
                row.file.as_str(),
                row.command.as_slice(),
            );
            assert(entry@ == rows[pos as int]);
            assert(rows.take(pos + 1).drop_last() =~= rows.take(pos as int));
            table.insert(entry);
            pos = pos + 1;
        }
        assert(rows.take(pos as int) =~= rows);
        CompileCommandsTable { table }
    }

    /// The table as a database: every record once, in writing order.
    pub fn to_database(&self) -> (result: CompilationDatabase)
        ensures
            result@ == arranged(self@),
            strictly_sorted(result@),
            sorted(result@),
            result@.to_multiset() == self@.to_multiset(),
            distinct(result@),
            result@.to_set() == self@.to_set(),
            result@.len() == self@.len(),
    {
        let entries = self.table.values();
        let mut listed: Vec<CompilationDatabaseEntry> = Vec::new();
        let mut pos: usize = 0;
        while pos < entries.len()
            invariant
                pos <= entries.len(),
                listed@.len() == pos,
                forall|i: int| 0 <= i < pos ==> (#[trigger] listed@[i])@ == entries@[i]@,
            decreases entries.len() - pos,
        {
            let entry = &entries[pos];
            listed.push(
                CompilationDatabaseEntry::new(
                    entry.directory().as_str(),
                    entry.file().as_str(),
                    entry.command().as_slice(),
                ),
            );
            pos = pos + 1;
        }
        assert(rows(listed@) =~= self@);
        let result = CompilationDatabase::new(listed);
        proof {
            lemma_same_records(self@, result@);
            lemma_sorted_distinct_is_strict(result@);
        }
        result
    }

    /// How many records the table holds.
    pub fn len(&self) -> (result: usize)
        ensures
            result == self@.len(),
            distinct(self@),
    {
        self.table.len()
    }

    /// The records of the table, in the order in which they arrived.
    pub fn entries(&self) -> (result: &Vec<CompileCommandsTableEntry>)
        ensures
            models(result@) == self@,
            distinct(self@),
    {
        self.table.values()
    }

    /// Normalizes `command` and adds the record unless the table holds it.
    pub fn insert(&mut self, directory: &str, file: &str, command: &[String])
        ensures
            final(self)@ == inserted(
                old(self)@,
                EntryModel {
                    directory: directory@,
                    file: file@,
                    command: normalized(texts(command@)),
                },
            ),
            distinct(final(self)@),
            holds(
                final(self)@,
                EntryModel {
                    directory: directory@,
                    file: file@,
                    command: normalized(texts(command@)),
                },
            ),
    {
        self.table.insert(CompileCommandsTableEntry::new(directory, file, command));
    }

    /// Keeps the records whose file passes `pattern`, in their order.
    pub fn filter_entries(self, pattern: &GlobPattern) -> (result: Self)
        ensures
            result@ == matching(self@, pattern@),
            distinct(result@),
    {
        let entries = self.table.values();
        let ghost items = self@;
        let mut table = OrderedHashSet::new();
        let mut pos: usize = 0;
        while pos < entries.len()
            invariant
                pos <= entries.len(),
                models(entries@) == items,
                distinct(items),
                table@ == matching(items.take(pos as int), pattern@),
                distinct(table@),
            decreases entries.len() - pos,
        {
            let entry = &entries[pos];
            proof {
                assert(items.take(pos + 1).drop_last() =~= items.take(pos as int));
                assert(items.take(pos + 1).last() == entry@);
                let seen = items.take(pos as int);
                let kept = matching(seen, pattern@);
                lemma_matching_holds(seen, pattern@);
                if holds(kept, entry@) {
                    let k = choose|k: int| 0 <= k < kept.len() && same_record(#[trigger] kept[k], entry@);
                    assert(kept.contains(kept[k]));
                    assert(seen.contains(kept[k]));
                    let i = choose|i: int| 0 <= i < seen.len() && seen[i] == kept[k];
                    assert(seen[i] == items[i]);
                    assert(same_record(items[i], items[pos as int]));
                }
            }
            if pattern.matches(Some(entry.file().as_str())) {
                table.insert(entry.clone());
            }
            pos = pos + 1;
        }
        assert(items.take(pos as int) =~= items);
        CompileCommandsTable { table }
    }

    /// Divides the table into `n` shards of contiguous records whose sizes
    /// differ by at most one.
    pub fn split(self, n: usize) -> (result: Vec<Self>)
        requires
            n >= 1,
        ensures
            views(result@) == shards(self@, n as nat),
    {
        let entries = self.table.values();
        let ghost items = self@;
        let len = entries.len();
        let mut result: Vec<Self> = Vec::new();
        let mut index: usize = 0;
        while index < n
            invariant
                index <= n,
                n >= 1,
                len == entries.len(),
                models(entries@) == items,
                distinct(items),
                result@.len() == index,
                forall|i: int| 0 <= i < index ==> (#[trigger] result@[i])@ == shard(items, i as nat, n as nat),
            decreases n - index,
        {
            let begin = shard_bound(len, index, n);
            let end = shard_bound(len, index + 1, n);
            proof {
                lemma_shard_bounds(len as nat, index as nat, n as nat);
            }
            let mut table = OrderedHashSet::new();
            let mut pos: usize = begin;
            assert(items.subrange(begin as int, begin as int) =~= Seq::empty());
            while pos < end
                invariant
                    begin <= pos <= end <= len,
                    len == entries.len(),
                    models(entries@) == items,
                    distinct(items),
                    table@ == items.subrange(begin as int, pos as int),
                decreases end - pos,
            {
                let entry = &entries[pos];
                proof {
                    let run = items.subrange(begin as int, pos as int);
                    if holds(run, entry@) {
                        let i = choose|i: int| 0 <= i < run.len() && same_record(#[trigger] run[i], entry@);
                        assert(same_record(items[begin + i], items[pos as int]));
                    }
                    assert(run.push(entry@) =~= items.subrange(begin as int, pos + 1));
                }
                table.insert(entry.clone());
                pos = pos + 1;
            }
            result.push(CompileCommandsTable { table });
            index = index + 1;
        }
        assert(views(result@) =~= shards(items, n as nat));
        result
    }

    /// The union of the tables: every record of every table, held once.
    pub fn merge(tables: Vec<Self>) -> (result: Self)
        ensures
            result@ == merged(views(tables@)),
            distinct(result@),
    {
        let mut table = OrderedHashSet::new();
        let ghost parts = views(tables@);
        let mut index: usize = 0;
        while index < tables.len()
            invariant
                index <= tables.len(),
                parts == views(tables@),
                table@ == merged(parts.take(index as int)),
                distinct(table@),
            decreases tables.len() - index,
        {
            let entries = tables[index].table.values();
            let ghost part = parts[index as int];
            let ghost start = table@;
            let mut pos: usize = 0;
            while pos < entries.len()
                invariant
                    pos <= entries.len(),
                    models(entries@) == part,
                    table@ == inserted_all(start, part.take(pos as int)),
                    distinct(table@),
                decreases entries.len() - pos,
            {
                assert(part.take(pos + 1).drop_last() =~= part.take(pos as int));
                table.insert(entries[pos].clone());
                pos = pos + 1;
            }
            assert(part.take(pos as int) =~= part);
            assert(parts.take(index + 1).drop_last() =~= parts.take(index as int));
            index = index + 1;
        }
        assert(parts.take(index as int) =~= parts);
        CompileCommandsTable { table }
    }
}

/// Every record of every shard of a filtered table passes the filter: a
/// record whose file does not pass is in no shard.
pub proof fn lemma_shards_hold_only_matching(
    items: Seq<EntryModel>,
    pattern: Option<Seq<char>>,
    count: nat,
    index: nat,
    entry: EntryModel,
)
    requires
        count >= 1,
        index < count,
        shard(matching(items, pattern), index, count).contains(entry),
    ensures
        items.contains(entry),
        accepts(pattern, Some(entry.file)),
{
    let kept = matching(items, pattern);
    let part = shard(kept, index, count);
    lemma_shard_bounds(kept.len(), index, count);
    lemma_matching_holds(items, pattern);
    let i = choose|i: int| 0 <= i < part.len() && part[i] == entry;
    assert(kept[shard_start(kept.len(), index, count) + i] == entry);
    assert(kept.contains(entry));
}

/// Filtering keeps exactly the records whose file passes, each once.
pub proof fn lemma_matching_holds(items: Seq<EntryModel>, pattern: Option<Seq<char>>)
    ensures
        forall|e: EntryModel|
            #[trigger] matching(items, pattern).contains(e) <==> items.contains(e) && accepts(
                pattern,
                Some(e.file),
            ),
        pattern is None ==> matching(items, pattern) == items,
    decreases items.len(),
{
    if items.len() == 0 {
    } else {
        let front = items.drop_last();
        let last = items.last();
        lemma_matching_holds(front, pattern);
        let kept = matching(front, pattern);
        assert forall|e: EntryModel|
            #[trigger] matching(items, pattern).contains(e) <==> items.contains(e) && accepts(
                pattern,
                Some(e.file),
            ) by {
            if items.contains(e) {
                let i = choose|i: int| 0 <= i < items.len() && items[i] == e;
                if i < front.len() {
                    assert(front[i] == e);
                }
            }
            if front.contains(e) {
                let i = choose|i: int| 0 <= i < front.len() && front[i] == e;
                assert(items[i] == e);
            }
            assert(items[items.len() - 1] == last);
            if kept.contains(e) {
                let i = choose|i: int| 0 <= i < kept.len() && kept[i] == e;
                assert(kept.push(last)[i] == e);
            }
            if accepts(pattern, Some(last.file)) {
                assert(kept.push(last)[kept.len() as int] == last);
            }
        }
        if pattern is None {
            assert(front.push(last) =~= items);
        }
    }
}

} // verus!
