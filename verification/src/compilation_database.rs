//! The compilation database as it is read and written: a list of raw rows.
use core::cmp::Ordering;
use vstd::multiset::Multiset;
use vstd::prelude::*;
use vstd::seq_lib::to_multiset_remove;
use vstd::std_specs::cmp::{PartialEqSpecImpl, PartialOrdSpecImpl};
use vstd::string::StrSliceExecFns;
use crate::command_table_entry::{
    clone_strings, same_path, same_record, same_strings, texts, EntryModel,
};
use crate::error::Error;
use crate::order::{
    entry_lt, entry_order, lemma_entry_asymmetric, lemma_entry_connected,
    lemma_entry_order_of_same_record, lemma_entry_transitive, record_less,
};
use crate::ordered_hash_set::{distinct, holds};

verus! {

/// Whether a character is white space, as Unicode defines it.
pub open spec fn is_blank(c: char) -> bool {
    let code = c as u32;
    ||| 0x09 <= code <= 0x0d
    ||| code == 0x20
    ||| code == 0x85
    ||| code == 0xa0
    ||| code == 0x1680
    ||| 0x2000 <= code <= 0x200a
    ||| code == 0x2028
    ||| code == 0x2029
    ||| code == 0x202f
    ||| code == 0x205f
    ||| code == 0x3000
}

/// Where the token that is open at `pos` starts: behind the last white
/// space before `pos`, or at the start of the text.
pub open spec fn token_start(text: Seq<char>, pos: nat) -> nat
    decreases pos,
{
    if pos == 0 || pos > text.len() {
        0
    } else if is_blank(text[pos - 1]) {
        pos
    } else {
        token_start(text, (pos - 1) as nat)
    }
}

/// The tokens that a white space before `pos` has closed, empty ones
/// included.
pub open spec fn closed_tokens(text: Seq<char>, pos: nat) -> Seq<Seq<char>>
    decreases pos,
{
    if pos == 0 || pos > text.len() {
        Seq::empty()
    } else if is_blank(text[pos - 1]) {
        closed_tokens(text, (pos - 1) as nat).push(
            text.subrange(token_start(text, (pos - 1) as nat) as int, pos - 1),
        )
    } else {
        closed_tokens(text, (pos - 1) as nat)
    }
}

/// A command line cut at every white space character: a text without
/// white space is one token, and two white spaces in a row enclose an empty
/// token.
pub open spec fn blank_separated(text: Seq<char>) -> Seq<Seq<char>> {
    closed_tokens(text, text.len()).push(
        text.subrange(token_start(text, text.len()) as int, text.len() as int),
    )
}

/// Whether the character at `index` is white space. In a text known to
/// be ASCII the byte is read directly.
fn is_blank_at(text: &str, ascii: bool, index: usize) -> (result: bool)
    requires
        index < text@.len(),
        ascii ==> text.is_ascii(),
    ensures
        result == is_blank(text@[index as int]),
{
    if ascii {
        let byte = text.get_ascii(index);
        assert('\0' <= text@[index as int] <= '\u{7f}');
        (9 <= byte && byte <= 13) || byte == 32
    } else {
        let code: u32 = text.get_char(index) as u32;
        (0x09 <= code && code <= 0x0d) || code == 0x20 || code == 0x85 || code == 0xa0 || code
            == 0x1680 || (0x2000 <= code && code <= 0x200a) || code == 0x2028 || code == 0x2029
            || code == 0x202f || code == 0x205f || code == 0x3000
    }
}

/// The characters of `text` from `from` up to `to`, as a string.
fn token_between(text: &str, ascii: bool, from: usize, to: usize) -> (result: String)
    requires
        from <= to <= text@.len(),
        ascii ==> text.is_ascii(),
    ensures
        result@ == text@.subrange(from as int, to as int),
{
    if ascii {
        text.substring_ascii(from, to).to_owned()
    } else {
        text.substring_char(from, to).to_owned()
    }
}

/// Cuts a command line into its tokens at every white space character.
pub fn split_command(text: &str) -> (result: Vec<String>)
    ensures
        texts(result@) == blank_separated(text@),
{
    let ascii = text.is_ascii();
    let len = text.unicode_len();
    let mut result: Vec<String> = Vec::new();
    let mut start: usize = 0;
    let mut pos: usize = 0;
    assert(texts(result@) =~= closed_tokens(text@, 0));
    while pos < len
        invariant
            pos <= len,
            len == text@.len(),
            ascii ==> text.is_ascii(),
            start == token_start(text@, pos as nat),
            start <= pos,
            texts(result@) == closed_tokens(text@, pos as nat),
        decreases len - pos,
    {
        let ghost before = texts(result@);
        if is_blank_at(text, ascii, pos) {
            let token = token_between(text, ascii, start, pos);
            result.push(token);
            assert(texts(result@) =~= before.push(text@.subrange(start as int, pos as int)));
            start = pos + 1;
        }
        pos = pos + 1;
    }
    let ghost before = texts(result@);
    let token = token_between(text, ascii, start, len);
    result.push(token);
    assert(texts(result@) =~= before.push(text@.subrange(start as int, len as int)));
    result
}

/// The argument vector of a row that may give it as a list of arguments or
/// as one command line. Exactly one of the two must be there: the list is
/// taken as it is, the command line is cut at its white space, and anything
/// else is `Error::MissingCommandField`.
pub fn command_from_fields(arguments: Option<Vec<String>>, command: Option<String>) -> (result:
    Result<Vec<String>, Error>)
    ensures
        match (arguments, command) {
            (Some(list), None) => result is Ok && result->Ok_0 == list,
            (None, Some(line)) => result is Ok && texts(result->Ok_0@) == blank_separated(line@),
            _ => result is Err && result->Err_0 is MissingCommandField,
        },
{
    match (arguments, command) {
        (Some(list), None) => Ok(list),
        (None, Some(line)) => Ok(split_command(line.as_str())),
        _ => Err(Error::MissingCommandField),
    }
}

/// One row of a compilation database, exactly as it was read.
#[derive(Debug)]
pub struct CompilationDatabaseEntry {
    pub directory: String,
    pub file: String,
    pub command: Vec<String>,
}

impl View for CompilationDatabaseEntry {
    type V = EntryModel;

    open spec fn view(&self) -> EntryModel {
        EntryModel { directory: self.directory@, file: self.file@, command: texts(self.command@) }
    }
}

impl Clone for CompilationDatabaseEntry {
    fn clone(&self) -> (result: Self)
        ensures
            result@ == self@,
    {
        CompilationDatabaseEntry {
            directory: self.directory.clone(),
            file: self.file.clone(),
            command: clone_strings(self.command.as_slice()),
        }
    }
}

impl CompilationDatabaseEntry {
    /// The row for `file`, compiled in `directory` by `command`, unchanged.
    pub fn new(directory: &str, file: &str, command: &[String]) -> (result: Self)
        ensures
            result@ == (EntryModel {
                directory: directory@,
                file: file@,
                command: texts(command@),
            }),
    {
        CompilationDatabaseEntry {
            directory: directory.to_owned(),
            file: file.to_owned(),
            command: clone_strings(command),
        }
    }
}

impl PartialEq for CompilationDatabaseEntry {
    /// Rows are equal if their arguments are the same and their paths are
    /// the same but for the separator.
    fn eq(&self, other: &Self) -> (result: bool) {
        same_path(self.directory.as_str(), other.directory.as_str()) && same_path(
            self.file.as_str(),
            other.file.as_str(),
        ) && same_strings(self.command.as_slice(), other.command.as_slice())
    }
}

impl PartialEqSpecImpl for CompilationDatabaseEntry {
    open spec fn obeys_eq_spec() -> bool {
        true
    }

    open spec fn eq_spec(&self, other: &Self) -> bool {
        same_record(self@, other@)
    }
}

impl CompilationDatabaseEntry {
    /// Whether this row is written before `other`: by file, then by
    /// argument vector, then by directory.
    pub fn precedes(&self, other: &Self) -> (result: bool)
        ensures
            result == entry_lt(self@, other@),
    {
        record_less(
            &self.file,
            self.command.as_slice(),
            &self.directory,
            &other.file,
            other.command.as_slice(),
            &other.directory,
        )
    }
}

impl PartialOrd for CompilationDatabaseEntry {
    /// Rows are ordered as they are written: by file, then by argument
    /// vector, then by directory, the spellings of a build record being
    /// equal.
    fn partial_cmp(&self, other: &Self) -> (result: Option<Ordering>) {
        if self.precedes(other) {
            Some(Ordering::Less)
        } else if other.precedes(self) {
            Some(Ordering::Greater)
        } else {
            Some(Ordering::Equal)
        }
    }
}

impl PartialOrdSpecImpl for CompilationDatabaseEntry {
    open spec fn obeys_partial_cmp_spec() -> bool {
        true
    }

    open spec fn partial_cmp_spec(&self, other: &Self) -> Option<Ordering> {
        entry_order(self@, other@)
    }
}

/// Rows in writing order: no row stands after one that it precedes.
pub open spec fn sorted(items: Seq<EntryModel>) -> bool {
    forall|i: int, j: int| 0 <= i < j < items.len() ==> !entry_lt(items[j], items[i])
}

/// Rows in writing order with no row twice: each precedes all later ones.
pub open spec fn strictly_sorted(items: Seq<EntryModel>) -> bool {
    forall|i: int, j: int| 0 <= i < j < items.len() ==> entry_lt(items[i], items[j])
}

/// The values of a vector of rows, row by row.
pub open spec fn rows(entries: Seq<CompilationDatabaseEntry>) -> Seq<EntryModel> {
    Seq::new(entries.len(), |i: int| entries[i]@)
}

/// A compilation database: its rows in order.
#[derive(Debug)]
pub struct CompilationDatabase {
    pub entries: Vec<CompilationDatabaseEntry>,
}

impl View for CompilationDatabase {
    type V = Seq<EntryModel>;

    open spec fn view(&self) -> Seq<EntryModel> {
        rows(self.entries@)
    }
}

/// Whether two lists of rows hold the same build records, place by place.
pub open spec fn same_rows(left: Seq<EntryModel>, right: Seq<EntryModel>) -> bool {
    &&& left.len() == right.len()
    &&& forall|i: int| 0 <= i < left.len() ==> same_record(#[trigger] left[i], right[i])
}

impl Clone for CompilationDatabase {
    fn clone(&self) -> (result: Self)
        ensures
            result@ == self@,
    {
        let mut entries: Vec<CompilationDatabaseEntry> = Vec::new();
        let mut pos: usize = 0;
        while pos < self.entries.len()
            invariant
                pos <= self.entries.len(),
                entries@.len() == pos,
                forall|i: int| 0 <= i < pos ==> (#[trigger] entries@[i])@ == self.entries@[i]@,
            decreases self.entries.len() - pos,
        {
            entries.push(self.entries[pos].clone());
            pos = pos + 1;
        }
        assert(rows(entries@) =~= rows(self.entries@));
        CompilationDatabase { entries }
    }
}

impl PartialEq for CompilationDatabase {
    /// Databases are equal if they list the same build records in the same
    /// order.
    fn eq(&self, other: &Self) -> (result: bool) {
        if self.entries.len() != other.entries.len() {
            return false;
        }
        let mut pos: usize = 0;
        while pos < self.entries.len()
            invariant
                pos <= self.entries.len(),
                self.entries.len() == other.entries.len(),
                forall|i: int|
                    0 <= i < pos ==> same_record(#[trigger] rows(self.entries@)[i], rows(other.entries@)[i]),
            decreases self.entries.len() - pos,
        {
            if self.entries[pos] != other.entries[pos] {
                assert(!same_record(rows(self.entries@)[pos as int], rows(other.entries@)[pos as int]));
                return false;
            }
            pos = pos + 1;
        }
        true
    }
}

impl PartialEqSpecImpl for CompilationDatabase {
    open spec fn obeys_eq_spec() -> bool {
        true
    }

    open spec fn eq_spec(&self, other: &Self) -> bool {
        same_rows(self@, other@)
    }
}

/// Sorted rows of which none is the build record of another are strictly
/// sorted.
pub proof fn lemma_sorted_distinct_is_strict(items: Seq<EntryModel>)
    requires
        sorted(items),
        distinct(items),
    ensures
        strictly_sorted(items),
{
    assert forall|i: int, j: int| 0 <= i < j < items.len() implies entry_lt(
        items[i],
        items[j],
    ) by {
        assert(!same_record(items[i], items[j]));
        lemma_entry_connected(items[i], items[j]);
    }
}

/// Without its first row a sorted list of different build records is
/// still one, and it holds what the list held but for the first row.
proof fn lemma_rest_of_sorted(items: Seq<EntryModel>)
    requires
        sorted(items),
        distinct(items),
        items.len() > 0,
    ensures
        sorted(items.skip(1)),
        distinct(items.skip(1)),
        forall|e: EntryModel|
            #[trigger] holds(items.skip(1), e) <==> holds(items, e) && !same_record(items[0], e),
{
    let rest = items.skip(1);
    assert forall|i: int, j: int| 0 <= i < j < rest.len() implies !entry_lt(rest[j], rest[i]) by {
        assert(rest[i] == items[i + 1] && rest[j] == items[j + 1]);
    }
    assert forall|i: int, j: int| 0 <= i < j < rest.len() implies !same_record(
        #[trigger] rest[i],
        #[trigger] rest[j],
    ) by {
        assert(rest[i] == items[i + 1] && rest[j] == items[j + 1]);
    }
    assert forall|e: EntryModel| #[trigger]
        holds(rest, e) <==> holds(items, e) && !same_record(items[0], e) by {
        if holds(rest, e) {
            let k = choose|k: int| 0 <= k < rest.len() && same_record(#[trigger] rest[k], e);
            assert(rest[k] == items[k + 1]);
            assert(same_record(items[k + 1], e));
            assert(!same_record(items[0], items[k + 1]));
        }
        if holds(items, e) && !same_record(items[0], e) {
            let k = choose|k: int| 0 <= k < items.len() && same_record(#[trigger] items[k], e);
            assert(rest[k - 1] == items[k]);
            assert(same_record(rest[k - 1], e));
        }
    }
}

/// Two sorted lists of different build records that hold the same build
/// records list them in the same order: what a database says does not
/// depend on the order in which its rows were found, nor on which spelling
/// of a path was found first.
pub proof fn lemma_sorted_same_records(left: Seq<EntryModel>, right: Seq<EntryModel>)
    requires
        sorted(left),
        sorted(right),
        distinct(left),
        distinct(right),
        forall|e: EntryModel| #![trigger holds(left, e)] #![trigger holds(right, e)]
            holds(left, e) <==> holds(right, e),
    ensures
        same_rows(left, right),
    decreases left.len(),
{
    if left.len() == 0 {
        if right.len() > 0 {
            assert(same_record(right[0], right[0]));
            assert(holds(right, right[0]));
            assert(holds(left, right[0]));
        }
    } else {
        let a = left[0];
        assert(same_record(left[0], a));
        assert(holds(left, a));
        assert(holds(right, a));
        let b = right[0];
        assert(same_record(right[0], b));
        assert(holds(right, b));
        assert(holds(left, b));
        if !same_record(a, b) {
            let j = choose|j: int| 0 <= j < right.len() && same_record(#[trigger] right[j], a);
            let i = choose|i: int| 0 <= i < left.len() && same_record(#[trigger] left[i], b);
            assert(!entry_lt(right[j], right[0]));
            assert(!entry_lt(left[i], left[0]));
            lemma_entry_order_of_same_record(right[j], a, b);
            lemma_entry_order_of_same_record(left[i], b, a);
            lemma_entry_connected(a, b);
        }
        lemma_rest_of_sorted(left);
        lemma_rest_of_sorted(right);
        lemma_sorted_same_records(left.skip(1), right.skip(1));
        assert forall|i: int| 0 <= i < left.len() implies same_record(
            #[trigger] left[i],
            right[i],
        ) by {
            if i > 0 {
                assert(left.skip(1)[i - 1] == left[i]);
                assert(right.skip(1)[i - 1] == right[i]);
            }
        }
    }
}

/// Two sorted sequences that hold the same rows the same number of times,
/// none of them the build record of another, are the same sequence.
pub proof fn lemma_sorted_is_unique(left: Seq<EntryModel>, right: Seq<EntryModel>)
    requires
        sorted(left),
        sorted(right),
        distinct(left),
        left.to_multiset() == right.to_multiset(),
    ensures
        left == right,
    decreases left.len(),
{
    left.to_multiset_ensures();
    right.to_multiset_ensures();
    assert(left.len() == right.len());
    if left.len() > 0 {
        let a = left[0];
        let b = right[0];
        if a != b {
            assert(left.contains(a));
            assert(right.to_multiset().count(a) > 0);
            assert(right.contains(a));
            let j = choose|j: int| 0 <= j < right.len() && right[j] == a;
            assert(right.contains(b));
            assert(left.to_multiset().count(b) > 0);
            assert(left.contains(b));
            let i = choose|i: int| 0 <= i < left.len() && left[i] == b;
            assert(!entry_lt(right[j], right[0]));
            assert(!entry_lt(left[i], left[0]));
            assert(!same_record(left[0], left[i]));
            lemma_entry_connected(a, b);
        }
        assert(left.remove(0) =~= left.skip(1));
        assert(right.remove(0) =~= right.skip(1));
        to_multiset_remove(left, 0);
        to_multiset_remove(right, 0);
        assert(left.skip(1).to_multiset() == right.skip(1).to_multiset());
        lemma_rest_of_sorted(left);
        assert forall|i: int, j: int| 0 <= i < j < right.skip(1).len() implies !entry_lt(
            right.skip(1)[j],
            right.skip(1)[i],
        ) by {
            assert(right.skip(1)[i] == right[i + 1] && right.skip(1)[j] == right[j + 1]);
        }
        lemma_sorted_is_unique(left.skip(1), right.skip(1));
        assert(left =~= seq![a] + left.skip(1));
        assert(right =~= seq![b] + right.skip(1));
    } else {
        assert(left =~= right);
    }
}

/// Where a row goes in a sorted list: before the first row that it
/// precedes, or at the end.
pub open spec fn place(items: Seq<EntryModel>, entry: EntryModel) -> int
    decreases items.len(),
{
    if items.len() == 0 || entry_lt(entry, items[0]) {
        0
    } else {
        1 + place(items.skip(1), entry)
    }
}

/// The rows in writing order, each put in its place in the order given:
/// rows that are spellings of one build record stay in the order in which
/// they were given.
pub open spec fn arranged(given: Seq<EntryModel>) -> Seq<EntryModel>
    decreases given.len(),
{
    if given.len() == 0 {
        Seq::empty()
    } else {
        let front = arranged(given.drop_last());
        front.insert(place(front, given.last()), given.last())
    }
}

/// The place of a row is the first index whose row it precedes.
proof fn lemma_place(items: Seq<EntryModel>, entry: EntryModel, index: int)
    requires
        0 <= index <= items.len(),
        forall|k: int| 0 <= k < index ==> !entry_lt(entry, #[trigger] items[k]),
        index < items.len() ==> entry_lt(entry, items[index]),
    ensures
        place(items, entry) == index,
    decreases items.len(),
{
    if index > 0 {
        let rest = items.skip(1);
        assert(!entry_lt(entry, items[0]));
        assert forall|k: int| 0 <= k < index - 1 implies !entry_lt(entry, #[trigger] rest[k]) by {
            assert(rest[k] == items[k + 1]);
        }
        if index - 1 < rest.len() {
            assert(rest[index - 1] == items[index]);
        }
        lemma_place(rest, entry, index - 1);
    }
}

impl CompilationDatabase {
    /// The database of the given rows, put in writing order. Rows that are
    /// spellings of one build record stay in the order in which they were
    /// given.
    pub fn new(entries: Vec<CompilationDatabaseEntry>) -> (result: Self)
        ensures
            result@ == arranged(rows(entries@)),
            sorted(result@),
            result@.to_multiset() == rows(entries@).to_multiset(),
    {
        let ghost given = rows(entries@);
        let mut rest = entries;
        let mut done: Vec<CompilationDatabaseEntry> = Vec::new();
        let ghost mut taken: int = 0;
        assert(rows(done@) =~= Seq::empty());
        assert(given.take(0) =~= Seq::empty());
        assert(given.skip(0) =~= given);
        proof {
            rows(done@).to_multiset_ensures();
        }
        assert(rows(done@).to_multiset().len() == 0);
        assert(rows(done@).to_multiset() =~= Multiset::empty());
        assert(rows(done@).to_multiset().add(given.to_multiset()) =~= given.to_multiset());
        while rest.len() > 0
            invariant
                0 <= taken <= given.len(),
                rows(rest@) == given.skip(taken),
                rows(done@) == arranged(given.take(taken)),
                sorted(rows(done@)),
                rows(done@).to_multiset().add(rows(rest@).to_multiset()) == given.to_multiset(),
            decreases rest.len(),
        {
            let ghost rest_before = rows(rest@);
            let ghost done_before = rows(done@);
            let entry = rest.remove(0);
            assert(rows(rest@) =~= rest_before.remove(0));
            assert(entry@ == rest_before[0]);
            assert(given.skip(taken)[0] == given[taken]);
            assert(rows(rest@) =~= given.skip(taken + 1));
            assert(given.take(taken + 1).drop_last() =~= given.take(taken));
            let mut index: usize = 0;
            while index < done.len() && !entry.precedes(&done[index])
                invariant
                    index <= done.len(),
                    forall|k: int| 0 <= k < index ==> !entry_lt(entry@, #[trigger] rows(done@)[k]),
                decreases done.len() - index,
            {
                index = index + 1;
            }
            proof {
                lemma_place(done_before, entry@, index as int);
            }
            done.insert(index, entry);
            proof {
                let after = rows(done@);
                assert(after =~= done_before.insert(index as int, entry@));
                assert(after.remove(index as int) =~= done_before);
                to_multiset_remove(after, index as int);
                after.to_multiset_ensures();
                assert(after.contains(entry@));
                to_multiset_remove(rest_before, 0);
                rest_before.to_multiset_ensures();
                assert(rest_before.contains(entry@));
                assert(after.to_multiset() =~= done_before.to_multiset().insert(entry@));
                assert(rest_before.to_multiset() =~= rows(rest@).to_multiset().insert(entry@));
                assert(after.to_multiset().add(rows(rest@).to_multiset()) =~= done_before.to_multiset().add(
                    rest_before.to_multiset(),
                ));
                assert forall|i: int, j: int| 0 <= i < j < after.len() implies !entry_lt(
                    after[j],
                    after[i],
                ) by {
                    if j == index {
                        assert(after[i] == done_before[i]);
                    } else if i == index {
                        assert(after[j] == done_before[j - 1]);
                        if index < done_before.len() {
                            lemma_entry_asymmetric(entry@, done_before[index as int]);
                            if entry_lt(after[j], entry@) {
                                lemma_entry_transitive(after[j], entry@, done_before[index as int]);
                            }
                        }
                    } else {
                        let before_i = if i < index { i } else { i - 1 };
                        let before_j = if j < index { j } else { j - 1 };
                        assert(after[i] == done_before[before_i]);
                        assert(after[j] == done_before[before_j]);
                    }
                }
                taken = taken + 1;
            }
        }
        assert(rows(rest@) =~= Seq::empty());
        assert(given.take(taken) =~= given);
        proof {
            rows(rest@).to_multiset_ensures();
        }
        assert(rows(rest@).to_multiset().len() == 0);
        assert(rows(rest@).to_multiset() =~= Multiset::empty());
        assert(rows(done@).to_multiset().add(rows(rest@).to_multiset()) =~= rows(done@).to_multiset());
        CompilationDatabase { entries: done }
    }

    /// The rows of the database, in order.
    pub fn entries(&self) -> (result: &Vec<CompilationDatabaseEntry>)
        ensures
            rows(result@) == self@,
    {
        &self.entries
    }
}

} // verus!
