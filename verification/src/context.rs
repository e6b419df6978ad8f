//! The steps of a completion run: which records are parsed, how they are
//! divided among workers, and what the headers found for a record add.
//!
//! Parsing a source file is not done here. A caller parses each record of a
//! shard, hands the outcome to [`Context::record`], and merges the shards
//! with [`Context::finish`].
use vstd::prelude::*;
use crate::command_table::{
    lemma_database_ignores_insertion_order, lemma_merged_holds, lemma_shard_bounds,
    lemma_split_then_merge, matching, merged, normalized_rows, shard, shard_start, shards, views,
    CompileCommandsTable,
};
use crate::command_table_entry::{same_record, texts, CompileCommandsTableEntry, EntryModel};
use crate::compilation_database::{
    arranged, same_rows, sorted, strictly_sorted, CompilationDatabase,
};
use crate::error::Error;
use crate::glob_pattern::{accepts, glob_valid, GlobPattern};
use crate::ordered_hash_set::{
    distinct, holds, inserted, inserted_all, lemma_contained_is_held, lemma_inserted,
};

verus! {

/// The argument vector without every token that equals `file`.
pub open spec fn without_file(command: Seq<Seq<char>>, file: Seq<char>) -> Seq<Seq<char>>
    decreases command.len(),
{
    if command.len() == 0 {
        Seq::empty()
    } else {
        let front = without_file(command.drop_last(), file);
        if command.last() == file {
            front
        } else {
            front.push(command.last())
        }
    }
}

/// The record that stands for a header found while parsing `origin`: the
/// header as file, with the directory and arguments of `origin`.
pub open spec fn header_entry(origin: EntryModel, header: Seq<char>) -> EntryModel {
    EntryModel { directory: origin.directory, file: header, command: origin.command }
}

/// The texts of a list of header paths; `None` stands for a path that has
/// no text form.
pub open spec fn header_texts(includes: Seq<Option<String>>) -> Seq<Option<Seq<char>>> {
    Seq::new(
        includes.len(),
        |i: int|
            match includes[i] {
                Some(path) => Some(path@),
                None => None,
            },
    )
}

/// What parsing one record gave: the headers in the order in which they
/// were met, or nothing where the parse failed.
pub open spec fn outcome_headers(outcome: Result<Vec<Option<String>>, Error>) -> Option<
    Seq<Option<Seq<char>>>,
> {
    match outcome {
        Ok(includes) => Some(header_texts(includes@)),
        Err(_) => None,
    }
}

/// The table after the headers of `origin` that pass the output filter
/// were inserted, in the order in which they were met.
pub open spec fn with_headers(
    items: Seq<EntryModel>,
    origin: EntryModel,
    headers: Seq<Option<Seq<char>>>,
    output: Option<Seq<char>>,
) -> Seq<EntryModel>
    decreases headers.len(),
{
    if headers.len() == 0 {
        items
    } else {
        let front = with_headers(items, origin, headers.drop_last(), output);
        if accepts(output, headers.last()) {
            inserted(front, header_entry(origin, headers.last()->Some_0))
        } else {
            front
        }
    }
}

/// The table after the outcome of parsing `origin` was recorded: a failed
/// parse leaves the table as it was.
pub open spec fn with_outcome(
    items: Seq<EntryModel>,
    origin: EntryModel,
    outcome: Option<Seq<Option<Seq<char>>>>,
    output: Option<Seq<char>>,
) -> Seq<EntryModel> {
    match outcome {
        Some(headers) => with_headers(items, origin, headers, output),
        None => items,
    }
}

/// Whether `entry` stands for one of the headers that pass the output
/// filter.
pub open spec fn found_among(
    entry: EntryModel,
    origin: EntryModel,
    headers: Seq<Option<Seq<char>>>,
    output: Option<Seq<char>>,
) -> bool {
    exists|i: int|
        0 <= i < headers.len() && accepts(output, #[trigger] headers[i]) && entry == header_entry(
            origin,
            headers[i]->Some_0,
        )
}

/// Whether `entry` is the build record of one of the headers that pass
/// the output filter, however its paths are written.
pub open spec fn found_record(
    entry: EntryModel,
    origin: EntryModel,
    headers: Seq<Option<Seq<char>>>,
    output: Option<Seq<char>>,
) -> bool {
    exists|i: int|
        0 <= i < headers.len() && accepts(output, #[trigger] headers[i]) && same_record(
            header_entry(origin, headers[i]->Some_0),
            entry,
        )
}

/// Recording headers adds the build records of the headers that pass the
/// output filter and no others, keeps what the table held, and holds no
/// build record twice. Every value added is the record of such a header as
/// the parser spelled it.
pub proof fn lemma_with_headers_holds(
    items: Seq<EntryModel>,
    origin: EntryModel,
    headers: Seq<Option<Seq<char>>>,
    output: Option<Seq<char>>,
)
    requires
        distinct(items),
    ensures
        distinct(with_headers(items, origin, headers, output)),
        forall|e: EntryModel|
            #[trigger] holds(with_headers(items, origin, headers, output), e) <==> holds(items, e)
                || found_record(e, origin, headers, output),
        forall|e: EntryModel|
            #[trigger] with_headers(items, origin, headers, output).contains(e) ==> items.contains(e)
                || found_among(e, origin, headers, output),
        forall|e: EntryModel|
            items.contains(e) ==> with_headers(items, origin, headers, output).contains(e),
    decreases headers.len(),
{
    if headers.len() > 0 {
        let front_headers = headers.drop_last();
        let front = with_headers(items, origin, front_headers, output);
        lemma_with_headers_holds(items, origin, front_headers, output);
        let last = headers.last();
        let after = with_headers(items, origin, headers, output);
        if accepts(output, last) {
            lemma_inserted(front, header_entry(origin, last->Some_0));
        }
        assert forall|e: EntryModel|
            #[trigger] holds(after, e) <==> holds(items, e) || found_record(e, origin, headers, output) by {
            let is_last = accepts(output, last) && same_record(
                header_entry(origin, last->Some_0),
                e,
            );
            assert(holds(after, e) <==> holds(front, e) || is_last);
            if found_record(e, origin, front_headers, output) {
                let i = choose|i: int|
                    0 <= i < front_headers.len() && accepts(output, #[trigger] front_headers[i])
                        && same_record(header_entry(origin, front_headers[i]->Some_0), e);
                assert(headers[i] == front_headers[i]);
            }
            if is_last {
                assert(headers[headers.len() - 1] == last);
            }
            if found_record(e, origin, headers, output) {
                let i = choose|i: int|
                    0 <= i < headers.len() && accepts(output, #[trigger] headers[i])
                        && same_record(header_entry(origin, headers[i]->Some_0), e);
                if i < front_headers.len() {
                    assert(front_headers[i] == headers[i]);
                } else {
                    assert(headers[i] == last);
                }
            }
        }
        assert forall|e: EntryModel| #[trigger] after.contains(e) implies items.contains(e)
            || found_among(e, origin, headers, output) by {
            if front.contains(e) {
                if found_among(e, origin, front_headers, output) {
                    let i = choose|i: int|
                        0 <= i < front_headers.len() && accepts(
                            output,
                            #[trigger] front_headers[i],
                        ) && e == header_entry(origin, front_headers[i]->Some_0);
                    assert(headers[i] == front_headers[i]);
                }
            } else {
                assert(headers[headers.len() - 1] == last);
            }
        }
    }
}

/// What a parse reports of one entity at the top of a parsed file, as far as
/// a completion reads it.
pub struct ParsedEntity {
    /// Whether the entity is an include directive.
    pub is_inclusion: bool,
    /// The file that the entity refers to, if it refers to one: its path, or
    /// `None` where the path has no text form.
    pub file: Option<Option<String>>,
}

/// The model of a parsed entity.
pub open spec fn entity_file(entity: ParsedEntity) -> Option<Option<Seq<char>>> {
    match entity.file {
        Some(Some(path)) => Some(Some(path@)),
        Some(None) => Some(None),
        None => None,
    }
}

/// The files of the include directives among the entities, in the order
/// in which they stand, each as often as it is included.
pub open spec fn inclusions(entities: Seq<ParsedEntity>) -> Seq<Option<Seq<char>>>
    decreases entities.len(),
{
    if entities.len() == 0 {
        Seq::empty()
    } else {
        let front = inclusions(entities.drop_last());
        let last = entities.last();
        if last.is_inclusion && last.file is Some {
            front.push(entity_file(last)->Some_0)
        } else {
            front
        }
    }
}

/// The headers that a parsed file includes: the file of every include
/// directive that refers to one, in the order met, with nothing left out
/// for having been met before.
pub fn included_files(entities: &Vec<ParsedEntity>) -> (result: Vec<Option<String>>)
    ensures
        header_texts(result@) == inclusions(entities@),
{
    let mut result: Vec<Option<String>> = Vec::new();
    let mut pos: usize = 0;
    assert(header_texts(result@) =~= Seq::empty());
    while pos < entities.len()
        invariant
            pos <= entities.len(),
            header_texts(result@) == inclusions(entities@.take(pos as int)),
        decreases entities.len() - pos,
    {
        let entity = &entities[pos];
        let ghost before = header_texts(result@);
        assert(entities@.take(pos + 1).drop_last() =~= entities@.take(pos as int));
        assert(entities@.take(pos + 1).last() == *entity);
        if entity.is_inclusion {
            match &entity.file {
                Some(Some(path)) => {
                    result.push(Some(path.clone()));
                    assert(header_texts(result@) =~= before.push(Some(path@)));
                },
                Some(None) => {
                    result.push(None);
                    assert(header_texts(result@) =~= before.push(None));
                },
                None => {},
            }
        }
        pos = pos + 1;
    }
    assert(entities@.take(pos as int) =~= entities@);
    result
}

/// The settings of a completion run: which records are parsed, which
/// headers are kept, and among how many workers the records are divided.
pub struct Context {
    input: GlobPattern,
    output: GlobPattern,
    thread_count: usize,
}

impl Context {
    #[verifier::type_invariant]
    pub closed spec fn has_workers(self) -> bool {
        self.thread_count >= 1
    }

    /// The filter on the files that are parsed.
    pub closed spec fn input_pattern(&self) -> Option<Seq<char>> {
        self.input@
    }

    /// The filter on the headers that are kept.
    pub closed spec fn output_pattern(&self) -> Option<Seq<char>> {
        self.output@
    }

    /// The number of workers.
    pub closed spec fn workers(&self) -> nat {
        self.thread_count as nat
    }

    /// Checks the settings before any work starts. Zero workers are
    /// rejected first, with `Error::ShardCountError`; then a malformed input
    /// pattern, then a malformed output pattern, with `Error::PatternError`.
    pub fn new(
        input_pattern: Option<String>,
        output_pattern: Option<String>,
        thread_count: usize,
    ) -> (result: Result<Self, Error>)
        ensures
            thread_count == 0 ==> result is Err && result->Err_0 is ShardCountError,
            thread_count > 0 && !well_formed(input_pattern) ==> result is Err && result->Err_0 is PatternError,
            thread_count > 0 && !well_formed(output_pattern) ==> result is Err && result->Err_0 is PatternError,
            thread_count > 0 && well_formed(input_pattern) && well_formed(output_pattern) ==> {
                &&& result is Ok
                &&& result->Ok_0.input_pattern() == pattern_text(input_pattern)
                &&& result->Ok_0.output_pattern() == pattern_text(output_pattern)
                &&& result->Ok_0.workers() == thread_count
            },
    {
        if thread_count == 0 {
            return Err(Error::ShardCountError);
        }
        let input = match GlobPattern::new(input_pattern) {
            Ok(pattern) => pattern,
            Err(error) => {
                return Err(error);
            },
        };
        let output = match GlobPattern::new(output_pattern) {
            Ok(pattern) => pattern,
            Err(error) => {
                return Err(error);
            },
        };
        Ok(Context { input, output, thread_count })
    }

    /// The number of workers, which is at least one.
    pub fn thread_count(&self) -> (result: usize)
        ensures
            result == self.workers(),
            result >= 1,
    {
        proof {
            use_type_invariant(self);
        }
        self.thread_count
    }

    /// The work of a run: the table of the database, reduced to the records
    /// whose file passes the input filter, divided into one shard for each
    /// worker.
    pub fn shards(&self, database: CompilationDatabase) -> (result: Vec<CompileCommandsTable>)
        ensures
            views(result@) == shards(
                matching(
                    inserted_all(Seq::empty(), normalized_rows(database@)),
                    self.input_pattern(),
                ),
                self.workers(),
            ),
    {
        proof {
            use_type_invariant(self);
        }
        let table = CompileCommandsTable::from_database(database);
        let selected = table.filter_entries(&self.input);
        selected.split(self.thread_count)
    }

    /// The arguments handed to the parser for `file`: the stored arguments
    /// without the tokens that are the file's own path.
    pub fn arguments_for(file: &str, command: &[String]) -> (result: Vec<String>)
        ensures
            texts(result@) == without_file(texts(command@), file@),
    {
        let mut result: Vec<String> = Vec::new();
        let ghost all = texts(command@);
        let mut pos: usize = 0;
        while pos < command.len()
            invariant
                pos <= command.len(),
                all == texts(command@),
                texts(result@) == without_file(all.take(pos as int), file@),
            decreases command.len() - pos,
        {
            let ghost kept = texts(result@);
            assert(all.take(pos + 1).drop_last() =~= all.take(pos as int));
            if !same_text(command[pos].as_str(), file) {
                result.push(command[pos].clone());
                assert(texts(result@) =~= kept.push(all[pos as int]));
            }
            pos = pos + 1;
        }
        assert(all.take(pos as int) =~= all);
        result
    }

    /// Records in `table` what parsing `origin` gave. After a successful
    /// parse every header that passes the output filter is inserted, with
    /// the directory and arguments of `origin`; a failed parse adds nothing.
    pub fn record(
        &self,
        table: &mut CompileCommandsTable,
        origin: &CompileCommandsTableEntry,
        outcome: &Result<Vec<Option<String>>, Error>,
    )
        ensures
            final(table)@ == with_outcome(
                old(table)@,
                origin@,
                outcome_headers(*outcome),
                self.output_pattern(),
            ),
    {
        match outcome {
            Ok(includes) => {
                let ghost headers = header_texts(includes@);
                let ghost start = table@;
                let mut pos: usize = 0;
                while pos < includes.len()
                    invariant
                        pos <= includes.len(),
                        headers == header_texts(includes@),
                        table@ == with_headers(
                            start,
                            origin@,
                            headers.take(pos as int),
                            self.output_pattern(),
                        ),
                    decreases includes.len() - pos,
                {
                    assert(headers.take(pos + 1).drop_last() =~= headers.take(pos as int));
                    assert(headers.take(pos + 1).last() == headers[pos as int]);
                    match &includes[pos] {
                        Some(path) => {
                            if self.output.matches(Some(path.as_str())) {
                                table.insert(
                                    origin.directory().as_str(),
                                    path.as_str(),
                                    origin.command().as_slice(),
                                );
                            }
                        },
                        None => {},
                    }
                    pos = pos + 1;
                }
                assert(headers.take(pos as int) =~= headers);
            },
            Err(_) => {},
        }
    }

    /// The result of a run: the shards merged into one table, as a database
    /// in writing order.
    pub fn finish(tables: Vec<CompileCommandsTable>) -> (result: CompilationDatabase)
        ensures
            result@ == arranged(merged(views(tables@))),
            strictly_sorted(result@),
            sorted(result@),
            distinct(result@),
            result@.to_set() == merged(views(tables@)).to_set(),
            result@.to_multiset() == merged(views(tables@)).to_multiset(),
    {
        CompileCommandsTable::merge(tables).to_database()
    }
}

/// Whether an optional pattern text is absent or a well-formed glob.
pub open spec fn well_formed(pattern: Option<String>) -> bool {
    match pattern {
        Some(text) => glob_valid(text@),
        None => true,
    }
}

/// The text of an optional pattern.
pub open spec fn pattern_text(pattern: Option<String>) -> Option<Seq<char>> {
    match pattern {
        Some(text) => Some(text@),
        None => None,
    }
}

/// Whether two string slices hold the same text.
fn same_text(left: &str, right: &str) -> (result: bool)
    ensures
        result == (left@ == right@),
{
    let a = left.as_bytes();
    let b = right.as_bytes();
    proof {
        vstd::utf8::encode_utf8_decode_utf8(left@);
        vstd::utf8::encode_utf8_decode_utf8(right@);
    }
    if a.len() != b.len() {
        return false;
    }
    let mut pos: usize = 0;
    while pos < a.len()
        invariant
            pos <= a.len(),
            a.len() == b.len(),
            a@ == vstd::utf8::encode_utf8(left@),
            b@ == vstd::utf8::encode_utf8(right@),
            forall|i: int| 0 <= i < pos ==> a@[i] == b@[i],
        decreases a.len() - pos,
    {
        if a[pos] != b[pos] {
            return false;
        }
        pos = pos + 1;
    }
    assert(a@ =~= b@);
    true
}

/// A shard after the outcomes of its first `done` records were recorded,
/// where `parse` gives the outcome of parsing a record.
pub open spec fn worked(
    items: Seq<EntryModel>,
    parse: spec_fn(EntryModel) -> Option<Seq<Option<Seq<char>>>>,
    output: Option<Seq<char>>,
    done: nat,
) -> Seq<EntryModel>
    decreases done,
{
    if done == 0 || done > items.len() {
        items
    } else {
        with_outcome(
            worked(items, parse, output, (done - 1) as nat),
            items[done - 1],
            parse(items[done - 1]),
            output,
        )
    }
}

/// The shards of a run after every worker recorded the outcome of each
/// record of its shard.
pub open spec fn worked_shards(
    items: Seq<EntryModel>,
    parse: spec_fn(EntryModel) -> Option<Seq<Option<Seq<char>>>>,
    output: Option<Seq<char>>,
    count: nat,
) -> Seq<Seq<EntryModel>> {
    Seq::new(
        count,
        |i: int| worked(shard(items, i as nat, count), parse, output, shard(items, i as nat, count).len()),
    )
}

/// The table that a run with `count` workers ends with.
pub open spec fn completed(
    items: Seq<EntryModel>,
    parse: spec_fn(EntryModel) -> Option<Seq<Option<Seq<char>>>>,
    output: Option<Seq<char>>,
    count: nat,
) -> Seq<EntryModel> {
    merged(worked_shards(items, parse, output, count))
}

/// Whether `entry` stands for a header that passes the output filter and
/// was met while parsing one of the first `done` records of `items`.
pub open spec fn discovered(
    entry: EntryModel,
    items: Seq<EntryModel>,
    parse: spec_fn(EntryModel) -> Option<Seq<Option<Seq<char>>>>,
    output: Option<Seq<char>>,
    done: nat,
) -> bool {
    exists|k: int|
        0 <= k < done && k < items.len() && parse(#[trigger] items[k]) is Some && found_among(
            entry,
            items[k],
            parse(items[k])->Some_0,
            output,
        )
}

/// Whether `entry` is the build record of such a header, however its paths
/// are written.
pub open spec fn discovered_record(
    entry: EntryModel,
    items: Seq<EntryModel>,
    parse: spec_fn(EntryModel) -> Option<Seq<Option<Seq<char>>>>,
    output: Option<Seq<char>>,
    done: nat,
) -> bool {
    exists|k: int|
        0 <= k < done && k < items.len() && parse(#[trigger] items[k]) is Some && found_record(
            entry,
            items[k],
            parse(items[k])->Some_0,
            output,
        )
}

/// A worker's table holds the build records of its shard and of what was
/// discovered from the records it parsed, each once and no others. Every
/// value in it is one of the shard or the record of a discovered header.
pub proof fn lemma_worked_holds(
    items: Seq<EntryModel>,
    parse: spec_fn(EntryModel) -> Option<Seq<Option<Seq<char>>>>,
    output: Option<Seq<char>>,
    done: nat,
)
    requires
        distinct(items),
        done <= items.len(),
    ensures
        distinct(worked(items, parse, output, done)),
        forall|e: EntryModel|
            #[trigger] holds(worked(items, parse, output, done), e) <==> holds(items, e)
                || discovered_record(e, items, parse, output, done),
        forall|e: EntryModel|
            #[trigger] worked(items, parse, output, done).contains(e) ==> items.contains(e)
                || discovered(e, items, parse, output, done),
        forall|e: EntryModel|
            items.contains(e) ==> worked(items, parse, output, done).contains(e),
    decreases done,
{
    if done > 0 {
        let before = (done - 1) as nat;
        let front = worked(items, parse, output, before);
        let origin = items[done - 1];
        let after = worked(items, parse, output, done);
        lemma_worked_holds(items, parse, output, before);
        match parse(origin) {
            Some(headers) => {
                lemma_with_headers_holds(front, origin, headers, output);
            },
            None => {},
        }
        assert forall|e: EntryModel|
            #[trigger] holds(after, e) <==> holds(items, e) || discovered_record(
                e,
                items,
                parse,
                output,
                done,
            ) by {
            let here = parse(origin) is Some && found_record(
                e,
                origin,
                parse(origin)->Some_0,
                output,
            );
            assert(holds(after, e) <==> holds(front, e) || here);
            if discovered_record(e, items, parse, output, before) {
                let k = choose|k: int|
                    0 <= k < before && k < items.len() && parse(#[trigger] items[k]) is Some
                        && found_record(e, items[k], parse(items[k])->Some_0, output);
                assert(0 <= k < done);
            }
            if here {
                assert(items[done - 1] == origin);
            }
            if discovered_record(e, items, parse, output, done) {
                let k = choose|k: int|
                    0 <= k < done && k < items.len() && parse(#[trigger] items[k]) is Some
                        && found_record(e, items[k], parse(items[k])->Some_0, output);
                if k < before {
                    assert(discovered_record(e, items, parse, output, before));
                } else {
                    assert(items[k] == origin);
                }
            }
        }
        assert forall|e: EntryModel| #[trigger] after.contains(e) implies items.contains(e)
            || discovered(e, items, parse, output, done) by {
            if front.contains(e) {
                if discovered(e, items, parse, output, before) {
                    let k = choose|k: int|
                        0 <= k < before && k < items.len() && parse(#[trigger] items[k]) is Some
                            && found_among(e, items[k], parse(items[k])->Some_0, output);
                    assert(0 <= k < done);
                }
            } else {
                assert(items[done - 1] == origin);
            }
        }
    }
}

/// A shard is a run of the table: it holds no build record twice, and
/// what stands in it stands in the table.
pub proof fn lemma_shard_is_part(items: Seq<EntryModel>, count: nat, index: nat)
    requires
        count >= 1,
        index < count,
        distinct(items),
    ensures
        distinct(shard(items, index, count)),
        forall|k: int|
            0 <= k < shard(items, index, count).len() ==> 0 <= shard_start(
                items.len(),
                index,
                count,
            ) + k < items.len() && #[trigger] shard(items, index, count)[k] == items[shard_start(
                items.len(),
                index,
                count,
            ) + k],
{
    lemma_shard_bounds(items.len(), index, count);
    let part = shard(items, index, count);
    let start = shard_start(items.len(), index, count) as int;
    assert forall|a: int, b: int| 0 <= a < b < part.len() implies !same_record(
        #[trigger] part[a],
        #[trigger] part[b],
    ) by {
        assert(part[a] == items[start + a]);
        assert(part[b] == items[start + b]);
    }
}

/// A value stands in the table exactly if it stands in one of the shards.
pub proof fn lemma_shards_cover(items: Seq<EntryModel>, count: nat)
    requires
        count >= 1,
        distinct(items),
    ensures
        forall|e: EntryModel|
            items.contains(e) <==> exists|i: int|
                0 <= i < count && (#[trigger] shard(items, i as nat, count)).contains(e),
{
    let parts = shards(items, count);
    lemma_split_then_merge(items, count);
    lemma_merged_holds(parts);
    assert forall|e: EntryModel|
        items.contains(e) <==> exists|i: int|
            0 <= i < count && (#[trigger] shard(items, i as nat, count)).contains(e) by {
        if items.contains(e) {
            let i = choose|i: int| 0 <= i < parts.len() && (#[trigger] parts[i]).contains(e);
            assert(shard(items, i as nat, count).contains(e));
        }
        if exists|i: int| 0 <= i < count && (#[trigger] shard(items, i as nat, count)).contains(e) {
            let i = choose|i: int|
                0 <= i < count && (#[trigger] shard(items, i as nat, count)).contains(e);
            let part = shard(items, i as nat, count);
            lemma_shard_is_part(items, count, i as nat);
            let k = choose|k: int| 0 <= k < part.len() && part[k] == e;
            assert(items[shard_start(items.len(), i as nat, count) + k] == e);
        }
    }
}

/// What a run ends with: the build records it started from and those of
/// the headers discovered from them, each once, whatever the number of
/// workers. Every value in it is one of the table or the record of a
/// discovered header.
pub proof fn lemma_completed_holds(
    items: Seq<EntryModel>,
    parse: spec_fn(EntryModel) -> Option<Seq<Option<Seq<char>>>>,
    output: Option<Seq<char>>,
    count: nat,
)
    requires
        count >= 1,
        distinct(items),
    ensures
        distinct(completed(items, parse, output, count)),
        forall|e: EntryModel|
            #[trigger] holds(completed(items, parse, output, count), e) <==> holds(items, e)
                || discovered_record(e, items, parse, output, items.len()),
        forall|e: EntryModel|
            #[trigger] completed(items, parse, output, count).contains(e) ==> items.contains(e)
                || discovered(e, items, parse, output, items.len()),
{
    let parts = worked_shards(items, parse, output, count);
    let whole = completed(items, parse, output, count);
    lemma_merged_holds(parts);
    lemma_shards_cover(items, count);
    assert forall|e: EntryModel|
        #[trigger] holds(whole, e) <==> holds(items, e) || discovered_record(
            e,
            items,
            parse,
            output,
            items.len(),
        ) by {
        if holds(whole, e) {
            let i = choose|i: int| 0 <= i < parts.len() && holds(#[trigger] parts[i], e);
            let part = shard(items, i as nat, count);
            let start = shard_start(items.len(), i as nat, count);
            lemma_shard_is_part(items, count, i as nat);
            lemma_worked_holds(part, parse, output, part.len());
            assert(holds(worked(part, parse, output, part.len()), e));
            if holds(part, e) {
                let k = choose|k: int| 0 <= k < part.len() && same_record(#[trigger] part[k], e);
                assert(same_record(items[start + k], e));
            } else {
                let k = choose|k: int|
                    0 <= k < part.len() && k < part.len() && parse(#[trigger] part[k]) is Some
                        && found_record(e, part[k], parse(part[k])->Some_0, output);
                assert(parse(items[start + k]) is Some);
            }
        }
        if holds(items, e) {
            let j = choose|j: int| 0 <= j < items.len() && same_record(#[trigger] items[j], e);
            assert(items.contains(items[j]));
            let i = choose|i: int|
                0 <= i < count && (#[trigger] shard(items, i as nat, count)).contains(items[j]);
            let part = shard(items, i as nat, count);
            lemma_shard_is_part(items, count, i as nat);
            lemma_worked_holds(part, parse, output, part.len());
            let k = choose|k: int| 0 <= k < part.len() && part[k] == items[j];
            assert(same_record(part[k], e));
            assert(holds(parts[i], e));
        }
        if discovered_record(e, items, parse, output, items.len()) {
            let j = choose|j: int|
                0 <= j < items.len() && j < items.len() && parse(#[trigger] items[j]) is Some
                    && found_record(e, items[j], parse(items[j])->Some_0, output);
            assert(items.contains(items[j]));
            let i = choose|i: int|
                0 <= i < count && (#[trigger] shard(items, i as nat, count)).contains(items[j]);
            let part = shard(items, i as nat, count);
            lemma_shard_is_part(items, count, i as nat);
            lemma_worked_holds(part, parse, output, part.len());
            let k = choose|k: int| 0 <= k < part.len() && part[k] == items[j];
            assert(parse(part[k]) is Some);
            assert(discovered_record(e, part, parse, output, part.len()));
            assert(holds(parts[i], e));
        }
    }
    assert forall|e: EntryModel| #[trigger] whole.contains(e) implies items.contains(e)
        || discovered(e, items, parse, output, items.len()) by {
        let i = choose|i: int| 0 <= i < parts.len() && (#[trigger] parts[i]).contains(e);
        let part = shard(items, i as nat, count);
        let start = shard_start(items.len(), i as nat, count);
        lemma_shard_is_part(items, count, i as nat);
        lemma_worked_holds(part, parse, output, part.len());
        assert(worked(part, parse, output, part.len()).contains(e));
        if part.contains(e) {
            assert(shard(items, i as nat, count).contains(e));
        } else {
            let k = choose|k: int|
                0 <= k < part.len() && k < part.len() && parse(#[trigger] part[k]) is Some
                    && found_among(e, part[k], parse(part[k])->Some_0, output);
            assert(parse(items[start + k]) is Some);
        }
    }
}

/// The build records that a run ends with do not depend on the number of
/// workers, and neither does the database written from them: runs with
/// different numbers of workers list the same build records in the same
/// order.
pub proof fn lemma_worker_count_is_immaterial(
    items: Seq<EntryModel>,
    parse: spec_fn(EntryModel) -> Option<Seq<Option<Seq<char>>>>,
    output: Option<Seq<char>>,
    first_count: nat,
    second_count: nat,
    first_database: Seq<EntryModel>,
    second_database: Seq<EntryModel>,
)
    requires
        first_count >= 1,
        second_count >= 1,
        distinct(items),
        sorted(first_database),
        sorted(second_database),
        first_database.to_multiset() == completed(items, parse, output, first_count).to_multiset(),
        second_database.to_multiset() == completed(
            items,
            parse,
            output,
            second_count,
        ).to_multiset(),
    ensures
        forall|e: EntryModel|
            #![trigger holds(completed(items, parse, output, first_count), e)]
            #![trigger holds(completed(items, parse, output, second_count), e)]
            holds(completed(items, parse, output, first_count), e) <==> holds(
                completed(items, parse, output, second_count),
                e,
            ),
        same_rows(first_database, second_database),
{
    lemma_completed_holds(items, parse, output, first_count);
    lemma_completed_holds(items, parse, output, second_count);
    lemma_database_ignores_insertion_order(
        completed(items, parse, output, first_count),
        completed(items, parse, output, second_count),
        first_database,
        second_database,
    );
}

/// Whether no build record that the run can meet is written in two ways:
/// of the records of the table and of the discovered headers, any two that
/// are the same build record are the same value.
pub open spec fn spelled_one_way(
    items: Seq<EntryModel>,
    parse: spec_fn(EntryModel) -> Option<Seq<Option<Seq<char>>>>,
    output: Option<Seq<char>>,
) -> bool {
    forall|a: EntryModel, b: EntryModel|
        (items.contains(a) || discovered(a, items, parse, output, items.len())) && (
        items.contains(b) || discovered(b, items, parse, output, items.len())) && #[trigger] same_record(a, b)
            ==> a == b
}

/// Where no build record is written in two ways, runs with different
/// numbers of workers write the very same database, spelling for
/// spelling.
pub proof fn lemma_same_database_for_any_worker_count(
    items: Seq<EntryModel>,
    parse: spec_fn(EntryModel) -> Option<Seq<Option<Seq<char>>>>,
    output: Option<Seq<char>>,
    first_count: nat,
    second_count: nat,
    first_database: Seq<EntryModel>,
    second_database: Seq<EntryModel>,
)
    requires
        first_count >= 1,
        second_count >= 1,
        distinct(items),
        spelled_one_way(items, parse, output),
        sorted(first_database),
        sorted(second_database),
        first_database.to_multiset() == completed(items, parse, output, first_count).to_multiset(),
        second_database.to_multiset() == completed(
            items,
            parse,
            output,
            second_count,
        ).to_multiset(),
    ensures
        completed(items, parse, output, first_count).to_set() == completed(
            items,
            parse,
            output,
            second_count,
        ).to_set(),
        first_database == second_database,
{
    let first = completed(items, parse, output, first_count);
    let second = completed(items, parse, output, second_count);
    lemma_completed_holds(items, parse, output, first_count);
    lemma_completed_holds(items, parse, output, second_count);
    assert forall|e: EntryModel| first.contains(e) implies second.contains(e) by {
        lemma_known_is_contained(items, parse, output, first, second, e);
    }
    assert forall|e: EntryModel| second.contains(e) implies first.contains(e) by {
        lemma_known_is_contained(items, parse, output, second, first, e);
    }
    assert(first.to_set() =~= second.to_set());
    lemma_database_ignores_insertion_order(first, second, first_database, second_database);
}

/// A value of one run's table stands in the table of any other run that
/// holds the same build records, where none is written in two ways.
proof fn lemma_known_is_contained(
    items: Seq<EntryModel>,
    parse: spec_fn(EntryModel) -> Option<Seq<Option<Seq<char>>>>,
    output: Option<Seq<char>>,
    here: Seq<EntryModel>,
    there: Seq<EntryModel>,
    entry: EntryModel,
)
    requires
        spelled_one_way(items, parse, output),
        here.contains(entry),
        forall|e: EntryModel| #[trigger] holds(here, e) <==> holds(there, e),
        forall|e: EntryModel|
            #[trigger] here.contains(e) ==> items.contains(e) || discovered(
                e,
                items,
                parse,
                output,
                items.len(),
            ),
        forall|e: EntryModel|
            #[trigger] there.contains(e) ==> items.contains(e) || discovered(
                e,
                items,
                parse,
                output,
                items.len(),
            ),
    ensures
        there.contains(entry),
{
    lemma_contained_is_held(here, entry);
    assert(holds(there, entry));
    let i = choose|i: int| 0 <= i < there.len() && same_record(#[trigger] there[i], entry);
    assert(there.contains(there[i]));
    assert(same_record(there[i], entry));
}

} // verus!
