//! One build record of the table, with its compiler arguments normalized.
use vstd::prelude::*;
use vstd::utf8::encode_utf8;

verus! {

/// The mathematical value of a build record: three pieces of text.
pub struct EntryModel {
    pub directory: Seq<char>,
    pub file: Seq<char>,
    pub command: Seq<Seq<char>>,
}

/// The bytes of a path with every backslash read as a slash.
pub open spec fn unified(bytes: Seq<u8>) -> Seq<u8> {
    Seq::new(bytes.len(), |i: int| if bytes[i] == 0x5c { 0x2fu8 } else { bytes[i] })
}

/// Whether two paths are the same once the two separators are no longer
/// told apart: their UTF-8 encodings agree but for backslash and slash.
pub open spec fn paths_agree(left: Seq<char>, right: Seq<char>) -> bool {
    unified(encode_utf8(left)) == unified(encode_utf8(right))
}

/// Whether two records are the same build record: the same arguments, and
/// directory and file the same but for the separator they are written
/// with.
pub open spec fn same_record(left: EntryModel, right: EntryModel) -> bool {
    &&& paths_agree(left.directory, right.directory)
    &&& paths_agree(left.file, right.file)
    &&& left.command == right.command
}

/// Whether two paths are the same but for the separator they are written
/// with.
pub fn same_path(left: &str, right: &str) -> (result: bool)
    ensures
        result == paths_agree(left@, right@),
{
    let a = left.as_bytes();
    let b = right.as_bytes();
    if a.len() != b.len() {
        assert(unified(a@).len() != unified(b@).len());
        return false;
    }
    let mut pos: usize = 0;
    while pos < a.len()
        invariant
            pos <= a.len(),
            a.len() == b.len(),
            a@ == encode_utf8(left@),
            b@ == encode_utf8(right@),
            forall|i: int| 0 <= i < pos ==> unified(a@)[i] == unified(b@)[i],
        decreases a.len() - pos,
    {
        let x: u8 = if a[pos] == 0x5c { 0x2f } else { a[pos] };
        let y: u8 = if b[pos] == 0x5c { 0x2f } else { b[pos] };
        if x != y {
            assert(unified(a@)[pos as int] != unified(b@)[pos as int]);
            return false;
        }
        pos = pos + 1;
    }
    assert(unified(a@) =~= unified(b@));
    true
}

/// The texts of a vector of strings, element by element.
pub open spec fn texts(v: Seq<String>) -> Seq<Seq<char>> {
    Seq::new(v.len(), |i: int| v[i]@)
}

/// The compile-only flag: dropped alone.
pub open spec fn is_compile_flag(arg: Seq<char>) -> bool {
    arg == "-c"@
}

/// The output flag: dropped together with the token that follows it.
pub open spec fn is_output_flag(arg: Seq<char>) -> bool {
    arg == "-o"@
}

/// The argument vector without `-c` and without `-o <output>`, read from left
/// to right. A trailing `-o` with nothing after it is dropped too.
pub open spec fn normalized(command: Seq<Seq<char>>) -> Seq<Seq<char>>
    decreases command.len(),
{
    if command.len() == 0 {
        Seq::empty()
    } else if is_compile_flag(command[0]) {
        normalized(command.skip(1))
    } else if is_output_flag(command[0]) {
        if command.len() == 1 {
            Seq::empty()
        } else {
            normalized(command.skip(2))
        }
    } else {
        seq![command[0]] + normalized(command.skip(1))
    }
}

/// No token of the vector is one of the two flags.
pub open spec fn flag_free(command: Seq<Seq<char>>) -> bool {
    forall|i: int|
        0 <= i < command.len() ==> !is_compile_flag(#[trigger] command[i]) && !is_output_flag(
            command[i],
        )
}

/// What normalization keeps holds neither flag.
pub proof fn lemma_normalized_is_flag_free(command: Seq<Seq<char>>)
    ensures
        flag_free(normalized(command)),
    decreases command.len(),
{
    if command.len() == 0 {
    } else if is_compile_flag(command[0]) {
        lemma_normalized_is_flag_free(command.skip(1));
    } else if is_output_flag(command[0]) {
        if command.len() > 1 {
            lemma_normalized_is_flag_free(command.skip(2));
        }
    } else {
        lemma_normalized_is_flag_free(command.skip(1));
    }
}

/// A vector that holds neither flag is left as it is.
pub proof fn lemma_flag_free_is_fixed(command: Seq<Seq<char>>)
    requires
        flag_free(command),
    ensures
        normalized(command) == command,
    decreases command.len(),
{
    if command.len() > 0 {
        let rest = command.skip(1);
        assert forall|i: int| 0 <= i < rest.len() implies !is_compile_flag(#[trigger] rest[i])
            && !is_output_flag(rest[i]) by {
            assert(rest[i] == command[i + 1]);
        }
        lemma_flag_free_is_fixed(rest);
        assert(seq![command[0]] + rest =~= command);
    }
}

/// Normalization is idempotent: normalizing a normalized argument vector
/// gives the same vector again, whatever the vector.
pub proof fn lemma_normalization_idempotent(command: Seq<Seq<char>>)
    ensures
        normalized(normalized(command)) == normalized(command),
{
    lemma_normalized_is_flag_free(command);
    lemma_flag_free_is_fixed(normalized(command));
}

/// Normalizing one step further: the unprocessed suffix starting at `pos`
/// continues what was kept of the prefix.
proof fn lemma_normalized_step(command: Seq<Seq<char>>, pos: int)
    requires
        0 <= pos < command.len(),
    ensures
        command.skip(pos).skip(1) == command.skip(pos + 1),
        pos + 2 <= command.len() ==> command.skip(pos).skip(2) == command.skip(pos + 2),
        command.skip(pos)[0] == command[pos],
{
    assert(command.skip(pos).skip(1) =~= command.skip(pos + 1));
    if pos + 2 <= command.len() {
        assert(command.skip(pos).skip(2) =~= command.skip(pos + 2));
    }
}

/// Copies a vector of strings, text by text.
pub fn clone_strings(strings: &[String]) -> (result: Vec<String>)
    ensures
        texts(result@) == texts(strings@),
{
    let mut result: Vec<String> = Vec::new();
    let mut pos: usize = 0;
    while pos < strings.len()
        invariant
            pos <= strings.len(),
            result@.len() == pos,
            forall|i: int| 0 <= i < pos ==> result@[i]@ == strings@[i]@,
        decreases strings.len() - pos,
    {
        result.push(strings[pos].clone());
        pos = pos + 1;
    }
    assert(texts(result@) =~= texts(strings@));
    result
}

/// Whether two vectors of strings hold the same texts in the same order.
pub fn same_strings(left: &[String], right: &[String]) -> (result: bool)
    ensures
        result == (texts(left@) == texts(right@)),
{
    if left.len() != right.len() {
        assert(texts(left@).len() != texts(right@).len());
        return false;
    }
    let mut pos: usize = 0;
    while pos < left.len()
        invariant
            pos <= left.len(),
            left.len() == right.len(),
            forall|i: int| 0 <= i < pos ==> left@[i]@ == right@[i]@,
        decreases left.len() - pos,
    {
        if left[pos] != right[pos] {
            assert(texts(left@)[pos as int] != texts(right@)[pos as int]);
            return false;
        }
        pos = pos + 1;
    }
    assert(texts(left@) =~= texts(right@));
    true
}

/// A build record: working directory, file, and normalized argument vector.
#[derive(Debug)]
pub struct CompileCommandsTableEntry {
    directory: String,
    file: String,
    command: Vec<String>,
}

impl View for CompileCommandsTableEntry {
    type V = EntryModel;

    closed spec fn view(&self) -> EntryModel {
        EntryModel { directory: self.directory@, file: self.file@, command: texts(self.command@) }
    }
}

impl Clone for CompileCommandsTableEntry {
    fn clone(&self) -> (result: Self)
        ensures
            result@ == self@,
    {
        proof {
            use_type_invariant(self);
        }
        CompileCommandsTableEntry {
            directory: self.directory.clone(),
            file: self.file.clone(),
            command: clone_strings(self.command.as_slice()),
        }
    }
}

impl CompileCommandsTableEntry {
    /// The stored argument vector is normalized: normalizing it again would
    /// change nothing.
    #[verifier::type_invariant]
    pub closed spec fn settled(self) -> bool {
        normalized(texts(self.command@)) == texts(self.command@)
    }

    /// Builds the record for `file`, compiled in `directory` by `command`,
    /// storing the argument vector without `-c` and `-o <output>`.
    pub fn new(directory: &str, file: &str, command: &[String]) -> (result: Self)
        ensures
            result@ == (EntryModel {
                directory: directory@,
                file: file@,
                command: normalized(texts(command@)),
            }),
    {
        proof {
            lemma_normalization_idempotent(texts(command@));
        }
        CompileCommandsTableEntry {
            directory: directory.to_owned(),
            file: file.to_owned(),
            command: Self::skip_unnecessary_commands(command),
        }
    }

    /// The working directory of the compiler invocation.
    pub fn directory(&self) -> (result: &String)
        ensures
            result@ == self@.directory,
    {
        &self.directory
    }

    /// The file that the record describes.
    pub fn file(&self) -> (result: &String)
        ensures
            result@ == self@.file,
    {
        &self.file
    }

    /// The stored argument vector, which is normalized.
    pub fn command(&self) -> (result: &Vec<String>)
        ensures
            texts(result@) == self@.command,
            normalized(self@.command) == self@.command,
    {
        proof {
            use_type_invariant(self);
        }
        &self.command
    }

    /// The working directory of the compiler invocation.
    pub fn get_directory(&self) -> (result: &String)
        ensures
            result@ == self@.directory,
    {
        &self.directory
    }

    /// The file that the record describes.
    pub fn get_file(&self) -> (result: &String)
        ensures
            result@ == self@.file,
    {
        &self.file
    }

    /// The stored argument vector, which is normalized.
    pub fn get_command(&self) -> (result: &Vec<String>)
        ensures
            texts(result@) == self@.command,
            normalized(self@.command) == self@.command,
    {
        proof {
            use_type_invariant(self);
        }
        &self.command
    }

    /// Whether the two are the same build record: the same arguments, and
    /// directory and file the same but for the separator.
    pub fn same_as(&self, other: &Self) -> (result: bool)
        ensures
            result == same_record(self@, other@),
    {
        same_path(self.directory.as_str(), other.directory.as_str()) && same_path(
            self.file.as_str(),
            other.file.as_str(),
        ) && same_strings(self.command.as_slice(), other.command.as_slice())
    }

    /// Strips `-c`, and `-o` with the token after it, from an argument vector.
    pub fn skip_unnecessary_commands(command: &[String]) -> (result: Vec<String>)
        ensures
            texts(result@) == normalized(texts(command@)),
    {
        let mut result: Vec<String> = Vec::new();
        let mut pos: usize = 0;
        let compile_flag = "-c".to_owned();
        let output_flag = "-o".to_owned();
        let ghost all = texts(command@);
        assert(all.skip(0) =~= all);
        assert(texts(result@) + normalized(all) =~= normalized(all));
        while pos < command.len()
            invariant
                pos <= command.len(),
                all == texts(command@),
                compile_flag@ == "-c"@,
                output_flag@ == "-o"@,
                texts(result@) + normalized(all.skip(pos as int)) == normalized(all),
            decreases command.len() - pos,
        {
            let arg = &command[pos];
            let ghost rest = all.skip(pos as int);
            let ghost kept = texts(result@);
            proof {
                lemma_normalized_step(all, pos as int);
                assert(rest[0] == arg@);
            }
            if *arg == compile_flag {
                pos = pos + 1;
                assert(normalized(rest) == normalized(all.skip(pos as int)));
            } else if *arg == output_flag {
                if command.len() - pos >= 2 {
                    pos = pos + 2;
                    assert(normalized(rest) == normalized(all.skip(pos as int)));
                } else {
                    pos = pos + 1;
                    assert(normalized(rest) =~= Seq::empty());
                    assert(normalized(all.skip(pos as int)) =~= Seq::empty());
                }
            } else {
                result.push(arg.clone());
                pos = pos + 1;
                assert(normalized(rest) == seq![arg@] + normalized(all.skip(pos as int)));
                assert(texts(result@) =~= kept + seq![arg@]);
                assert((kept + seq![arg@]) + normalized(all.skip(pos as int)) =~= kept + (
                seq![arg@] + normalized(all.skip(pos as int))));
            }
        }
        assert(normalized(all.skip(pos as int)) =~= Seq::empty());
        assert(texts(result@) + Seq::<Seq<char>>::empty() =~= texts(result@));
        result
    }
}

} // verus!
