//! The order in which build records are written out: by file, then by
//! argument vector, then by directory. Texts are compared byte by byte in
//! UTF-8, and paths without regard to the separator they are written with,
//! so that no record comes before another spelling of itself.
use core::cmp::Ordering;
use vstd::prelude::*;
use vstd::std_specs::cmp::{PartialEqSpecImpl, PartialOrdSpecImpl};
use vstd::utf8::{encode_utf8, encode_utf8_decode_utf8};
use crate::command_table_entry::{
    paths_agree, same_path, same_record, same_strings, texts, unified, CompileCommandsTableEntry,
    EntryModel,
};

verus! {

/// Lexicographic order on sequences, given an order on their elements: the
/// first position where the two differ decides, and a proper prefix comes
/// first.
pub open spec fn lex_lt<T>(a: Seq<T>, b: Seq<T>, lt: spec_fn(T, T) -> bool) -> bool
    decreases a.len(),
{
    if b.len() == 0 {
        false
    } else if a.len() == 0 {
        true
    } else if a[0] == b[0] {
        lex_lt(a.skip(1), b.skip(1), lt)
    } else {
        lt(a[0], b[0])
    }
}

/// No two values are each before the other.
pub open spec fn asymmetric<T>(lt: spec_fn(T, T) -> bool) -> bool {
    forall|x: T, y: T| !(#[trigger] lt(x, y) && lt(y, x))
}

/// Before is passed along chains.
pub open spec fn transitive<T>(lt: spec_fn(T, T) -> bool) -> bool {
    forall|x: T, y: T, z: T| #[trigger] lt(x, y) && #[trigger] lt(y, z) ==> lt(x, z)
}

/// Of two different values one is before the other.
pub open spec fn connected<T>(lt: spec_fn(T, T) -> bool) -> bool {
    forall|x: T, y: T| x != y ==> #[trigger] lt(x, y) || lt(y, x)
}

/// The lexicographic order is asymmetric where the order of the elements
/// is.
pub proof fn lemma_lex_asymmetric<T>(a: Seq<T>, b: Seq<T>, lt: spec_fn(T, T) -> bool)
    requires
        asymmetric(lt),
    ensures
        !(lex_lt(a, b, lt) && lex_lt(b, a, lt)),
    decreases a.len(),
{
    if a.len() > 0 && b.len() > 0 && a[0] == b[0] {
        lemma_lex_asymmetric(a.skip(1), b.skip(1), lt);
    }
}

/// The lexicographic order is transitive where the order of the elements
/// is asymmetric and transitive.
pub proof fn lemma_lex_transitive<T>(a: Seq<T>, b: Seq<T>, c: Seq<T>, lt: spec_fn(T, T) -> bool)
    requires
        asymmetric(lt),
        transitive(lt),
        lex_lt(a, b, lt),
        lex_lt(b, c, lt),
    ensures
        lex_lt(a, c, lt),
    decreases a.len(),
{
    if a.len() > 0 && b.len() > 0 && c.len() > 0 {
        if a[0] == b[0] && b[0] == c[0] {
            lemma_lex_transitive(a.skip(1), b.skip(1), c.skip(1), lt);
        } else if a[0] != b[0] && b[0] != c[0] {
            assert(lt(a[0], b[0]) && lt(b[0], c[0]));
            assert(lt(a[0], c[0]));
            assert(!(lt(a[0], b[0]) && lt(b[0], a[0])));
        }
    }
}

/// Of two different sequences one is before the other where the same holds
/// of their elements.
pub proof fn lemma_lex_connected<T>(a: Seq<T>, b: Seq<T>, lt: spec_fn(T, T) -> bool)
    requires
        connected(lt),
        a != b,
    ensures
        lex_lt(a, b, lt) || lex_lt(b, a, lt),
    decreases a.len(),
{
    if a.len() > 0 && b.len() > 0 && a[0] == b[0] {
        if a.skip(1) == b.skip(1) {
            assert(a =~= seq![a[0]] + a.skip(1));
            assert(b =~= seq![b[0]] + b.skip(1));
        }
        lemma_lex_connected(a.skip(1), b.skip(1), lt);
    } else if a.len() == 0 && b.len() == 0 {
        assert(a =~= b);
    }
}

/// The order of bytes by value.
pub open spec fn byte_order() -> spec_fn(u8, u8) -> bool {
    |x: u8, y: u8| x < y
}

/// One text before another: their UTF-8 encodings compared byte by byte.
pub open spec fn text_lt(a: Seq<char>, b: Seq<char>) -> bool {
    lex_lt(encode_utf8(a), encode_utf8(b), byte_order())
}

/// The order of texts, as a relation.
pub open spec fn text_order() -> spec_fn(Seq<char>, Seq<char>) -> bool {
    |x: Seq<char>, y: Seq<char>| text_lt(x, y)
}

/// One argument vector before another: text by text.
pub open spec fn texts_lt(a: Seq<Seq<char>>, b: Seq<Seq<char>>) -> bool {
    lex_lt(a, b, text_order())
}

/// One path before another: their UTF-8 encodings compared byte by byte,
/// every backslash read as a slash.
pub open spec fn path_lt(a: Seq<char>, b: Seq<char>) -> bool {
    lex_lt(unified(encode_utf8(a)), unified(encode_utf8(b)), byte_order())
}

/// One record before another: by file, then argument vector, then directory.
pub open spec fn entry_lt(a: EntryModel, b: EntryModel) -> bool {
    ||| path_lt(a.file, b.file)
    ||| paths_agree(a.file, b.file) && texts_lt(a.command, b.command)
    ||| paths_agree(a.file, b.file) && a.command == b.command && path_lt(
        a.directory,
        b.directory,
    )
}

/// The order of texts is a strict total order.
pub proof fn lemma_text_order()
    ensures
        asymmetric(text_order()),
        transitive(text_order()),
        connected(text_order()),
{
    let bytes = byte_order();
    let order = text_order();
    assert(asymmetric(bytes));
    assert(transitive(bytes));
    assert(connected(bytes));
    assert forall|x: Seq<char>, y: Seq<char>| !(#[trigger] order(x, y) && order(y, x)) by {
        lemma_lex_asymmetric(encode_utf8(x), encode_utf8(y), bytes);
    }
    assert forall|x: Seq<char>, y: Seq<char>, z: Seq<char>| #[trigger]
        order(x, y) && #[trigger] order(y, z) implies order(x, z) by {
        lemma_lex_transitive(encode_utf8(x), encode_utf8(y), encode_utf8(z), bytes);
    }
    assert forall|x: Seq<char>, y: Seq<char>| x != y implies #[trigger] order(x, y) || order(
        y,
        x,
    ) by {
        encode_utf8_decode_utf8(x);
        encode_utf8_decode_utf8(y);
        assert(encode_utf8(x) != encode_utf8(y));
        lemma_lex_connected(encode_utf8(x), encode_utf8(y), bytes);
    }
}

/// No two records are each before the other, and none is before another
/// spelling of itself.
pub proof fn lemma_entry_asymmetric(a: EntryModel, b: EntryModel)
    ensures
        !(entry_lt(a, b) && entry_lt(b, a)),
        same_record(a, b) ==> !entry_lt(a, b),
{
    lemma_text_order();
    let bytes = byte_order();
    assert(asymmetric(bytes));
    lemma_lex_asymmetric(unified(encode_utf8(a.file)), unified(encode_utf8(b.file)), bytes);
    lemma_lex_asymmetric(
        unified(encode_utf8(a.directory)),
        unified(encode_utf8(b.directory)),
        bytes,
    );
    lemma_lex_asymmetric(a.command, b.command, text_order());
}

/// A record before a second that is before a third is before the third.
pub proof fn lemma_entry_transitive(a: EntryModel, b: EntryModel, c: EntryModel)
    requires
        entry_lt(a, b),
        entry_lt(b, c),
    ensures
        entry_lt(a, c),
{
    lemma_text_order();
    let bytes = byte_order();
    assert(asymmetric(bytes));
    assert(transitive(bytes));
    if path_lt(a.file, b.file) && path_lt(b.file, c.file) {
        lemma_lex_transitive(
            unified(encode_utf8(a.file)),
            unified(encode_utf8(b.file)),
            unified(encode_utf8(c.file)),
            bytes,
        );
    }
    if path_lt(a.directory, b.directory) && path_lt(b.directory, c.directory) {
        lemma_lex_transitive(
            unified(encode_utf8(a.directory)),
            unified(encode_utf8(b.directory)),
            unified(encode_utf8(c.directory)),
            bytes,
        );
    }
    if texts_lt(a.command, b.command) && texts_lt(b.command, c.command) {
        lemma_lex_transitive(a.command, b.command, c.command, text_order());
    }
}

/// Of two records that are not the same build record one is before the
/// other.
pub proof fn lemma_entry_connected(a: EntryModel, b: EntryModel)
    requires
        !same_record(a, b),
    ensures
        entry_lt(a, b) || entry_lt(b, a),
{
    lemma_text_order();
    let bytes = byte_order();
    assert(connected(bytes));
    if !paths_agree(a.file, b.file) {
        lemma_lex_connected(unified(encode_utf8(a.file)), unified(encode_utf8(b.file)), bytes);
    } else if a.command != b.command {
        lemma_lex_connected(a.command, b.command, text_order());
    } else {
        lemma_lex_connected(
            unified(encode_utf8(a.directory)),
            unified(encode_utf8(b.directory)),
            bytes,
        );
    }
}

/// The order of records does not tell the spellings of a build record
/// apart.
pub proof fn lemma_entry_order_of_same_record(a: EntryModel, b: EntryModel, c: EntryModel)
    requires
        same_record(a, b),
    ensures
        entry_lt(a, c) == entry_lt(b, c),
        entry_lt(c, a) == entry_lt(c, b),
{
}

/// Skipping one more element of two sequences that agree there.
proof fn lemma_lex_step<T>(a: Seq<T>, b: Seq<T>, pos: int, lt: spec_fn(T, T) -> bool)
    requires
        0 <= pos < a.len(),
        pos < b.len(),
    ensures
        a[pos] == b[pos] ==> lex_lt(a.skip(pos), b.skip(pos), lt) == lex_lt(
            a.skip(pos + 1),
            b.skip(pos + 1),
            lt,
        ),
        a[pos] != b[pos] ==> lex_lt(a.skip(pos), b.skip(pos), lt) == lt(a[pos], b[pos]),
{
    assert(a.skip(pos).skip(1) =~= a.skip(pos + 1));
    assert(b.skip(pos).skip(1) =~= b.skip(pos + 1));
}

/// Whether `a` comes before `b` when both are compared as UTF-8 bytes.
pub fn text_less(a: &str, b: &str) -> (result: bool)
    ensures
        result == text_lt(a@, b@),
{
    let x = a.as_bytes();
    let y = b.as_bytes();
    let ghost order = byte_order();
    let mut pos: usize = 0;
    assert(x@.skip(0) =~= x@ && y@.skip(0) =~= y@);
    while pos < x.len() && pos < y.len()
        invariant
            pos <= x.len(),
            pos <= y.len(),
            order == byte_order(),
            x@ == encode_utf8(a@),
            y@ == encode_utf8(b@),
            lex_lt(x@, y@, order) == lex_lt(x@.skip(pos as int), y@.skip(pos as int), order),
        decreases x.len() - pos,
    {
        proof {
            lemma_lex_step(x@, y@, pos as int, order);
        }
        if x[pos] != y[pos] {
            assert(order(x@[pos as int], y@[pos as int]) == (x@[pos as int] < y@[pos as int]));
            return x[pos] < y[pos];
        }
        pos = pos + 1;
    }
    pos < y.len()
}

/// Whether path `a` comes before path `b` when both are compared as UTF-8
/// bytes with every backslash read as a slash.
pub fn path_less(a: &str, b: &str) -> (result: bool)
    ensures
        result == path_lt(a@, b@),
{
    let x = a.as_bytes();
    let y = b.as_bytes();
    let ghost order = byte_order();
    let ghost ux = unified(x@);
    let ghost uy = unified(y@);
    let mut pos: usize = 0;
    assert(ux.skip(0) =~= ux && uy.skip(0) =~= uy);
    while pos < x.len() && pos < y.len()
        invariant
            pos <= x.len(),
            pos <= y.len(),
            order == byte_order(),
            x@ == encode_utf8(a@),
            y@ == encode_utf8(b@),
            ux == unified(x@),
            uy == unified(y@),
            lex_lt(ux, uy, order) == lex_lt(ux.skip(pos as int), uy.skip(pos as int), order),
        decreases x.len() - pos,
    {
        proof {
            lemma_lex_step(ux, uy, pos as int, order);
        }
        let left: u8 = if x[pos] == 0x5c { 0x2f } else { x[pos] };
        let right: u8 = if y[pos] == 0x5c { 0x2f } else { y[pos] };
        if left != right {
            assert(order(ux[pos as int], uy[pos as int]) == (left < right));
            return left < right;
        }
        pos = pos + 1;
    }
    pos < y.len()
}

/// Whether argument vector `a` comes before `b`.
pub fn strings_less(a: &[String], b: &[String]) -> (result: bool)
    ensures
        result == texts_lt(texts(a@), texts(b@)),
{
    let ghost x = texts(a@);
    let ghost y = texts(b@);
    let ghost order = text_order();
    let mut pos: usize = 0;
    assert(x.skip(0) =~= x && y.skip(0) =~= y);
    while pos < a.len() && pos < b.len()
        invariant
            pos <= a.len(),
            pos <= b.len(),
            x == texts(a@),
            y == texts(b@),
            order == text_order(),
            lex_lt(x, y, order) == lex_lt(x.skip(pos as int), y.skip(pos as int), order),
        decreases a.len() - pos,
    {
        proof {
            lemma_lex_step(x, y, pos as int, order);
        }
        if a[pos] != b[pos] {
            assert(order(x[pos as int], y[pos as int]) == text_lt(a@[pos as int]@, b@[pos as int]@));
            return text_less(a[pos].as_str(), b[pos].as_str());
        }
        pos = pos + 1;
    }
    pos < b.len()
}

/// Whether the record of the first three arguments is written before the
/// record of the last three: by file, then by argument vector, then by
/// directory.
pub fn record_less(
    file: &String,
    command: &[String],
    directory: &String,
    other_file: &String,
    other_command: &[String],
    other_directory: &String,
) -> (result: bool)
    ensures
        result == entry_lt(
            EntryModel { directory: directory@, file: file@, command: texts(command@) },
            EntryModel {
                directory: other_directory@,
                file: other_file@,
                command: texts(other_command@),
            },
        ),
{
    proof {
        assert(asymmetric(byte_order()));
        lemma_text_order();
        lemma_lex_asymmetric(
            unified(encode_utf8(file@)),
            unified(encode_utf8(file@)),
            byte_order(),
        );
        lemma_lex_asymmetric(texts(command@), texts(command@), text_order());
    }
    if !same_path(file.as_str(), other_file.as_str()) {
        path_less(file.as_str(), other_file.as_str())
    } else if !same_strings(command, other_command) {
        strings_less(command, other_command)
    } else {
        path_less(directory.as_str(), other_directory.as_str())
    }
}

/// How two records stand in writing order.
pub open spec fn entry_order(left: EntryModel, right: EntryModel) -> Option<Ordering> {
    if entry_lt(left, right) {
        Some(Ordering::Less)
    } else if entry_lt(right, left) {
        Some(Ordering::Greater)
    } else {
        Some(Ordering::Equal)
    }
}

impl PartialEq for CompileCommandsTableEntry {
    /// Records are equal if they are the same build record.
    fn eq(&self, other: &Self) -> (result: bool) {
        self.same_as(other)
    }
}

impl PartialEqSpecImpl for CompileCommandsTableEntry {
    open spec fn obeys_eq_spec() -> bool {
        true
    }

    open spec fn eq_spec(&self, other: &Self) -> bool {
        same_record(self@, other@)
    }
}

impl PartialOrd for CompileCommandsTableEntry {
    /// Records are ordered as they are written: by file, then by argument
    /// vector, then by directory, the spellings of a build record being
    /// equal.
    fn partial_cmp(&self, other: &Self) -> (result: Option<Ordering>) {
        if record_less(
            self.file(),
            self.command().as_slice(),
            self.directory(),
            other.file(),
            other.command().as_slice(),
            other.directory(),
        ) {
            Some(Ordering::Less)
        } else if record_less(
            other.file(),
            other.command().as_slice(),
            other.directory(),
            self.file(),
            self.command().as_slice(),
            self.directory(),
        ) {
            Some(Ordering::Greater)
        } else {
            Some(Ordering::Equal)
        }
    }
}

impl PartialOrdSpecImpl for CompileCommandsTableEntry {
    open spec fn obeys_partial_cmp_spec() -> bool {
        true
    }

    open spec fn partial_cmp_spec(&self, other: &Self) -> Option<Ordering> {
        entry_order(self@, other@)
    }
}

} // verus!
