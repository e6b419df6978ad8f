use header_completer::command_table::CompileCommandsTable;
use header_completer::command_table_entry::{same_path, CompileCommandsTableEntry};
use header_completer::compilation_database::{
    command_from_fields, split_command, CompilationDatabase, CompilationDatabaseEntry,
};
use std::cmp::Ordering;
use header_completer::glob_pattern::GlobPattern;
use header_completer::error::Error;
use header_completer::order::{path_less, strings_less, text_less};
use header_completer::ordered_hash_set::OrderedHashSet;

fn words(items: &[&str]) -> Vec<String> {
    items.iter().map(|s| s.to_string()).collect()
}

fn table_of(files: &[&str]) -> CompileCommandsTable {
    let mut table = CompileCommandsTable::from_database(CompilationDatabase { entries: vec![] });
    for file in files {
        table.insert("/b", file, &words(&["cc", file]));
    }
    table
}

fn files_of(table: &CompileCommandsTable) -> Vec<String> {
    table.entries().iter().map(|e| e.file().clone()).collect()
}

#[test]
fn normalization_drops_compile_and_output_flags() {
    let command = words(&["clang++", "-c", "/src/main.cpp", "-o", "main.o", "-I/src"]);
    assert_eq!(
        CompileCommandsTableEntry::skip_unnecessary_commands(&command),
        words(&["clang++", "/src/main.cpp", "-I/src"])
    );
}

#[test]
fn normalization_edge_cases() {
    let skip = |items: &[&str]| CompileCommandsTableEntry::skip_unnecessary_commands(&words(items));
    assert_eq!(skip(&[]), Vec::<String>::new());
    assert_eq!(skip(&["-c"]), Vec::<String>::new());
    assert_eq!(skip(&["-o"]), Vec::<String>::new());
    assert_eq!(skip(&["cc", "-o"]), words(&["cc"]));
    assert_eq!(skip(&["-o", "-c", "x"]), words(&["x"]));
    assert_eq!(skip(&["-o", "-o", "-o"]), Vec::<String>::new());
    assert_eq!(skip(&["-c", "-c", "a", "-c"]), words(&["a"]));
    assert_eq!(skip(&["-O2", "-co", "--c", "b"]), words(&["-O2", "-co", "--c", "b"]));
}

#[test]
fn normalization_is_idempotent() {
    let samples: [&[&str]; 5] = [
        &["cc", "-c", "a.c", "-o", "a.o"],
        &["-o", "-c", "-o", "x", "y"],
        &["-c", "-o"],
        &["cc", "a.c"],
        &[],
    ];
    for sample in samples {
        let once = CompileCommandsTableEntry::skip_unnecessary_commands(&words(sample));
        let twice = CompileCommandsTableEntry::skip_unnecessary_commands(&once);
        assert_eq!(once, twice);
    }
}

#[test]
fn entry_keeps_paths_and_normalizes_arguments() {
    let entry = CompileCommandsTableEntry::new("/b", "/src/a.c", &words(&["cc", "-c", "a.c"]));
    assert_eq!(entry.directory(), "/b");
    assert_eq!(entry.file(), "/src/a.c");
    assert_eq!(entry.command(), &words(&["cc", "a.c"]));
    assert_eq!(entry.get_directory(), "/b");
    assert_eq!(entry.get_file(), "/src/a.c");
    assert_eq!(entry.get_command(), &words(&["cc", "a.c"]));
    let copy = entry.clone();
    assert!(copy.same_as(&entry));
    let other = CompileCommandsTableEntry::new("/b", "/src/a.c", &words(&["cc", "a.c", "-g"]));
    assert!(!other.same_as(&entry));
}

#[test]
fn inserting_twice_holds_once() {
    let mut table = table_of(&[]);
    assert_eq!(table.len(), 0);
    table.insert("/b", "/src/a.c", &words(&["cc", "-c", "/src/a.c"]));
    table.insert("/b", "/src/a.c", &words(&["cc", "-c", "/src/a.c"]));
    assert_eq!(table.len(), 1);
    table.insert("/b", "/src/a.c", &words(&["cc", "/src/a.c", "-o", "a.o"]));
    assert_eq!(table.len(), 1);
    table.insert("/other", "/src/a.c", &words(&["cc", "/src/a.c"]));
    assert_eq!(table.len(), 2);
}

#[test]
fn ordered_set_reports_what_it_added() {
    let mut set = OrderedHashSet::new();
    let first = CompileCommandsTableEntry::new("/b", "x.c", &words(&["cc", "x.c"]));
    let second = CompileCommandsTableEntry::new("/b", "y.c", &words(&["cc", "y.c"]));
    assert!(!set.contains(&first));
    assert!(set.insert(first.clone()));
    assert!(!set.insert(first.clone()));
    assert!(set.insert(second.clone()));
    assert_eq!(set.len(), 2);
    assert!(set.get(0).same_as(&first));
    assert!(set.get(1).same_as(&second));
    assert!(set.contains(&second));
    assert_eq!(set.values().len(), 2);
}

#[test]
fn table_of_a_database_collapses_equal_rows() {
    let rows = vec![
        CompilationDatabaseEntry::new("/b", "a.c", &words(&["cc", "-c", "a.c"])),
        CompilationDatabaseEntry::new("/b", "b.c", &words(&["cc", "b.c"])),
        CompilationDatabaseEntry::new("/b", "a.c", &words(&["cc", "a.c", "-o", "a.o"])),
    ];
    let table = CompileCommandsTable::from_database(CompilationDatabase { entries: rows });
    assert_eq!(files_of(&table), words(&["a.c", "b.c"]));
    assert_eq!(table.entries()[0].command(), &words(&["cc", "a.c"]));
}

#[test]
fn split_gives_even_contiguous_shards() {
    let files = ["a", "b", "c", "d", "e", "f", "g"];
    let sizes = |n: usize| -> Vec<usize> {
        table_of(&files).split(n).iter().map(|t| t.len()).collect()
    };
    assert_eq!(sizes(1), vec![7]);
    assert_eq!(sizes(2), vec![3, 4]);
    assert_eq!(sizes(3), vec![2, 2, 3]);
    assert_eq!(sizes(7), vec![1; 7]);
    assert_eq!(sizes(9), vec![0, 1, 1, 1, 0, 1, 1, 1, 1]);
    let shards = table_of(&files).split(3);
    assert_eq!(files_of(&shards[0]), words(&["a", "b"]));
    assert_eq!(files_of(&shards[1]), words(&["c", "d"]));
    assert_eq!(files_of(&shards[2]), words(&["e", "f", "g"]));
}

#[test]
fn merging_the_shards_gives_the_table_back() {
    let files = ["a", "b", "c", "d", "e"];
    for n in 1..8 {
        let shards = table_of(&files).split(n);
        assert_eq!(shards.len(), n);
        let smallest = shards.iter().map(|t| t.len()).min().unwrap();
        let largest = shards.iter().map(|t| t.len()).max().unwrap();
        assert!(largest - smallest <= 1);
        let merged = CompileCommandsTable::merge(shards);
        assert_eq!(files_of(&merged), words(&files));
    }
}

#[test]
fn merge_collapses_records_held_by_several_tables() {
    let merged = CompileCommandsTable::merge(vec![
        table_of(&["a", "b"]),
        table_of(&[]),
        table_of(&["b", "c", "a"]),
    ]);
    assert_eq!(files_of(&merged), words(&["a", "b", "c"]));
    assert_eq!(CompileCommandsTable::merge(vec![]).len(), 0);
}

#[test]
fn database_is_sorted_whatever_the_insertion_order() {
    let mut first = table_of(&[]);
    first.insert("/z", "b.c", &words(&["cc", "b.c"]));
    first.insert("/b", "a.c", &words(&["cc", "a.c", "-g"]));
    first.insert("/c", "a.c", &words(&["cc", "a.c"]));
    first.insert("/a", "a.c", &words(&["cc", "a.c", "-g"]));
    let mut second = table_of(&[]);
    second.insert("/a", "a.c", &words(&["cc", "a.c", "-g"]));
    second.insert("/c", "a.c", &words(&["cc", "a.c"]));
    second.insert("/z", "b.c", &words(&["cc", "b.c"]));
    second.insert("/b", "a.c", &words(&["cc", "a.c", "-g"]));
    let list = |table: &CompileCommandsTable| -> Vec<(String, Vec<String>, String)> {
        table
            .to_database()
            .entries()
            .iter()
            .map(|e| (e.file.clone(), e.command.clone(), e.directory.clone()))
            .collect()
    };
    let expected = vec![
        ("a.c".to_string(), words(&["cc", "a.c"]), "/c".to_string()),
        ("a.c".to_string(), words(&["cc", "a.c", "-g"]), "/a".to_string()),
        ("a.c".to_string(), words(&["cc", "a.c", "-g"]), "/b".to_string()),
        ("b.c".to_string(), words(&["cc", "b.c"]), "/z".to_string()),
    ];
    assert_eq!(list(&first), expected);
    assert_eq!(list(&second), expected);
}

#[test]
fn new_database_sorts_and_keeps_equal_rows() {
    let rows = vec![
        CompilationDatabaseEntry::new("/b", "b.c", &words(&["cc"])),
        CompilationDatabaseEntry::new("/b", "a.c", &words(&["cc", "-c"])),
        CompilationDatabaseEntry::new("/b", "b.c", &words(&["cc"])),
    ];
    let database = CompilationDatabase::new(rows);
    let files: Vec<&str> = database.entries().iter().map(|e| e.file.as_str()).collect();
    assert_eq!(files, vec!["a.c", "b.c", "b.c"]);
    assert_eq!(database.entries()[0].command, words(&["cc", "-c"]));
}

#[test]
fn texts_are_ordered_by_their_bytes() {
    assert!(text_less("a", "b"));
    assert!(!text_less("b", "a"));
    assert!(!text_less("a", "a"));
    assert!(text_less("", "a"));
    assert!(!text_less("", ""));
    assert!(text_less("ab", "abc"));
    assert!(text_less("Z", "a"));
    assert!(text_less("z", "\u{e9}"));
    assert!(text_less("\u{e9}", "\u{4e2d}"));
    assert!(strings_less(&words(&["a"]), &words(&["a", "b"])));
    assert!(strings_less(&words(&["a", "b"]), &words(&["b"])));
    assert!(!strings_less(&words(&["a", "b"]), &words(&["a", "b"])));
    assert!(!strings_less(&words(&[]), &words(&[])));
}

#[test]
fn rows_are_ordered_by_file_then_command_then_directory() {
    let entry = |d: &str, f: &str, c: &[&str]| CompilationDatabaseEntry::new(d, f, &words(c));
    assert!(entry("/z", "a.c", &["z"]).precedes(&entry("/a", "b.c", &["a"])));
    assert!(!entry("/a", "b.c", &["a"]).precedes(&entry("/z", "a.c", &["z"])));
    assert!(entry("/z", "a.c", &["a"]).precedes(&entry("/a", "a.c", &["b"])));
    assert!(entry("/a", "a.c", &["a"]).precedes(&entry("/b", "a.c", &["a"])));
    assert!(!entry("/a", "a.c", &["a"]).precedes(&entry("/a", "a.c", &["a"])));
}

#[test]
fn filter_keeps_matching_files_in_order() {
    let table = table_of(&["/src/a.cpp", "/lib/b.cpp", "/src/c.h", "/src/d.cpp"]);
    let pattern = GlobPattern::new(Some("/src/*.cpp".to_string())).unwrap();
    assert_eq!(
        files_of(&table.filter_entries(&pattern)),
        words(&["/src/a.cpp", "/src/d.cpp"])
    );
    let table = table_of(&["/src/a.cpp", "/lib/b.cpp"]);
    let everything = GlobPattern::new(None).unwrap();
    assert_eq!(
        files_of(&table.filter_entries(&everything)),
        words(&["/src/a.cpp", "/lib/b.cpp"])
    );
}

#[test]
fn pattern_matches_as_a_glob() {
    let pattern = GlobPattern::new(Some("*/a.h".to_string())).unwrap();
    assert!(pattern.matches(Some("/src/a.h")));
    assert!(!pattern.matches(Some("/src/b.h")));
    assert!(!pattern.matches(Some("*/a.h.")));
    assert!(!pattern.matches(None));
    let literal = GlobPattern::new(Some("c?t".to_string())).unwrap();
    assert!(literal.matches(Some("cat")));
    assert!(!literal.matches(Some("c?t?")));
    let copy = literal.clone();
    assert!(copy.matches(Some("cut")));
}

#[test]
fn absent_pattern_matches_every_path_that_has_a_text() {
    let pattern = GlobPattern::new(None).unwrap();
    assert!(pattern.matches(Some("/anything")));
    assert!(pattern.matches(Some("")));
    assert!(!pattern.matches(None));
}

#[test]
fn malformed_pattern_is_an_error() {
    assert!(matches!(
        GlobPattern::new(Some("a**b".to_string())),
        Err(Error::PatternError(_))
    ));
    assert!(matches!(
        GlobPattern::new(Some("abc[def".to_string())),
        Err(Error::PatternError(_))
    ));
    assert!(matches!(
        GlobPattern::new(Some("a/*****".to_string())),
        Err(Error::PatternError(_))
    ));
    assert!(GlobPattern::new(Some("a/**/b".to_string())).is_ok());
}

#[test]
fn command_line_is_cut_at_white_space() {
    assert_eq!(split_command("cc -c a.c"), words(&["cc", "-c", "a.c"]));
    assert_eq!(split_command("cc"), words(&["cc"]));
    assert_eq!(split_command(""), words(&[""]));
    assert_eq!(split_command("a  b"), words(&["a", "", "b"]));
    assert_eq!(split_command(" a "), words(&["", "a", ""]));
    assert_eq!(split_command("a\tb c\nd"), words(&["a", "b", "c", "d"]));
    assert_eq!(split_command("a\u{a0}b\u{3000}c\u{2003}"), words(&["a", "b", "c", ""]));
    assert_eq!(split_command("a\u{200b}b"), words(&["a\u{200b}b"]));
    assert_eq!(
        split_command("cc -DN=\u{e9}t\u{e9} \u{4e2d}.c"),
        words(&["cc", "-DN=\u{e9}t\u{e9}", "\u{4e2d}.c"])
    );
}

#[test]
fn row_takes_its_arguments_from_exactly_one_field() {
    assert_eq!(
        command_from_fields(Some(words(&["cc", "a b.c"])), None).unwrap(),
        words(&["cc", "a b.c"])
    );
    assert_eq!(
        command_from_fields(None, Some("cc -c a.c".to_string())).unwrap(),
        words(&["cc", "-c", "a.c"])
    );
    assert!(matches!(
        command_from_fields(None, None),
        Err(Error::MissingCommandField)
    ));
    assert!(matches!(
        command_from_fields(Some(words(&["cc"])), Some("cc".to_string())),
        Err(Error::MissingCommandField)
    ));
}

#[test]
fn rows_are_equal_whatever_the_separator() {
    let entry = |d: &str, f: &str, c: &[&str]| CompilationDatabaseEntry::new(d, f, &words(c));
    assert!(entry("C:\\b", "C:\\src\\a.c", &["cc"]) == entry("C:/b", "C:/src/a.c", &["cc"]));
    assert!(entry("/b", "/src/a.c", &["cc"]) == entry("/b", "/src/a.c", &["cc"]));
    assert!(entry("/b", "/src/a.c", &["cc"]) != entry("/b", "/src/b.c", &["cc"]));
    assert!(entry("/b", "/src/a.c", &["cc"]) != entry("/c", "/src/a.c", &["cc"]));
    assert!(entry("/b", "/src/a.c", &["cc"]) != entry("/b", "/src/a.c", &["cc", "-g"]));
    assert!(entry("/b", "a.c", &["a\\b"]) != entry("/b", "a.c", &["a/b"]));
    assert!(same_path("a\\b/c", "a/b\\c"));
    assert!(!same_path("a/b", "a/b/"));
    assert!(same_path("", ""));
}

#[test]
fn rows_and_records_compare_in_writing_order() {
    let row = |d: &str, f: &str, c: &[&str]| CompilationDatabaseEntry::new(d, f, &words(c));
    assert_eq!(
        row("/z", "a.c", &["z"]).partial_cmp(&row("/a", "b.c", &["a"])),
        Some(Ordering::Less)
    );
    assert_eq!(
        row("/a", "a.c", &["b"]).partial_cmp(&row("/z", "a.c", &["a", "b"])),
        Some(Ordering::Greater)
    );
    assert_eq!(
        row("/a", "a.c", &["b"]).partial_cmp(&row("/a", "a.c", &["b"])),
        Some(Ordering::Equal)
    );
    assert!(row("/a", "a.c", &["b"]) < row("/b", "a.c", &["b"]));
    let record = |d: &str, f: &str, c: &[&str]| CompileCommandsTableEntry::new(d, f, &words(c));
    assert!(record("/a", "a.c", &["cc", "-c"]) == record("/a", "a.c", &["cc"]));
    assert!(record("/a", "a.c", &["cc"]) < record("/a", "a.c", &["cc", "-g"]));
    assert_eq!(
        record("/b", "a.c", &["cc"]).partial_cmp(&record("/a", "a.c", &["cc"])),
        Some(Ordering::Greater)
    );
}

#[test]
fn ordered_set_from_a_list_keeps_first_occurrences() {
    let record = |f: &str| CompileCommandsTableEntry::new("/b", f, &words(&["cc"]));
    let mut set = OrderedHashSet::from_iter(vec![record("b"), record("a"), record("b")]);
    assert_eq!(set.len(), 2);
    assert_eq!(set.get(0).file(), "b");
    assert_eq!(set.get(1).file(), "a");
    set.extend(vec![record("a"), record("c"), record("c")]);
    let files: Vec<&str> = set.values().iter().map(|e| e.file().as_str()).collect();
    assert_eq!(files, vec!["b", "a", "c"]);
}

#[test]
fn a_record_written_with_the_other_separator_is_held_once() {
    let mut table = table_of(&[]);
    table.insert("C:\\build", "C:\\src\\a.h", &words(&["cl", "-c", "a.cpp"]));
    table.insert("C:/build", "C:/src/a.h", &words(&["cl", "a.cpp"]));
    table.insert("C:/build", "C:\\src/a.h", &words(&["cl", "a.cpp", "-o", "a.obj"]));
    assert_eq!(table.len(), 1);
    assert_eq!(table.entries()[0].file(), "C:\\src\\a.h");
    assert_eq!(table.entries()[0].directory(), "C:\\build");
    table.insert("C:/build", "C:/src/a.h", &words(&["cl", "a\\b.cpp"]));
    table.insert("C:/build", "C:/src/a.h", &words(&["cl", "a/b.cpp"]));
    assert_eq!(table.len(), 3);
    let first = CompileCommandsTableEntry::new("/b", "x\\y", &words(&["cc"]));
    let second = CompileCommandsTableEntry::new("/b", "x/y", &words(&["cc"]));
    assert!(first.same_as(&second));
    assert!(first == second);
    let mut set = OrderedHashSet::new();
    assert!(set.insert(first));
    assert!(set.contains(&second));
    assert!(!set.insert(second));
}

#[test]
fn databases_compare_row_by_row() {
    let entry = |d: &str, f: &str, c: &[&str]| CompilationDatabaseEntry::new(d, f, &words(c));
    let first = CompilationDatabase {
        entries: vec![entry("/b", "a.c", &["cc"]), entry("/b", "d\\b.c", &["cc"])],
    };
    let second = CompilationDatabase {
        entries: vec![entry("/b", "a.c", &["cc"]), entry("/b", "d/b.c", &["cc"])],
    };
    let shorter = CompilationDatabase { entries: vec![entry("/b", "a.c", &["cc"])] };
    let other = CompilationDatabase {
        entries: vec![entry("/b", "a.c", &["cc"]), entry("/b", "c.c", &["cc"])],
    };
    assert!(first == second);
    assert!(first == first.clone());
    assert!(first != shorter);
    assert!(first != other);
    assert_eq!(first.clone().entries[1].file, "d\\b.c");
}

#[test]
fn paths_are_ordered_without_regard_to_the_separator() {
    assert!(path_less("a/b", "a\\c"));
    assert!(path_less("a\\b", "a/c"));
    assert!(!path_less("a\\b", "a/b"));
    assert!(!path_less("a/b", "a\\b"));
    assert!(path_less("a", "a\\"));
    assert!(text_less("a/b", "a\\b"));
    let row = |d: &str, f: &str, c: &[&str]| CompilationDatabaseEntry::new(d, f, &words(c));
    assert!(row("/z", "src\\a.c", &["cc"]).precedes(&row("/a", "src/b.c", &["cc"])));
    assert!(!row("/b", "src\\a.c", &["cc"]).precedes(&row("/b", "src/a.c", &["cc"])));
    assert_eq!(
        row("/b", "src\\a.c", &["cc"]).partial_cmp(&row("/b", "src/a.c", &["cc"])),
        Some(Ordering::Equal)
    );
    let sorted = CompilationDatabase::new(vec![
        row("/b", "src\\z.c", &["cc"]),
        row("/b", "src/m.c", &["cc"]),
        row("/b", "src\\a.c", &["cc"]),
    ]);
    let files: Vec<&str> = sorted.entries().iter().map(|e| e.file.as_str()).collect();
    assert_eq!(files, vec!["src\\a.c", "src/m.c", "src\\z.c"]);
    let kept = CompilationDatabase::new(vec![
        row("/b", "src/z.c", &["cc"]),
        row("/b", "src\\a.c", &["cc"]),
        row("/b", "src/a.c", &["cc"]),
        row("\\b", "src/a.c", &["cc"]),
    ]);
    let spellings: Vec<(&str, &str)> = kept
        .entries()
        .iter()
        .map(|e| (e.directory.as_str(), e.file.as_str()))
        .collect();
    assert_eq!(
        spellings,
        vec![("/b", "src\\a.c"), ("/b", "src/a.c"), ("\\b", "src/a.c"), ("/b", "src/z.c")]
    );
}

#[test]
fn sorting_agrees_with_sorting_by_unified_keys() {
    let names = ["a", "b", "a/b", "a\\b", "a/c", "ab", "\u{e9}", "z", ""];
    let mut rows = Vec::new();
    let mut seed: usize = 7;
    for _ in 0..60 {
        seed = (seed * 31 + 11) % 1009;
        let file = names[seed % names.len()];
        let directory = names[(seed / 9) % names.len()];
        let command = words(&[names[(seed / 81) % 3], names[(seed / 3) % 2]]);
        rows.push(CompilationDatabaseEntry::new(directory, file, &command));
    }
    let key = |e: &CompilationDatabaseEntry| {
        (
            e.file.replace('\\', "/").into_bytes(),
            e.command.clone(),
            e.directory.replace('\\', "/").into_bytes(),
        )
    };
    let mut expected: Vec<CompilationDatabaseEntry> = rows.clone();
    expected.sort_by(|a, b| key(a).cmp(&key(b)));
    let sorted = CompilationDatabase::new(rows);
    assert_eq!(sorted.entries().len(), 60);
    for (got, want) in sorted.entries().iter().zip(expected.iter()) {
        assert_eq!(
            (&got.directory, &got.file, &got.command),
            (&want.directory, &want.file, &want.command)
        );
    }
}

#[test]
fn table_of_many_rows_splits_and_merges_back() {
    let mut table = table_of(&[]);
    for i in 0..37 {
        table.insert("/b", &format!("/src/f{}.c", i % 29), &words(&["cc", "-c"]));
    }
    assert_eq!(table.len(), 29);
    let before = files_of(&table);
    for n in [1, 2, 5, 28, 29, 30, 64] {
        let shards = table.clone().split(n);
        assert_eq!(shards.len(), n);
        for (i, shard) in shards.iter().enumerate() {
            assert_eq!(shard.len(), 29 * (i + 1) / n - 29 * i / n);
        }
        assert_eq!(files_of(&CompileCommandsTable::merge(shards)), before);
    }
}
