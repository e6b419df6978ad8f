use header_completer::command_table::CompileCommandsTable;
use header_completer::command_table_entry::CompileCommandsTableEntry;
use header_completer::compilation_database::{CompilationDatabase, CompilationDatabaseEntry};
use header_completer::context::{included_files, Context, ParsedEntity};
use header_completer::error::Error;
use header_completer::progress::Progress;

type Row = (String, String, Vec<String>);

fn strings(items: &[&str]) -> Vec<String> {
    items.iter().map(|s| s.to_string()).collect()
}

fn row(directory: &str, file: &str, command: &[&str]) -> Row {
    (directory.to_string(), file.to_string(), strings(command))
}

fn database(rows: &[Row]) -> CompilationDatabase {
    CompilationDatabase {
        entries: rows
            .iter()
            .map(|(d, f, c)| CompilationDatabaseEntry::new(d, f, c))
            .collect(),
    }
}

fn rows_of(database: &CompilationDatabase) -> Vec<Row> {
    database
        .entries()
        .iter()
        .map(|e| (e.directory.clone(), e.file.clone(), e.command.clone()))
        .collect()
}

fn main_cpp() -> Row {
    row(
        "/b",
        "/src/main.cpp",
        &["clang++", "-c", "/src/main.cpp", "-o", "main.o", "-I/src"],
    )
}

/// Stands in for the parser: two headers for main.cpp, one for other
/// sources, a failure for any file whose name holds "broken".
fn parse(file: &str, _arguments: &[String]) -> Result<Vec<Option<String>>, Error> {
    if file.contains("broken") {
        Err(Error::ParseError(format!("cannot parse {}", file)))
    } else if file.ends_with("main.cpp") {
        Ok(vec![Some("/src/a.h".to_string()), Some("/src/b.h".to_string())])
    } else if file.ends_with(".cpp") {
        let stem = file.trim_end_matches(".cpp");
        Ok(vec![Some(format!("{}.h", stem)), Some("/src/a.h".to_string())])
    } else {
        Ok(vec![])
    }
}

fn complete(
    rows: &[Row],
    input: Option<&str>,
    output: Option<&str>,
    workers: usize,
) -> Result<Vec<Row>, Error> {
    let context = Context::new(
        input.map(|s| s.to_string()),
        output.map(|s| s.to_string()),
        workers,
    )?;
    let mut done = Vec::new();
    for mut shard in context.shards(database(rows)) {
        let origins: Vec<CompileCommandsTableEntry> = shard.entries().clone();
        for origin in &origins {
            let arguments = Context::arguments_for(origin.file(), origin.command());
            assert!(!arguments.contains(origin.file()));
            let outcome = parse(origin.file(), &arguments);
            context.record(&mut shard, origin, &outcome);
        }
        done.push(shard);
    }
    Ok(rows_of(&Context::finish(done)))
}

#[test]
fn completes_one_entry_with_its_headers() {
    let result = complete(&[main_cpp()], None, None, 1).unwrap();
    let command = ["clang++", "/src/main.cpp", "-I/src"];
    assert_eq!(
        result,
        vec![
            row("/b", "/src/a.h", &command),
            row("/b", "/src/b.h", &command),
            row("/b", "/src/main.cpp", &command),
        ]
    );
}

#[test]
fn output_pattern_drops_other_headers() {
    let result = complete(&[main_cpp()], None, Some("*/a.h"), 1).unwrap();
    let command = ["clang++", "/src/main.cpp", "-I/src"];
    assert_eq!(
        result,
        vec![
            row("/b", "/src/a.h", &command),
            row("/b", "/src/main.cpp", &command),
        ]
    );
}

#[test]
fn input_pattern_selects_what_is_parsed() {
    let rows = [
        row("/b", "/src/one.cpp", &["cc", "/src/one.cpp"]),
        row("/b", "/lib/two.cpp", &["cc", "/lib/two.cpp"]),
    ];
    let result = complete(&rows, Some("/src/*"), None, 1).unwrap();
    assert_eq!(
        result,
        vec![
            row("/b", "/src/a.h", &["cc", "/src/one.cpp"]),
            row("/b", "/src/one.cpp", &["cc", "/src/one.cpp"]),
            row("/b", "/src/one.h", &["cc", "/src/one.cpp"]),
        ]
    );
}

#[test]
fn a_failed_parse_is_skipped() {
    let rows = [
        row("/b", "/src/one.cpp", &["cc", "/src/one.cpp"]),
        row("/b", "/src/broken.cpp", &["cc", "/src/broken.cpp"]),
        row("/b", "/src/three.cpp", &["cc", "/src/three.cpp"]),
    ];
    let result = complete(&rows, None, None, 1).unwrap();
    let files: Vec<(&str, &str)> = result
        .iter()
        .map(|(_, f, c)| (f.as_str(), c[1].as_str()))
        .collect();
    assert_eq!(
        files,
        vec![
            ("/src/a.h", "/src/one.cpp"),
            ("/src/a.h", "/src/three.cpp"),
            ("/src/broken.cpp", "/src/broken.cpp"),
            ("/src/one.cpp", "/src/one.cpp"),
            ("/src/one.h", "/src/one.cpp"),
            ("/src/three.cpp", "/src/three.cpp"),
            ("/src/three.h", "/src/three.cpp"),
        ]
    );
    assert!(result.iter().all(|(_, f, _)| f != "/src/broken.h"));
}

#[test]
fn worker_count_does_not_change_the_result() {
    let rows = [
        row("/b", "/src/e.cpp", &["cc", "-c", "/src/e.cpp"]),
        row("/b", "/src/main.cpp", &["cc", "/src/main.cpp", "-o", "main.o"]),
        row("/b", "/src/c.cpp", &["cc", "/src/c.cpp"]),
        row("/b", "/src/broken.cpp", &["cc", "/src/broken.cpp"]),
        row("/b", "/src/d.cpp", &["cc", "/src/d.cpp"]),
    ];
    let single = complete(&rows, None, None, 1).unwrap();
    assert_eq!(single.len(), 5 + 2 + 3 + 3);
    for workers in 2..8 {
        assert_eq!(complete(&rows, None, None, workers).unwrap(), single);
    }
}

#[test]
fn zero_workers_are_rejected() {
    assert!(matches!(
        Context::new(None, None, 0),
        Err(Error::ShardCountError)
    ));
    assert!(matches!(
        Context::new(Some("a**b".to_string()), None, 0),
        Err(Error::ShardCountError)
    ));
    assert_eq!(Context::new(None, None, 3).unwrap().thread_count(), 3);
}

#[test]
fn malformed_patterns_are_rejected() {
    assert!(matches!(
        Context::new(Some("a**b".to_string()), None, 1),
        Err(Error::PatternError(_))
    ));
    assert!(matches!(
        Context::new(None, Some("abc[def".to_string()), 1),
        Err(Error::PatternError(_))
    ));
    assert!(Context::new(Some("**/*.cpp".to_string()), Some("*.h".to_string()), 1).is_ok());
}

#[test]
fn parser_arguments_leave_out_the_file() {
    let command = strings(&["clang++", "/src/main.cpp", "-I/src", "/src/main.cpp"]);
    assert_eq!(
        Context::arguments_for("/src/main.cpp", &command),
        strings(&["clang++", "-I/src"])
    );
    assert_eq!(Context::arguments_for("/src/other.cpp", &command), command);
    assert_eq!(Context::arguments_for("x", &[]), Vec::<String>::new());
}

#[test]
fn a_header_without_text_is_never_recorded() {
    let context = Context::new(None, None, 1).unwrap();
    let mut table = CompileCommandsTable::from_database(database(&[main_cpp()]));
    let origin = table.entries()[0].clone();
    let outcome = Ok(vec![None, Some("/src/a.h".to_string()), None]);
    context.record(&mut table, &origin, &outcome);
    assert_eq!(table.len(), 2);
    assert_eq!(table.entries()[1].file(), "/src/a.h");
    assert_eq!(table.entries()[1].directory(), "/b");
    assert_eq!(table.entries()[1].command(), origin.command());
}

#[test]
fn a_failed_outcome_leaves_the_table_unchanged() {
    let context = Context::new(None, None, 1).unwrap();
    let mut table = CompileCommandsTable::from_database(database(&[main_cpp()]));
    let origin = table.entries()[0].clone();
    let outcome = Err(Error::ParseError("crash".to_string()));
    context.record(&mut table, &origin, &outcome);
    assert_eq!(table.len(), 1);
}

#[test]
fn progress_counts_up_to_the_total() {
    let mut progress = Progress::new(2);
    assert_eq!((progress.done(), progress.total()), (0, 2));
    assert_eq!(progress.advance(), 1);
    assert_eq!(progress.advance(), 2);
    assert_eq!(progress.advance(), 2);
    assert_eq!((progress.done(), progress.total()), (2, 2));
    let mut none = Progress::new(0);
    assert_eq!(none.advance(), 0);
}

#[test]
fn included_files_are_those_of_the_include_directives() {
    let entity = |is_inclusion: bool, file: Option<Option<&str>>| ParsedEntity {
        is_inclusion,
        file: file.map(|path| path.map(|text| text.to_string())),
    };
    let entities = vec![
        entity(true, Some(Some("/src/a.h"))),
        entity(false, Some(Some("/src/main.cpp"))),
        entity(true, None),
        entity(true, Some(None)),
        entity(true, Some(Some("/src/b.h"))),
        entity(false, None),
        entity(true, Some(Some("/src/a.h"))),
    ];
    assert_eq!(
        included_files(&entities),
        vec![
            Some("/src/a.h".to_string()),
            None,
            Some("/src/b.h".to_string()),
            Some("/src/a.h".to_string()),
        ]
    );
    assert_eq!(included_files(&vec![]), Vec::<Option<String>>::new());
}

#[test]
fn a_header_that_the_table_holds_in_another_spelling_is_not_added() {
    let context = Context::new(None, None, 1).unwrap();
    let rows = [
        row("/b", "/src/main.cpp", &["cc", "/src/main.cpp"]),
        row("/b", "\\src\\a.h", &["cc", "/src/main.cpp"]),
    ];
    let mut table = CompileCommandsTable::from_database(database(&rows));
    let origin = table.entries()[0].clone();
    let outcome = parse(origin.file(), origin.command());
    context.record(&mut table, &origin, &outcome);
    let files: Vec<&str> = table.entries().iter().map(|e| e.file().as_str()).collect();
    assert_eq!(files, vec!["/src/main.cpp", "\\src\\a.h", "/src/b.h"]);
}
