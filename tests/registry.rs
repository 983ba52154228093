use cmdy::registry::{
    get_scan_dirs, is_source_file_name, load_commands, load_directories, filter_by_tags,
    DuplicateError, Loaded, SourceFile,
};
use cmdy::types::{CommandDef, CommandSnippet, FileDef};

fn snippet(description: &str, command: &str, tags: &[&str]) -> CommandSnippet {
    CommandSnippet {
        description: description.to_string(),
        command: command.to_string(),
        tags: tags.iter().map(|t| t.to_string()).collect(),
    }
}

fn parsed(path: &str, commands: Vec<CommandSnippet>) -> SourceFile {
    SourceFile { path: path.to_string(), parsed: Ok(FileDef { commands }) }
}

fn unparsable(path: &str, reason: &str) -> SourceFile {
    SourceFile { path: path.to_string(), parsed: Err(reason.to_string()) }
}

fn def(description: &str, tags: &[&str]) -> CommandDef {
    CommandDef {
        description: description.to_string(),
        command: format!("echo {description}"),
        source_file: "x.toml".to_string(),
        tags: tags.iter().map(|t| t.to_string()).collect(),
    }
}

fn duplicate(r: Result<Loaded, DuplicateError>) -> DuplicateError {
    match r {
        Err(e) => e,
        Ok(_) => panic!("expected a duplicate description"),
    }
}

fn descriptions(defs: &[CommandDef]) -> Vec<String> {
    defs.iter().map(|d| d.description.clone()).collect()
}

#[test]
fn with_dir_flag_only_primary() {
    let primary = "/only".to_string();
    let cli_dir = Some(primary.clone());
    let extras = vec!["/a".to_string(), "/b".to_string()];
    let dirs = get_scan_dirs(&cli_dir, &primary, &extras);
    assert_eq!(dirs, vec![primary]);
}

#[test]
fn without_dir_flag_includes_extras() {
    let primary = "/base".to_string();
    let cli_dir: Option<String> = None;
    let extras = vec!["/a".to_string(), "/b".to_string()];
    let dirs = get_scan_dirs(&cli_dir, &primary, &extras);
    let expected = vec!["/base".to_string(), "/a".to_string(), "/b".to_string()];
    assert_eq!(dirs, expected);
}

#[test]
fn test_load_commands_success_multiple_files_and_snippets() {
    let files = vec![
        parsed("commands1.toml", vec![snippet("A", "echo A", &[]), snippet("B", "echo B", &[])]),
        parsed("commands2.toml", vec![snippet("C", "echo C", &[])]),
    ];
    let commands = load_commands(&files).unwrap().registry;
    assert_eq!(commands.len(), 3);
    assert!(commands.contains_key("A"));
    assert!(commands.contains_key("B"));
    assert!(commands.contains_key("C"));
}

#[test]
fn test_load_commands_invalid_toml_syntax_warning() {
    let files = vec![
        unparsable("bad.toml", "expected `=`"),
        parsed("good.toml", vec![snippet("OK", "echo ok", &[])]),
    ];
    let loaded = load_commands(&files).unwrap();
    assert_eq!(loaded.registry.len(), 1);
    assert!(loaded.registry.contains_key("OK"));
    assert_eq!(
        loaded.warnings,
        vec!["Warning: Failed to parse TOML from file: bad.toml. Error: expected `=`".to_string()]
    );
}

#[test]
fn test_load_commands_duplicate_names() {
    let files = vec![
        parsed("one.toml", vec![snippet("X", "echo 1", &[])]),
        parsed("two.toml", vec![snippet("X", "echo 2", &[])]),
    ];
    let err = duplicate(load_commands(&files));
    let msg = err.message();
    assert!(msg.contains("Duplicate command snippet name 'X'"), "error message was: {}", msg);
}

#[test]
fn duplicate_message_names_both_files() {
    let files = vec![
        parsed("one.toml", vec![snippet("X", "echo 1", &[])]),
        parsed("two.toml", vec![snippet("X", "echo 2", &[])]),
    ];
    let err = duplicate(load_commands(&files));
    assert_eq!(
        err.message(),
        "Duplicate command snippet name 'X' found.\n  Defined in: two.toml\n  Also defined in: one.toml"
    );
    let reversed = vec![
        parsed("two.toml", vec![snippet("X", "echo 2", &[])]),
        parsed("one.toml", vec![snippet("X", "echo 1", &[])]),
    ];
    let err = duplicate(load_commands(&reversed));
    assert_eq!(err.description, "X");
    assert_eq!(err.defined_in, "one.toml");
    assert_eq!(err.also_defined_in, "two.toml");
}

#[test]
fn duplicate_within_one_file_is_fatal() {
    let files = vec![parsed("one.toml", vec![snippet("X", "a", &[]), snippet("X", "b", &[])])];
    let err = duplicate(load_commands(&files));
    assert_eq!(err.defined_in, "one.toml");
    assert_eq!(err.also_defined_in, "one.toml");
}

#[test]
fn duplicate_across_directories_is_fatal() {
    let dirs = vec![
        vec![parsed("/p/a.toml", vec![snippet("X", "a", &[])])],
        vec![parsed("/e/b.toml", vec![snippet("Y", "b", &[]), snippet("X", "c", &[])])],
    ];
    let err = duplicate(load_directories(&dirs));
    assert_eq!(err.description, "X");
    assert_eq!(err.defined_in, "/e/b.toml");
    assert_eq!(err.also_defined_in, "/p/a.toml");
}

#[test]
fn descriptions_differing_in_case_or_space_are_distinct() {
    let files = vec![parsed(
        "a.toml",
        vec![snippet("x", "1", &[]), snippet("X", "2", &[]), snippet("x ", "3", &[])],
    )];
    let loaded = load_commands(&files).unwrap();
    assert_eq!(loaded.registry.len(), 3);
}

#[test]
fn loading_is_independent_of_listing_order() {
    let first = vec![
        parsed("a.toml", vec![snippet("Zeta", "z", &[]), snippet("Alpha", "a", &[])]),
        parsed("b.toml", vec![snippet("Mid", "m", &["t"])]),
    ];
    let second = vec![
        parsed("b.toml", vec![snippet("Mid", "m", &["t"])]),
        parsed("a.toml", vec![snippet("Zeta", "z", &[]), snippet("Alpha", "a", &[])]),
    ];
    let r1 = load_commands(&first).unwrap().registry;
    let r2 = load_commands(&second).unwrap().registry;
    assert_eq!(descriptions(r1.entries()), vec!["Alpha", "Mid", "Zeta"]);
    assert_eq!(descriptions(r1.entries()), descriptions(r2.entries()));
    let again = load_commands(&first).unwrap().registry;
    assert_eq!(descriptions(again.entries()), descriptions(r1.entries()));
}

#[test]
fn malformed_file_does_not_block_other_directories() {
    let dirs = vec![
        vec![unparsable("/p/bad.toml", "unknown field `x`"), parsed("/p/ok.toml", vec![snippet("A", "a", &[])])],
        vec![parsed("/e/more.toml", vec![snippet("B", "b", &[])]), unparsable("/e/worse.toml", "eof")],
    ];
    let loaded = load_directories(&dirs).unwrap();
    assert_eq!(descriptions(loaded.registry.entries()), vec!["A", "B"]);
    assert_eq!(loaded.warnings.len(), 2);
    assert!(loaded.warnings[1].contains("/e/worse.toml"));
}

#[test]
fn entries_come_in_code_point_order() {
    let files = vec![parsed(
        "a.toml",
        vec![snippet("b", "1", &[]), snippet("B", "2", &[]), snippet("é", "3", &[]), snippet("a", "4", &[])],
    )];
    let loaded = load_commands(&files).unwrap();
    assert_eq!(descriptions(loaded.registry.entries()), vec!["B", "a", "b", "é"]);
    assert_eq!(loaded.registry.entries()[0].source_file, "a.toml");
    assert_eq!(loaded.registry.entries()[0].command, "2");
}

#[test]
fn empty_directory_loads_empty_registry() {
    let loaded = load_commands(&Vec::new()).unwrap();
    assert_eq!(loaded.registry.len(), 0);
    assert!(loaded.warnings.is_empty());
    let none = load_directories(&Vec::new()).unwrap();
    assert_eq!(none.registry.len(), 0);
}

#[test]
fn tag_filter_keeps_entries_with_any_listed_tag() {
    let commands = vec![
        def("a", &["x"]),
        def("b", &["y", "z"]),
        def("c", &[]),
        def("d", &["z", "x"]),
    ];
    let wanted = vec!["x".to_string(), "y".to_string()];
    let kept = filter_by_tags(&commands, &wanted);
    assert_eq!(descriptions(&kept), vec!["a", "b", "d"]);
    let none = filter_by_tags(&commands, &vec!["w".to_string()]);
    assert!(none.is_empty());
}

#[test]
fn only_toml_files_are_sources() {
    assert!(is_source_file_name("commands.toml"));
    assert!(is_source_file_name("a.toml"));
    assert!(is_source_file_name("x.y.toml"));
    assert!(!is_source_file_name(".toml"));
    assert!(!is_source_file_name("commands.TOML"));
    assert!(!is_source_file_name("commands.toml.bak"));
    assert!(!is_source_file_name("toml"));
}

#[test]
fn scenario_duplicate_description_in_two_files() {
    let files = vec![
        parsed("/cfg/first.toml", vec![snippet("X", "echo 1", &[])]),
        parsed("/cfg/second.toml", vec![snippet("X", "echo 2", &[])]),
    ];
    let msg = duplicate(load_commands(&files)).message();
    assert!(msg.contains("Duplicate command snippet name 'X'"));
    assert!(msg.contains("/cfg/first.toml"));
    assert!(msg.contains("/cfg/second.toml"));
}

#[test]
fn file_with_empty_description_is_skipped_with_a_warning() {
    let files = vec![
        parsed("bad.toml", vec![snippet("ok", "echo 1", &[]), snippet("", "echo 2", &[])]),
        parsed("good.toml", vec![snippet("B", "echo b", &[])]),
    ];
    let loaded = load_commands(&files).unwrap();
    assert_eq!(descriptions(loaded.registry.entries()), vec!["B"]);
    assert!(!loaded.registry.contains_key(""));
    assert_eq!(
        loaded.warnings,
        vec!["Warning: Failed to parse TOML from file: bad.toml. Error: a snippet has an empty description"
            .to_string()]
    );
}
