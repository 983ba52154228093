use cmdy::exec::{command_line, ShellOutcome, ShellTarget};
use cmdy::selector::{
    choose_command, decorated_line_of, plain_key_of, select_and_execute_command,
    strip_ansi_escapes, tag_label, tag_marker_for, PickerKind, SelectError,
};
use cmdy::registry::{load_commands, SourceFile};
use cmdy::types::{CommandDef, CommandSnippet, FileDef};

fn def(description: &str, command: &str, path: &str, tags: &[&str]) -> CommandDef {
    CommandDef {
        description: description.to_string(),
        command: command.to_string(),
        source_file: path.to_string(),
        tags: tags.iter().map(|t| t.to_string()).collect(),
    }
}

fn texts(v: &[&str]) -> Vec<String> {
    v.iter().map(|t| t.to_string()).collect()
}

/// What `head -n1` prints for the lines it is fed.
fn first_line(lines: &[String]) -> String {
    format!("{}\n", lines[0])
}

#[test]
fn test_strip_ansi_escapes() {
    let input = "\x1b[31mHello\x1b[0m World \x1b[1;32m!";
    let expected = "Hello World !";
    assert_eq!(strip_ansi_escapes(input), expected);
}

#[test]
fn strip_keeps_incomplete_sequences() {
    assert_eq!(strip_ansi_escapes("a\x1b[12xb\x1b["), "a\x1b[12xb\x1b[");
    assert_eq!(strip_ansi_escapes("\x1b[m\x1b[;;1m"), "");
    assert_eq!(strip_ansi_escapes(""), "");
}

#[test]
fn smoke_select_and_execute() {
    let cmd1 = def("First", "echo first", "x.toml", &[]);
    let cmd2 = def("Second", "false", "y.toml", &[]);
    let commands = vec![cmd1, cmd2];
    let res = select_and_execute_command(&commands, ".", "head -n1", None, &Vec::new(), false);
    assert!(res.is_ok(), "Expected Ok, got {res:?}");
    let session = res.unwrap();
    assert_eq!(session.plan.program, "head");
    assert_eq!(session.plan.args, texts(&["-n1"]));
    let answer = first_line(&session.plan.lines);
    let chosen = session.plan.resolve(true, &answer).unwrap().unwrap();
    assert_eq!(chosen, 0);
    assert_eq!(session.command_line_for(chosen, &Vec::new(), ShellTarget::Posix), "echo first");
    let done = session.finish(
        chosen,
        ShellOutcome::Exited { success: true, status: "exit status: 0".to_string(), code: Some(0) },
    );
    assert!(done.is_ok());
}

#[test]
fn scenario_greet_and_list() {
    let files = vec![
        SourceFile {
            path: "x.toml".to_string(),
            parsed: Ok(FileDef {
                commands: vec![CommandSnippet {
                    description: "Greet".to_string(),
                    command: "echo hello".to_string(),
                    tags: Vec::new(),
                }],
            }),
        },
        SourceFile {
            path: "y.toml".to_string(),
            parsed: Ok(FileDef {
                commands: vec![CommandSnippet {
                    description: "List".to_string(),
                    command: "ls".to_string(),
                    tags: Vec::new(),
                }],
            }),
        },
    ];
    let loaded = load_commands(&files).unwrap();
    assert_eq!(loaded.registry.len(), 2);
    let commands = loaded.registry.entries().clone();
    let session =
        select_and_execute_command(&commands, ".", "head -n1", None, &Vec::new(), false).unwrap();
    assert_eq!(session.plan.lines, texts(&["Greet", "List"]));
    let chosen = session.plan.resolve(true, &first_line(&session.plan.lines)).unwrap().unwrap();
    assert_eq!(session.commands[chosen].description, "Greet");
    assert_eq!(session.command_line_for(chosen, &Vec::new(), ShellTarget::Posix), "echo hello");
}

#[test]
fn picker_cancel_and_protocol_miss() {
    let commands = vec![def("A", "a", "x.toml", &[])];
    let plan = choose_command(&commands, ".", "fzf", None, &Vec::new()).unwrap();
    assert_eq!(plan.resolve(false, "A\n"), Ok(None));
    assert_eq!(
        plan.resolve(true, "B\n"),
        Err(SelectError::NotFound { key: "B".to_string() })
    );
    assert_eq!(plan.resolve(true, "  A \r\n"), Ok(Some(0)));
}

#[test]
fn no_snippets_and_no_program() {
    let none: Vec<CommandDef> = Vec::new();
    let err = choose_command(&none, "/cfg", "fzf", None, &Vec::new()).unwrap_err();
    assert_eq!(err, SelectError::NoSnippets { looked_in: "/cfg".to_string() });
    assert_eq!(err.message(), "No command snippets defined. Looked in: /cfg");
    let commands = vec![def("A", "a", "x.toml", &[])];
    let err = choose_command(&commands, "/cfg", "  \t ", None, &Vec::new()).unwrap_err();
    assert_eq!(err, SelectError::NoFilterProgram { filter: "  \t ".to_string() });
}

#[test]
fn lines_and_keys_with_tags() {
    let d = def("Clean", "rm -rf /tmp/x", "c.toml", &["dangerous", "fs"]);
    assert_eq!(tag_label(&d.tags, &Vec::new(), "#"), "#dangerous #fs");
    assert_eq!(plain_key_of(&d, &Vec::new(), "#"), "Clean #dangerous #fs");
    assert_eq!(decorated_line_of(&d, &Vec::new(), "#"), "Clean \x1b[33m#dangerous #fs\x1b[0m");
    let excluded = texts(&["dangerous"]);
    assert_eq!(plain_key_of(&d, &excluded, "#"), "Clean #fs");
    let all = texts(&["dangerous", "fs"]);
    assert_eq!(plain_key_of(&d, &all, "#"), "Clean");
    assert_eq!(decorated_line_of(&d, &all, "#"), "Clean");
}

#[test]
fn stripping_a_decorated_line_gives_its_key() {
    let entries = vec![
        def("Clean", "x", "c.toml", &["dangerous", "fs"]),
        def("Plain", "y", "c.toml", &[]),
        def("v2 build", "z", "c.toml", &["v2", ""]),
    ];
    for excluded in [texts(&[]), texts(&["fs"]), texts(&["v2", "dangerous"])] {
        for d in &entries {
            for marker in ["#", "###"] {
                let line = decorated_line_of(d, &excluded, marker);
                assert_eq!(strip_ansi_escapes(&line), plain_key_of(d, &excluded, marker));
            }
        }
    }
}

#[test]
fn picked_decorated_line_resolves_to_its_entry() {
    let commands = vec![
        def("A", "a", "x.toml", &["t1"]),
        def("B", "b", "x.toml", &["t2", "t3"]),
    ];
    let plan = choose_command(&commands, ".", "fzf", None, &Vec::new()).unwrap();
    let answer = format!("{}\n", plan.lines[1]);
    assert_eq!(plan.resolve(true, &answer), Ok(Some(1)));
}

#[test]
fn fzf_gets_query_and_header() {
    let commands = vec![def("A", "a", "x.toml", &["git", "dangerous"])];
    let excluded = texts(&["git", "fs"]);
    let plan = choose_command(
        &commands,
        ".",
        "fzf --ansi  --layout=reverse",
        Some("deploy"),
        &excluded,
    )
    .unwrap();
    assert_eq!(plan.program, "fzf");
    assert_eq!(
        plan.args,
        texts(&[
            "--ansi",
            "--layout=reverse",
            "--query",
            "deploy",
            "--header",
            "#git #fs",
            "--header-first"
        ])
    );
    assert_eq!(plan.lines, texts(&["A \x1b[33m#dangerous\x1b[0m"]));
    assert_eq!(plan.keys, texts(&["A #dangerous"]));
}

#[test]
fn gum_filter_gets_query_only() {
    let commands = vec![def("A", "a", "x.toml", &[])];
    let plan =
        choose_command(&commands, ".", "gum filter", Some("q"), &texts(&["t"])).unwrap();
    assert_eq!(plan.program, "gum");
    assert_eq!(plan.args, texts(&["filter", "--filter", "q"]));
    let plan = choose_command(&commands, ".", "gum choose", Some("q"), &Vec::new()).unwrap();
    assert_eq!(plan.args, texts(&["choose"]));
    let plan = choose_command(&commands, ".", "sk --ansi", Some("q"), &texts(&["t"])).unwrap();
    assert_eq!(plan.program, "sk");
    assert_eq!(plan.args, texts(&["--ansi"]));
}

#[test]
fn picker_kinds() {
    assert_eq!(PickerKind::of(&"fzf".to_string(), &Vec::new()), PickerKind::Fzf);
    assert_eq!(PickerKind::of(&"gum".to_string(), &texts(&["filter"])), PickerKind::GumFilter);
    assert_eq!(PickerKind::of(&"gum".to_string(), &Vec::new()), PickerKind::Plain);
    assert_eq!(PickerKind::of(&"peco".to_string(), &Vec::new()), PickerKind::Plain);
}

#[test]
fn trailing_arguments_are_escaped() {
    let d = def("Greet", "echo", "x.toml", &[]);
    let args = texts(&["a b", "", "it's", "plain-1.txt"]);
    assert_eq!(command_line(&d, &args, ShellTarget::Posix), "echo 'a b' '' 'it'\\''s' plain-1.txt");
    assert_eq!(
        command_line(&d, &args, ShellTarget::Windows),
        "echo \"a b\" \"\" it's plain-1.txt"
    );
}

#[test]
fn colliding_plain_keys_get_a_longer_marker() {
    let commands = vec![def("a #b", "echo 0", "x.toml", &[]), def("a", "echo 1", "x.toml", &["b"])];
    assert_eq!(tag_marker_for(&commands), "##");
    let plan = choose_command(&commands, ".", "fzf", None, &Vec::new()).unwrap();
    assert_eq!(plan.lines, texts(&["a #b", "a \x1b[33m##b\x1b[0m"]));
    assert_eq!(plan.keys, texts(&["a #b", "a ##b"]));
    for i in 0..2 {
        let answer = format!("{}\n", plan.lines[i]);
        assert_eq!(plan.resolve(true, &answer), Ok(Some(i)));
    }
    let session =
        select_and_execute_command(&commands, ".", "head -n1", None, &Vec::new(), false).unwrap();
    let chosen = session.plan.resolve(true, &first_line(&session.plan.lines)).unwrap().unwrap();
    assert_eq!(session.command_line_for(chosen, &Vec::new(), ShellTarget::Posix), "echo 0");
}

#[test]
fn marker_grows_past_the_longest_hash_run() {
    assert_eq!(tag_marker_for(&vec![def("plain", "x", "x.toml", &[])]), "#");
    assert_eq!(tag_marker_for(&vec![def("a ## b #", "x", "x.toml", &[]), def("#c", "y", "x.toml", &[])]), "###");
}

#[test]
fn shared_key_is_ambiguous_not_guessed() {
    let commands = vec![def("x", "echo 0", "a.toml", &[]), def("x", "echo 1", "b.toml", &[])];
    let plan = choose_command(&commands, ".", "fzf", None, &Vec::new()).unwrap();
    let err = plan.resolve(true, "x\n").unwrap_err();
    assert_eq!(err, SelectError::Ambiguous { key: "x".to_string() });
    assert_eq!(err.message(), "Selected command 'x' matches several snippets");
}

#[test]
fn answers_are_looked_up_among_plain_keys() {
    let commands = vec![def(" A", "echo 0", "a.toml", &[]), def("A", "echo 1", "b.toml", &[])];
    let plan = choose_command(&commands, ".", "fzf", None, &Vec::new()).unwrap();
    assert_eq!(plan.keys, texts(&[" A", "A"]));
    assert_eq!(plan.resolve(true, "A\n"), Ok(Some(1)));
    assert_eq!(plan.resolve(true, " A\n"), Ok(Some(1)));
    let lone = vec![def(" A", "echo 0", "a.toml", &[])];
    let plan = choose_command(&lone, ".", "fzf", None, &Vec::new()).unwrap();
    assert_eq!(
        plan.resolve(true, " A\n"),
        Err(SelectError::NotFound { key: "A".to_string() })
    );
}
