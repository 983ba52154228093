//! The execution layer: the command line of a chosen snippet with its
//! trailing arguments escaped for the host shell, the shell-history entry,
//! and what the shell's exit status means for the run.

use vstd::prelude::*;
use crate::text::{chars_of, decimal, decimal_digits, ends_with_text, has_suffix, is_white_space, is_white_space_char, push_char};
use crate::selector::Session;
use crate::types::{CommandDef, texts};

verus! {

/// The shell that runs command lines.
#[derive(Debug, Clone, Copy, PartialEq, Eq, Structural)]
pub enum ShellTarget {
    /// A Bourne-compatible shell: `sh -c <line>`.
    Posix,
    /// The Windows command shell: `cmd /C <line>`.
    Windows,
}

/// Characters that a POSIX shell reads literally outside quotes, anywhere
/// in a word.
pub open spec fn is_plain_char(c: char) -> bool {
    ('a' <= c && c <= 'z') || ('A' <= c && c <= 'Z') || ('0' <= c && c <= '9') || c == '-' || c
        == '_' || c == '.' || c == '/' || c == ',' || c == ':' || c == '+' || c == '@' || c == '%'
}

fn plain_char(c: char) -> (r: bool)
    ensures
        r == is_plain_char(c),
{
    ('a' <= c && c <= 'z') || ('A' <= c && c <= 'Z') || ('0' <= c && c <= '9') || c == '-' || c
        == '_' || c == '.' || c == '/' || c == ',' || c == ':' || c == '+' || c == '@' || c == '%'
}

/// Whether every character of `s` is plain.
pub open spec fn all_plain(s: Seq<char>) -> bool {
    forall|i: int| 0 <= i < s.len() ==> is_plain_char(#[trigger] s[i])
}

/// The inside of a single-quoted POSIX word for `s`, closing quote included:
/// each `'` becomes `'\''` (close, escaped quote, reopen).
pub open spec fn quoted_body(s: Seq<char>) -> Seq<char>
    decreases s.len(),
{
    if s.len() == 0 {
        seq!['\'']
    } else if s[0] == '\'' {
        seq!['\'', '\\', '\'', '\''] + quoted_body(s.drop_first())
    } else {
        seq![s[0]] + quoted_body(s.drop_first())
    }
}

/// The POSIX shell word for the argument `a`: `a` itself when it is not
/// empty and all plain, else `a` in single quotes.
pub open spec fn posix_escaped(a: Seq<char>) -> Seq<char> {
    if a.len() > 0 && all_plain(a) {
        a
    } else {
        seq!['\''] + quoted_body(a)
    }
}

/// Whether the Windows command shell needs `a` quoted.
pub open spec fn needs_cmd_quotes(a: Seq<char>) -> bool {
    a.len() == 0 || exists|i: int| 0 <= i < a.len() && (is_white_space(a[i]) || a[i] == '"')
}

/// `s` with each `"` doubled.
pub open spec fn doubled_quotes(s: Seq<char>) -> Seq<char>
    decreases s.len(),
{
    if s.len() == 0 {
        s
    } else if s[0] == '"' {
        seq!['"', '"'] + doubled_quotes(s.drop_first())
    } else {
        seq![s[0]] + doubled_quotes(s.drop_first())
    }
}

/// The Windows command-shell word for `a`: in double quotes, with inner
/// double quotes doubled, when it is empty or holds white space or a quote.
pub open spec fn cmd_escaped(a: Seq<char>) -> Seq<char> {
    if needs_cmd_quotes(a) {
        seq!['"'] + doubled_quotes(a) + seq!['"']
    } else {
        a
    }
}

/// The word for `a` on `target`.
pub open spec fn escaped(a: Seq<char>, target: ShellTarget) -> Seq<char> {
    match target {
        ShellTarget::Posix => posix_escaped(a),
        ShellTarget::Windows => cmd_escaped(a),
    }
}

/// The command line: the snippet's command, then a space and the escaped
/// word of each trailing argument.
pub open spec fn command_text(command: Seq<char>, args: Seq<Seq<char>>, target: ShellTarget) -> Seq<char>
    decreases args.len(),
{
    if args.len() == 0 {
        command
    } else {
        command_text(command, args.drop_last(), target) + seq![' '] + escaped(args.last(), target)
    }
}

/// `c` in front of the word `w`, if there is one.
pub open spec fn prepend(c: char, w: Option<Seq<char>>) -> Option<Seq<char>> {
    match w {
        Some(t) => Some(seq![c] + t),
        None => None,
    }
}

/// The value of the rest `s` of a POSIX shell word, read outside quotes:
/// plain characters stand for themselves, a backslash keeps the next
/// character (but a newline) literal, and a single quote opens a quoted
/// part. `None` when `s` holds anything else, which would end the word or be
/// expanded.
pub open spec fn read_unquoted(s: Seq<char>) -> Option<Seq<char>>
    decreases s.len(),
{
    if s.len() == 0 {
        Some(Seq::empty())
    } else if s[0] == '\'' {
        read_quoted(s.drop_first())
    } else if s[0] == '\\' && s.len() >= 2 && s[1] != '\n' {
        prepend(s[1], read_unquoted(s.skip(2)))
    } else if is_plain_char(s[0]) {
        prepend(s[0], read_unquoted(s.drop_first()))
    } else {
        None
    }
}

/// The value of the rest `s` of a POSIX shell word, read inside single
/// quotes: every character is literal up to the closing quote.
pub open spec fn read_quoted(s: Seq<char>) -> Option<Seq<char>>
    decreases s.len(),
{
    if s.len() == 0 {
        None
    } else if s[0] == '\'' {
        read_unquoted(s.drop_first())
    } else {
        prepend(s[0], read_quoted(s.drop_first()))
    }
}

/// The value of `s` read by a POSIX shell as one word, or `None` when it is
/// not one word of that form.
pub open spec fn shell_word(s: Seq<char>) -> Option<Seq<char>> {
    if s.len() == 0 {
        None
    } else {
        read_unquoted(s)
    }
}

proof fn lemma_read_plain(a: Seq<char>)
    requires
        all_plain(a),
    ensures
        read_unquoted(a) == Some(a),
    decreases a.len(),
{
    if a.len() > 0 {
        assert(is_plain_char(a[0]));
        assert(all_plain(a.drop_first()));
        lemma_read_plain(a.drop_first());
        assert(seq![a[0]] + a.drop_first() =~= a);
    }
}

proof fn lemma_read_quoted_body(a: Seq<char>)
    ensures
        read_quoted(quoted_body(a)) == Some(a),
    decreases a.len(),
{
    let q = quoted_body(a);
    if a.len() == 0 {
        assert(q[0] == '\'');
        assert(q.drop_first() =~= Seq::<char>::empty());
        assert(read_quoted(q) == read_unquoted(q.drop_first()));
        assert(a =~= Seq::<char>::empty());
    } else {
        let rest = a.drop_first();
        lemma_read_quoted_body(rest);
        let t = quoted_body(rest);
        if a[0] == '\'' {
            let u = q.drop_first();
            assert(u =~= seq!['\\', '\'', '\''] + t);
            assert(u.skip(2) =~= seq!['\''] + t);
            assert((seq!['\''] + t).drop_first() =~= t);
            assert(read_unquoted(seq!['\''] + t) == read_quoted(t));
            assert(read_unquoted(u) == prepend('\'', read_unquoted(u.skip(2))));
            assert(read_quoted(q) == read_unquoted(u));
        } else {
            assert(q.drop_first() =~= t);
            assert(read_quoted(q) == prepend(a[0], read_quoted(t)));
        }
        assert(seq![a[0]] + rest =~= a);
    }
}

/// Escaping then reading back: the word that `escape_posix` gives for any
/// argument (empty, with spaces, with quotes of either kind) is read by a
/// POSIX shell as exactly one word whose value is the argument.
pub proof fn lemma_posix_word(a: Seq<char>)
    ensures
        shell_word(posix_escaped(a)) == Some(a),
{
    if a.len() > 0 && all_plain(a) {
        lemma_read_plain(a);
    } else {
        lemma_read_quoted_body(a);
        assert((seq!['\''] + quoted_body(a)).drop_first() =~= quoted_body(a));
    }
}

/// Escapes `a` as one POSIX shell word.
pub fn escape_posix(a: &str) -> (r: String)
    ensures
        r@ == posix_escaped(a@),
{
    let cs = chars_of(a);
    let mut plain = cs.len() > 0;
    let mut i: usize = 0;
    while i < cs.len()
        invariant
            cs@ == a@,
            i <= cs.len(),
            plain == (cs.len() > 0 && forall|k: int| 0 <= k < i ==> is_plain_char(#[trigger] cs@[k])),
        decreases cs.len() - i,
    {
        if !plain_char(cs[i]) {
            plain = false;
        }
        i = i + 1;
    }
    if plain {
        return a.to_string();
    }
    let mut r = String::new();
    push_char(&mut r, '\'');
    let mut j: usize = 0;
    assert(cs@.skip(0) =~= cs@);
    while j < cs.len()
        invariant
            cs@ == a@,
            j <= cs.len(),
            r@ + quoted_body(cs@.skip(j as int)) == seq!['\''] + quoted_body(cs@),
        decreases cs.len() - j,
    {
        let ghost rest = cs@.skip(j as int);
        assert(rest.drop_first() =~= cs@.skip(j + 1));
        if cs[j] == '\'' {
            push_char(&mut r, '\'');
            push_char(&mut r, '\\');
            push_char(&mut r, '\'');
            push_char(&mut r, '\'');
        } else {
            push_char(&mut r, cs[j]);
        }
        j = j + 1;
    }
    assert(cs@.skip(j as int) =~= Seq::<char>::empty());
    push_char(&mut r, '\'');
    r
}

/// Escapes `a` as one word of the Windows command shell.
pub fn escape_cmd(a: &str) -> (r: String)
    ensures
        r@ == cmd_escaped(a@),
{
    let cs = chars_of(a);
    let mut needs = cs.len() == 0;
    let mut i: usize = 0;
    while i < cs.len()
        invariant
            cs@ == a@,
            i <= cs.len(),
            needs == (cs.len() == 0 || exists|k: int| 0 <= k < i && (is_white_space(cs@[k]) || cs@[k] == '"')),
        decreases cs.len() - i,
    {
        if is_white_space_char(cs[i]) || cs[i] == '"' {
            needs = true;
        }
        i = i + 1;
    }
    if !needs {
        return a.to_string();
    }
    let mut r = String::new();
    push_char(&mut r, '"');
    let mut j: usize = 0;
    assert(cs@.skip(0) =~= cs@);
    while j < cs.len()
        invariant
            cs@ == a@,
            j <= cs.len(),
            r@ + doubled_quotes(cs@.skip(j as int)) == seq!['"'] + doubled_quotes(cs@),
        decreases cs.len() - j,
    {
        let ghost rest = cs@.skip(j as int);
        assert(rest.drop_first() =~= cs@.skip(j + 1));
        if cs[j] == '"' {
            push_char(&mut r, '"');
            push_char(&mut r, '"');
        } else {
            push_char(&mut r, cs[j]);
        }
        j = j + 1;
    }
    assert(cs@.skip(j as int) =~= Seq::<char>::empty());
    push_char(&mut r, '"');
    r
}

/// The command line that runs `def` with `args` on `target`.
pub fn command_line(def: &CommandDef, args: &Vec<String>, target: ShellTarget) -> (r: String)
    ensures
        r@ == command_text(def.command@, texts(args@), target),
{
    let mut line = def.command.clone();
    let mut i: usize = 0;
    while i < args.len()
        invariant
            i <= args.len(),
            line@ == command_text(def.command@, texts(args@).take(i as int), target),
        decreases args.len() - i,
    {
        let w = match target {
            ShellTarget::Posix => escape_posix(args[i].as_str()),
            ShellTarget::Windows => escape_cmd(args[i].as_str()),
        };
        push_char(&mut line, ' ');
        line.append(w.as_str());
        assert(texts(args@).take(i + 1).drop_last() =~= texts(args@).take(i as int));
        i = i + 1;
    }
    assert(texts(args@).take(i as int) =~= texts(args@));
    line
}

/// The interactive shell whose history a run may join.
#[derive(Debug, Clone, Copy, PartialEq, Eq, Structural)]
pub enum Shell {
    Bash,
    Zsh,
    Unknown,
}

/// The shell that the value of the `SHELL` variable names.
pub open spec fn shell_of(path: Option<Seq<char>>) -> Shell {
    match path {
        Some(p) => if has_suffix(p, "/bash"@) {
            Shell::Bash
        } else if has_suffix(p, "/zsh"@) {
            Shell::Zsh
        } else {
            Shell::Unknown
        },
        None => Shell::Unknown,
    }
}

/// The shell that the value of the `SHELL` variable names, if it is set.
pub fn detect_shell(shell_var: Option<&str>) -> (r: Shell)
    ensures
        r == shell_of(match shell_var {
            Some(p) => Some(p@),
            None => None,
        }),
{
    match shell_var {
        Some(p) => if ends_with_text(p, "/bash") {
            Shell::Bash
        } else if ends_with_text(p, "/zsh") {
            Shell::Zsh
        } else {
            Shell::Unknown
        },
        None => Shell::Unknown,
    }
}

/// The name of the history file, in the home directory, of `shell`.
pub open spec fn history_name(shell: Shell) -> Option<Seq<char>> {
    match shell {
        Shell::Bash => Some(".bash_history"@),
        Shell::Zsh => Some(".zsh_history"@),
        Shell::Unknown => None,
    }
}

/// The name of the history file, in the home directory, of `shell`.
pub fn history_file_name(shell: Shell) -> (r: Option<String>)
    ensures
        match r {
            Some(n) => history_name(shell) == Some(n@),
            None => history_name(shell) is None,
        },
{
    match shell {
        Shell::Bash => Some(".bash_history".to_string()),
        Shell::Zsh => Some(".zsh_history".to_string()),
        Shell::Unknown => None,
    }
}

/// The history entry for `line` in the native format of `shell`: zsh's
/// extended format `: <time>:0;<line>` or bash's bare line, each ended by a
/// newline.
pub open spec fn history_text(shell: Shell, line: Seq<char>, timestamp: nat) -> Option<Seq<char>> {
    match shell {
        Shell::Zsh => Some(": "@ + decimal_digits(timestamp) + ":0;"@ + line + "\n"@),
        Shell::Bash => Some(line + "\n"@),
        Shell::Unknown => None,
    }
}

/// The history entry for `line`, run at `timestamp` (seconds since the Unix
/// epoch), for `shell`.
pub fn history_entry(shell: Shell, line: &str, timestamp: u64) -> (r: Option<String>)
    ensures
        match r {
            Some(e) => history_text(shell, line@, timestamp as nat) == Some(e@),
            None => history_text(shell, line@, timestamp as nat) is None,
        },
{
    match shell {
        Shell::Zsh => {
            let mut e = ": ".to_string();
            let t = decimal(timestamp);
            e.append(t.as_str());
            e.append(":0;");
            e.append(line);
            e.append("\n");
            Some(e)
        },
        Shell::Bash => {
            let mut e = line.to_string();
            e.append("\n");
            Some(e)
        },
        Shell::Unknown => None,
    }
}

/// How the shell that ran a command line ended.
#[derive(Debug)]
pub enum ShellOutcome {
    /// It ran and exited; `status` describes the exit status and `code` is
    /// its exit code, where it has one.
    Exited { success: bool, status: String, code: Option<i32> },
    /// It could not be started.
    NotStarted { reason: String },
}

/// Why running a snippet failed.
#[derive(Debug, PartialEq, Eq)]
pub enum RunError {
    /// The shell could not be started.
    NotStarted { description: String, reason: String },
    /// The command exited with a failure status.
    Failed { description: String, status: String, code: Option<i32> },
}

/// The result of running the snippet described by `description`, given how
/// its shell ended: success exactly when it exited successfully.
pub fn run_result(description: &String, outcome: ShellOutcome) -> (r: Result<(), RunError>)
    ensures
        match outcome {
            ShellOutcome::Exited { success, status, code } => if success {
                r is Ok
            } else {
                r == Err::<(), RunError>(
                    RunError::Failed { description: *description, status, code },
                )
            },
            ShellOutcome::NotStarted { reason } => r == Err::<(), RunError>(
                RunError::NotStarted { description: *description, reason },
            ),
        },
{
    match outcome {
        ShellOutcome::Exited { success, status, code } => {
            if success {
                Ok(())
            } else {
                Err(RunError::Failed { description: description.clone(), status, code })
            }
        },
        ShellOutcome::NotStarted { reason } => Err(
            RunError::NotStarted { description: description.clone(), reason },
        ),
    }
}

impl RunError {
    /// A message naming the snippet and what went wrong.
    pub fn message(&self) -> (r: String)
        ensures
            r@ == self.message_text(),
    {
        match self {
            RunError::NotStarted { description, reason } => {
                let mut m = "Failed to start command snippet '".to_string();
                m.append(description.as_str());
                m.append("': ");
                m.append(reason.as_str());
                m
            },
            RunError::Failed { description, status, .. } => {
                let mut m = "Command snippet '".to_string();
                m.append(description.as_str());
                m.append("' failed with status: ");
                m.append(status.as_str());
                m
            },
        }
    }

    /// The message in the context of the run: which snippet could not be
    /// executed, then what went wrong.
    pub fn context_message(&self) -> (r: String)
        ensures
            match self {
                RunError::NotStarted { description, .. } => r@ == "Failed to execute command snippet '"@
                    + description@ + "': "@ + self.message_text(),
                RunError::Failed { description, .. } => r@ == "Failed to execute command snippet '"@
                    + description@ + "': "@ + self.message_text(),
            },
    {
        let mut m = "Failed to execute command snippet '".to_string();
        match self {
            RunError::NotStarted { description, .. } => m.append(description.as_str()),
            RunError::Failed { description, .. } => m.append(description.as_str()),
        }
        m.append("': ");
        let inner = self.message();
        m.append(inner.as_str());
        m
    }

    /// What `message` says.
    pub open spec fn message_text(&self) -> Seq<char> {
        match self {
            RunError::NotStarted { description, reason } => "Failed to start command snippet '"@
                + description@ + "': "@ + reason@,
            RunError::Failed { description, status, .. } => "Command snippet '"@ + description@
                + "' failed with status: "@ + status@,
        }
    }

    /// The exit code for the launcher itself: the command's own code where
    /// it has one, else 1.
    pub fn exit_code(&self) -> (r: i32)
        ensures
            match self {
                RunError::Failed { code: Some(c), .. } => r == *c,
                _ => r == 1,
            },
    {
        match self {
            RunError::Failed { code: Some(c), .. } => *c,
            _ => 1,
        }
    }
}

/// What a dry run prints instead of running `def`: the command line and the
/// file that declared the snippet.
pub fn dry_run_report(def: &CommandDef, line: &str) -> (r: String)
    ensures
        r@ == "Would execute: "@ + line@ + "\nFrom file: "@ + def.source_file@,
{
    let mut m = "Would execute: ".to_string();
    m.append(line);
    m.append("\nFrom file: ");
    m.append(def.source_file.as_str());
    m
}

impl Session {
    /// The command line for the entry at `chosen` with the trailing `args`.
    pub fn command_line_for(&self, chosen: usize, args: &Vec<String>, target: ShellTarget) -> (r: String)
        requires
            chosen < self.commands.len(),
        ensures
            r@ == command_text(self.commands@[chosen as int].command@, texts(args@), target),
    {
        command_line(&self.commands[chosen], args, target)
    }

    /// The result of running the entry at `chosen`, given how its shell ended.
    pub fn finish(&self, chosen: usize, outcome: ShellOutcome) -> (r: Result<(), RunError>)
        requires
            chosen < self.commands.len(),
        ensures
            match outcome {
                ShellOutcome::Exited { success, status, code } => if success {
                    r is Ok
                } else {
                    r == Err::<(), RunError>(
                        RunError::Failed {
                            description: self.commands@[chosen as int].description,
                            status,
                            code,
                        },
                    )
                },
                ShellOutcome::NotStarted { reason } => r == Err::<(), RunError>(
                    RunError::NotStarted {
                        description: self.commands@[chosen as int].description,
                        reason,
                    },
                ),
            },
    {
        run_result(&self.commands[chosen].description, outcome)
    }
}

} // verus!
