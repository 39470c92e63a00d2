//! What the shell does with a parsed command.
//!
//! The shell's work alternates between decisions and effects on the
//! outside world (files, the working directory, child processes). The
//! decisions live here: [`plan`] turns a command into the next
//! [`Action`], updating the completion registry itself, and the
//! `after_*` functions turn what the outside world answered into the
//! action that follows. Whoever runs the shell performs the actions.

use vstd::prelude::*;

use crate::completions::Completions;
use crate::parse::{Command, CommandView, CompleteOp, CompleteOpView, Fd};
use crate::text::{chars_of, decimal_spec, push_char, push_decimal, text_eq, views_of};

verus! {

/// The names of the shell's builtin commands.
pub open spec fn builtin_names() -> Seq<Seq<char>> {
    seq!["echo"@, "exit"@, "type"@, "pwd"@, "cd"@, "complete"@, "jobs"@]
}

/// The names of the shell's builtin commands.
pub fn builtins() -> (v: Vec<String>)
    ensures
        views_of(v@) == builtin_names(),
{
    let v = vec![
        String::from_str("echo"),
        String::from_str("exit"),
        String::from_str("type"),
        String::from_str("pwd"),
        String::from_str("cd"),
        String::from_str("complete"),
        String::from_str("jobs"),
    ];
    assert(views_of(v@) =~= builtin_names());
    v
}

/// Whether `target` names a builtin command.
pub fn is_builtin(target: &str) -> (b: bool)
    ensures
        b == builtin_names().contains(target@),
{
    let names = builtins();
    let mut i: usize = 0;
    while i < names.len()
        invariant
            i <= names.len(),
            views_of(names@) == builtin_names(),
            forall|j: int| 0 <= j < i ==> builtin_names()[j] != target@,
        decreases names.len() - i,
    {
        assert(builtin_names()[i as int] == names@[i as int]@);
        if text_eq(names[i].as_str(), target) {
            assert(builtin_names()[i as int] == target@);
            return true;
        }
        i = i + 1;
    }
    false
}

/// Whether a file with the given kind and permission bits can be run: it is
/// a regular file and someone may execute it.
pub fn is_executable(is_file: bool, mode: u32) -> (b: bool)
    ensures
        b == (is_file && mode & 0o111 != 0),
{
    is_file && mode & 0o111 != 0
}

/// `token` with a leading `~` replaced by the home directory: `~` alone
/// becomes `home`, `~/rest` becomes `home/rest`. Without a home directory,
/// or without a leading `~` followed by `/` or nothing, the token stays.
pub open spec fn expand_tilde_spec(token: Seq<char>, home: Option<Seq<char>>) -> Seq<char> {
    match home {
        None => token,
        Some(h) => {
            if token == "~"@ {
                h
            } else if token.len() >= 2 && token[0] == '~' && token[1] == '/' {
                h.push('/') + token.skip(2)
            } else {
                token
            }
        },
    }
}

/// Replaces a leading `~` of `token` with the home directory `home`.
pub fn expand_tilde(token: String, home: Option<String>) -> (r: String)
    ensures
        r@ == expand_tilde_spec(token@, match home {
            Some(h) => Some(h@),
            None => None,
        }),
{
    let h = match home {
        None => {
            return token;
        },
        Some(h) => h,
    };
    if text_eq(token.as_str(), "~") {
        return h;
    }
    let cs = chars_of(token.as_str());
    if cs.len() >= 2 && cs[0] == '~' && cs[1] == '/' {
        let mut r = h;
        push_char(&mut r, '/');
        let mut i: usize = 2;
        let ghost start = r@;
        while i < cs.len()
            invariant
                2 <= i <= cs.len(),
                r@ == start + cs@.subrange(2, i as int),
            decreases cs.len() - i,
        {
            push_char(&mut r, cs[i]);
            i = i + 1;
            assert(r@ =~= start + cs@.subrange(2, i as int));
        }
        assert(cs@.subrange(2, i as int) =~= token@.skip(2));
        return r;
    }
    token
}

/// The next thing the shell does.
pub enum Action {
    /// Nothing more: read the next line.
    Continue,
    /// Leave the shell.
    Exit,
    /// Write a line of text to the line's redirection of `fd`, or, without
    /// one, to the terminal's stream `fd`.
    Write { text: String, fd: Fd },
    /// Write a line of text to the terminal's stream `fd`, whatever the
    /// line redirects.
    Print { text: String, fd: Fd },
    /// Write the current directory, as `Write` does to standard output.
    PrintWorkingDir,
    /// Change the working directory to `target`; on failure, perform
    /// [`after_cd_failed`].
    ChangeDir { target: String },
    /// Look `target` up on the search path, then perform [`after_lookup`].
    LookUp { target: String },
    /// Print one [`job_line`] for each background job.
    ListJobs,
    /// Run the program `name` with `args`, in the background or not; when
    /// no such program is found, perform [`after_missing_program`].
    Run { name: String, args: Vec<String>, background: bool },
}

/// The mathematical value of an [`Action`].
pub enum ActionView {
    Continue,
    Exit,
    Write { text: Seq<char>, fd: Fd },
    Print { text: Seq<char>, fd: Fd },
    PrintWorkingDir,
    ChangeDir { target: Seq<char> },
    LookUp { target: Seq<char> },
    ListJobs,
    Run { name: Seq<char>, args: Seq<Seq<char>>, background: bool },
}

impl View for Action {
    type V = ActionView;

    open spec fn view(&self) -> ActionView {
        match self {
            Action::Continue => ActionView::Continue,
            Action::Exit => ActionView::Exit,
            Action::Write { text, fd } => ActionView::Write { text: text@, fd: *fd },
            Action::Print { text, fd } => ActionView::Print { text: text@, fd: *fd },
            Action::PrintWorkingDir => ActionView::PrintWorkingDir,
            Action::ChangeDir { target } => ActionView::ChangeDir { target: target@ },
            Action::LookUp { target } => ActionView::LookUp { target: target@ },
            Action::ListJobs => ActionView::ListJobs,
            Action::Run { name, args, background } => ActionView::Run {
                name: name@,
                args: views_of(args@),
                background: *background,
            },
        }
    }
}

/// The text that `complete -p` shows for a registered completer.
pub open spec fn completion_spec_text(cmd: Seq<char>, path: Seq<char>) -> Seq<char> {
    "complete -C '"@ + path + "' "@ + cmd
}

/// The complaint that `complete -p` gives for a command without completer.
pub open spec fn no_completion_text(cmd: Seq<char>) -> Seq<char> {
    "complete: "@ + cmd + ": no completion specification"@
}

/// What the shell does for `cmd`, given whether its line ends in `&`, the
/// registered completions and the home directory. Only a program runs in
/// the background.
pub open spec fn plan_spec(
    cmd: CommandView,
    background: bool,
    completions: Map<Seq<char>, Seq<char>>,
    home: Option<Seq<char>>,
) -> ActionView {
    match cmd {
        CommandView::Exit => ActionView::Exit,
        CommandView::Pwd => ActionView::PrintWorkingDir,
        CommandView::Echo { output } => ActionView::Write { text: output, fd: Fd::Stdout },
        CommandView::Type { target } => {
            if builtin_names().contains(target) {
                ActionView::Write { text: target + " is a shell builtin"@, fd: Fd::Stdout }
            } else {
                ActionView::LookUp { target }
            }
        },
        CommandView::Cd { path } => ActionView::ChangeDir { target: expand_tilde_spec(path, home) },
        CommandView::Complete(CompleteOpView::Register { .. }) => ActionView::Continue,
        CommandView::Complete(CompleteOpView::Unregister { .. }) => ActionView::Continue,
        CommandView::Complete(CompleteOpView::Print { cmd }) => {
            if completions.dom().contains(cmd) {
                ActionView::Print {
                    text: completion_spec_text(cmd, completions[cmd]),
                    fd: Fd::Stdout,
                }
            } else {
                ActionView::Print { text: no_completion_text(cmd), fd: Fd::Stderr }
            }
        },
        CommandView::Jobs => ActionView::ListJobs,
        CommandView::External { args, name } => ActionView::Run { name, args, background },
    }
}

/// The completions after `cmd`: `complete -C` registers, `complete -r`
/// forgets, everything else leaves them alone.
pub open spec fn completions_after(
    cmd: CommandView,
    completions: Map<Seq<char>, Seq<char>>,
) -> Map<Seq<char>, Seq<char>> {
    match cmd {
        CommandView::Complete(CompleteOpView::Register { cmd, path }) => completions.insert(
            cmd,
            path,
        ),
        CommandView::Complete(CompleteOpView::Unregister { cmd }) => completions.remove(cmd),
        _ => completions,
    }
}

/// Concatenates two pieces of text.
fn concat2(a: &str, b: &str) -> (s: String)
    ensures
        s@ == a@ + b@,
{
    let mut s = String::from_str(a);
    s.append(b);
    s
}

/// Concatenates three pieces of text.
fn concat3(a: &str, b: &str, c: &str) -> (s: String)
    ensures
        s@ == a@ + b@ + c@,
{
    let mut s = String::from_str(a);
    s.append(b);
    s.append(c);
    s
}

/// The optional home directory's text.
pub open spec fn home_view(home: Option<String>) -> Option<Seq<char>> {
    match home {
        Some(h) => Some(h@),
        None => None,
    }
}

/// Decides what the shell does for `cmd`. The completion registry is
/// updated here; `background` marks a line ending in `&`.
pub fn plan(cmd: Command, background: bool, completions: &mut Completions, home: Option<String>) -> (a: Action)
    ensures
        a@ == plan_spec(cmd@, background, old(completions)@, home_view(home)),
        final(completions)@ == completions_after(cmd@, old(completions)@),
        cmd@ matches CommandView::Complete(CompleteOpView::Register { cmd: k, path: v })
            ==> final(completions)@ == old(completions)@.insert(k, v),
        cmd@ matches CommandView::Complete(CompleteOpView::Unregister { cmd: k })
            ==> final(completions)@ == old(completions)@.remove(k),
        !(cmd@ matches CommandView::Complete(CompleteOpView::Register { .. }))
            && !(cmd@ matches CommandView::Complete(CompleteOpView::Unregister { .. }))
            ==> final(completions)@ == old(completions)@,
{
    let ghost cv = cmd@;
    match cmd {
        Command::Exit => Action::Exit,
        Command::Pwd => Action::PrintWorkingDir,
        Command::Echo { output } => Action::Write { text: output, fd: Fd::Stdout },
        Command::Type { target } => {
            if is_builtin(target.as_str()) {
                let mut text = target;
                text.append(" is a shell builtin");
                Action::Write { text, fd: Fd::Stdout }
            } else {
                Action::LookUp { target }
            }
        },
        Command::Cd { path } => Action::ChangeDir { target: expand_tilde(path, home) },
        Command::Complete(CompleteOp::Register { cmd, path }) => {
            completions.register(cmd, path);
            Action::Continue
        },
        Command::Complete(CompleteOp::Unregister { cmd }) => {
            completions.unregister(cmd.as_str());
            Action::Continue
        },
        Command::Complete(CompleteOp::Print { cmd }) => {
            match completions.get(cmd.as_str()) {
                Some(path) => {
                    let mut text = concat3("complete -C '", path.as_str(), "' ");
                    text.append(cmd.as_str());
                    Action::Print { text, fd: Fd::Stdout }
                },
                None => {
                    let text = concat3("complete: ", cmd.as_str(), ": no completion specification");
                    Action::Print { text, fd: Fd::Stderr }
                },
            }
        },
        Command::Jobs => Action::ListJobs,
        Command::External { args, name } => Action::Run { name, args, background },
    }
}

/// The report of `type` for a command that is not a builtin: where the
/// search path has it (`found`), or a complaint on standard error.
pub fn after_lookup(target: &str, found: Option<String>) -> (a: Action)
    ensures
        a@ == (match found {
            Some(p) => ActionView::Write { text: target@ + " is "@ + p@, fd: Fd::Stdout },
            None => ActionView::Write { text: target@ + ": not found"@, fd: Fd::Stderr },
        }),
{
    match found {
        Some(p) => Action::Write { text: concat3(target, " is ", p.as_str()), fd: Fd::Stdout },
        None => Action::Write { text: concat2(target, ": not found"), fd: Fd::Stderr },
    }
}

/// The complaint when the working directory cannot be changed to `target`.
pub fn after_cd_failed(target: &str) -> (a: Action)
    ensures
        a@ == (ActionView::Write {
            text: "cd: "@ + target@ + ": No such file or directory"@,
            fd: Fd::Stderr,
        }),
{
    Action::Write { text: concat3("cd: ", target, ": No such file or directory"), fd: Fd::Stderr }
}

/// The complaint when no program `name` is found on the search path.
pub fn after_missing_program(name: &str) -> (a: Action)
    ensures
        a@ == (ActionView::Print { text: name@ + ": command not found"@, fd: Fd::Stderr }),
{
    Action::Print { text: concat2(name, ": command not found"), fd: Fd::Stderr }
}

/// The line that `jobs` prints for a job: its number, its state padded to
/// 24 columns, and its command line.
pub open spec fn job_line_spec(id: nat, command: Seq<char>) -> Seq<char> {
    seq!['['] + decimal_spec(id) + "]+  "@ + "Running"@ + Seq::new(17, |i: int| ' ') + command
}

/// The line that `jobs` prints for job `id` running `command`.
pub fn job_line(id: u64, command: &str) -> (s: String)
    ensures
        s@ == job_line_spec(id as nat, command@),
{
    let mut s = String::new();
    push_char(&mut s, '[');
    push_decimal(&mut s, id);
    s.append("]+  ");
    s.append("Running");
    let mut k: usize = 0;
    let ghost start = s@;
    while k < 17
        invariant
            k <= 17,
            s@ == start + Seq::new(k as nat, |i: int| ' '),
        decreases 17 - k,
    {
        push_char(&mut s, ' ');
        k = k + 1;
        assert(s@ =~= start + Seq::new(k as nat, |i: int| ' '));
    }
    s.append(command);
    assert(s@ =~= job_line_spec(id as nat, command@));
    s
}

/// The number of the next background job when `count` jobs were started.
pub open spec fn next_job_id_spec(count: nat) -> nat {
    count + 1
}

/// The number of the next background job and the line announcing it with
/// its process id: `[number] pid`.
pub fn job_started(count: u64, pid: u32) -> (r: (u64, String))
    requires
        count < u64::MAX,
    ensures
        r.0 == next_job_id_spec(count as nat),
        r.1@ == seq!['['] + decimal_spec(r.0 as nat) + "] "@ + decimal_spec(pid as nat),
{
    let id = count + 1;
    let mut s = String::new();
    push_char(&mut s, '[');
    push_decimal(&mut s, id);
    s.append("] ");
    push_decimal(&mut s, pid as u64);
    (id, s)
}

} // verus!
