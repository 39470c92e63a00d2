use shell::completions::Completions;
use shell::exec::{
    after_cd_failed, after_lookup, after_missing_program, builtins, expand_tilde, is_builtin,
    is_executable, job_line, job_started, plan, Action,
};
use shell::parse::{Command, CompleteOp, Fd};

fn s(x: &str) -> String {
    x.to_string()
}

#[test]
fn builtin_names() {
    assert_eq!(builtins(), vec![s("echo"), s("exit"), s("type"), s("pwd"), s("cd"), s("complete"), s("jobs")]);
    for b in ["echo", "exit", "type", "pwd", "cd", "complete", "jobs"] {
        assert!(is_builtin(b));
    }
    assert!(!is_builtin("ls"));
    assert!(!is_builtin(""));
    assert!(!is_builtin("ech"));
}

#[test]
fn executable_bits() {
    assert!(is_executable(true, 0o755));
    assert!(is_executable(true, 0o001));
    assert!(is_executable(true, 0o010));
    assert!(!is_executable(true, 0o644));
    assert!(!is_executable(false, 0o755));
}

#[test]
fn tilde_expansion() {
    let home = Some(s("/home/me"));
    assert_eq!(expand_tilde(s("~"), home.clone()), "/home/me");
    assert_eq!(expand_tilde(s("~/src"), home.clone()), "/home/me/src");
    assert_eq!(expand_tilde(s("~/"), home.clone()), "/home/me/");
    assert_eq!(expand_tilde(s("~other"), home.clone()), "~other");
    assert_eq!(expand_tilde(s("/tmp"), home.clone()), "/tmp");
    assert_eq!(expand_tilde(s("~"), None), "~");
}

#[test]
fn plan_simple_commands() {
    let mut c = Completions::new();
    assert!(matches!(plan(Command::Exit, false, &mut c, None), Action::Exit));
    assert!(matches!(plan(Command::Pwd, false, &mut c, None), Action::PrintWorkingDir));
    assert!(matches!(plan(Command::Jobs, false, &mut c, None), Action::ListJobs));
    assert!(matches!(plan(Command::Echo { output: s("hi there") }, false, &mut c, None),
        Action::Write { ref text, fd: Fd::Stdout } if text == "hi there"));
    assert!(matches!(plan(Command::Cd { path: s("~/x") }, false, &mut c, Some(s("/h"))),
        Action::ChangeDir { ref target } if target == "/h/x"));
}

#[test]
fn plan_type() {
    let mut c = Completions::new();
    assert!(matches!(plan(Command::Type { target: s("echo") }, false, &mut c, None),
        Action::Write { ref text, fd: Fd::Stdout } if text == "echo is a shell builtin"));
    assert!(matches!(plan(Command::Type { target: s("ls") }, false, &mut c, None),
        Action::LookUp { ref target } if target == "ls"));
    assert!(matches!(after_lookup("ls", Some(s("/bin/ls"))),
        Action::Write { ref text, fd: Fd::Stdout } if text == "ls is /bin/ls"));
    assert!(matches!(after_lookup("nope", None),
        Action::Write { ref text, fd: Fd::Stderr } if text == "nope: not found"));
}

#[test]
fn plan_complete_ops() {
    let mut c = Completions::new();
    let a = plan(Command::Complete(CompleteOp::Register { cmd: s("git"), path: s("/bin/gc") }), false, &mut c, None);
    assert!(matches!(a, Action::Continue));
    assert_eq!(c.get("git"), Some(s("/bin/gc")));
    assert!(matches!(plan(Command::Complete(CompleteOp::Print { cmd: s("git") }), false, &mut c, None),
        Action::Print { ref text, fd: Fd::Stdout } if text == "complete -C '/bin/gc' git"));
    let a = plan(Command::Complete(CompleteOp::Unregister { cmd: s("git") }), false, &mut c, None);
    assert!(matches!(a, Action::Continue));
    assert_eq!(c.get("git"), None);
    assert!(matches!(plan(Command::Complete(CompleteOp::Print { cmd: s("git") }), false, &mut c, None),
        Action::Print { ref text, fd: Fd::Stderr } if text == "complete: git: no completion specification"));
}

#[test]
fn plan_external() {
    let mut c = Completions::new();
    match plan(Command::External { args: vec![s("-l")], name: s("ls") }, true, &mut c, None) {
        Action::Run { name, args, background } => {
            assert_eq!(name, "ls");
            assert_eq!(args, vec![s("-l")]);
            assert!(background);
        }
        _ => panic!("expected a run"),
    }
    assert!(matches!(plan(Command::Echo { output: s("x") }, true, &mut c, None), Action::Write { .. }));
    assert!(matches!(after_missing_program("frob"),
        Action::Print { ref text, fd: Fd::Stderr } if text == "frob: command not found"));
}

#[test]
fn cd_failure_message() {
    assert!(matches!(after_cd_failed("/nowhere"),
        Action::Write { ref text, fd: Fd::Stderr } if text == "cd: /nowhere: No such file or directory"));
}

#[test]
fn job_lines() {
    assert_eq!(job_line(1, "sleep 5 &"), format!("[{}]+  {:<24}{}", 1, "Running", "sleep 5 &"));
    assert_eq!(job_line(12, "x"), "[12]+  Running                 x");
    let (id, line) = job_started(0, 4242);
    assert_eq!(id, 1);
    assert_eq!(line, "[1] 4242");
    let (id, line) = job_started(9, 7);
    assert_eq!(id, 10);
    assert_eq!(line, "[10] 7");
}
