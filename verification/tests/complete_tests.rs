use shell::complete::{
    plan_for_word,
    candidates_from_text, complete_command, completer_candidates, finish_candidates,
    plan_completion, Candidate, CompletionPlan,
};
use shell::completions::Completions;

fn s(x: &str) -> String {
    x.to_string()
}

fn cand(d: &str, r: &str) -> Candidate {
    Candidate { display: s(d), replacement: s(r) }
}

fn texts(cs: &[Candidate]) -> Vec<(String, String)> {
    cs.iter().map(|c| (c.display.clone(), c.replacement.clone())).collect()
}

#[test]
fn command_completion_is_sorted_and_unique() {
    let execs = vec![s("exa"), s("echo"), s("env"), s("ls"), s("exa")];
    let cs = complete_command(&execs, "e");
    assert_eq!(
        texts(&cs),
        vec![
            (s("echo"), s("echo")),
            (s("env"), s("env")),
            (s("exa"), s("exa")),
            (s("exit"), s("exit")),
        ]
    );
    let all = complete_command(&Vec::new(), "");
    assert_eq!(all.len(), 7);
    assert!(complete_command(&execs, "q").is_empty());
}

#[test]
fn finishing_candidates() {
    let one = finish_candidates(vec![cand("echo", "echo")]);
    assert_eq!(texts(&one), vec![(s("echo"), s("echo "))]);
    let dir = finish_candidates(vec![cand("src", "src/")]);
    assert_eq!(texts(&dir), vec![(s("src/"), s("src/"))]);
    let many = finish_candidates(vec![cand("a", "a"), cand("b", "b/"), cand("c/", "c/")]);
    assert_eq!(texts(&many), vec![(s("a"), s("a")), (s("b/"), s("b/")), (s("c/"), s("c/"))]);
    assert!(finish_candidates(Vec::new()).is_empty());
}

#[test]
fn completer_output_lines() {
    let cs = candidates_from_text("one\ntwo\r\nthree");
    assert_eq!(texts(&cs), vec![(s("one"), s("one")), (s("two"), s("two")), (s("three"), s("three"))]);
    let raw = completer_candidates(b"alpha\nbeta\n");
    assert_eq!(texts(&raw), vec![(s("alpha"), s("alpha")), (s("beta"), s("beta"))]);
    let lossy = completer_candidates(b"a\xffb\n");
    assert_eq!(texts(&lossy), vec![(s("a\u{fffd}b"), s("a\u{fffd}b"))]);
}

#[test]
fn first_word_completes_commands() {
    let c = Completions::new();
    let execs = vec![s("grep"), s("git")];
    match plan_completion(&c, &execs, "gi", 2) {
        CompletionPlan::Commands { candidates } => {
            assert_eq!(texts(&candidates), vec![(s("git"), s("git"))]);
        }
        _ => panic!("expected command completion"),
    }
}

#[test]
fn later_word_completes_files_without_completer() {
    let c = Completions::new();
    assert!(matches!(plan_completion(&c, &Vec::new(), "cat sr", 6), CompletionPlan::Files));
    assert!(matches!(plan_completion(&c, &Vec::new(), "  ", 2), CompletionPlan::Files));
}

#[test]
fn later_word_runs_registered_completer() {
    let mut c = Completions::new();
    c.register(s("git"), s("/usr/bin/git-comp"));
    match plan_completion(&c, &Vec::new(), "git commit --am", 15) {
        CompletionPlan::Script { script, args, start } => {
            assert_eq!(script, "/usr/bin/git-comp");
            assert_eq!(args, vec![s("git"), s("--am"), s("commit")]);
            assert_eq!(start, 11);
        }
        _ => panic!("expected a completer run"),
    }
    match plan_completion(&c, &Vec::new(), "git ", 4) {
        CompletionPlan::Script { args, start, .. } => {
            assert_eq!(args, vec![s("git"), s(""), s("git")]);
            assert_eq!(start, 4);
        }
        _ => panic!("expected a completer run"),
    }
}

#[test]
fn escaped_space_stays_in_word() {
    let mut c = Completions::new();
    c.register(s("cat"), s("/c"));
    match plan_completion(&c, &Vec::new(), "cat my\\ fi", 10) {
        CompletionPlan::Script { args, start, .. } => {
            assert_eq!(args[1], "my\\ fi");
            assert_eq!(start, 4);
        }
        _ => panic!("expected a completer run"),
    }
}

#[test]
fn completion_registry() {
    let mut c = Completions::new();
    assert_eq!(c.get("a"), None);
    c.register(s("a"), s("/x"));
    c.register(s("b"), s("/y"));
    c.register(s("a"), s("/z"));
    assert_eq!(c.get("a"), Some(s("/z")));
    assert_eq!(c.get("b"), Some(s("/y")));
    c.unregister("a");
    assert_eq!(c.get("a"), None);
    assert_eq!(c.get("b"), Some(s("/y")));
    c.unregister("missing");
    assert_eq!(c.get("b"), Some(s("/y")));
}

/// The start of the word before `pos`: the byte after the last whitespace
/// character that does not directly follow a backslash, or 0.
fn expected_word_start(line: &str, pos: usize) -> usize {
    let cs: Vec<(usize, char)> = line[..pos].char_indices().collect();
    for j in (0..cs.len()).rev() {
        let (i, c) = cs[j];
        if c.is_whitespace() && !(j >= 1 && cs[j - 1].1 == '\\') {
            return i + c.len_utf8();
        }
    }
    0
}

#[test]
fn word_start_rule_matches_rustyline() {
    let lines = [
        "", "ls", "ls ", "ls -l", "cat my\\ fi", "a\\\\ b", " x", "git  commit --am",
        "é ü\u{3000}z", "a\\", "\\ b", "x \\\\ y",
    ];
    for line in lines {
        for pos in 0..=line.len() {
            if !line.is_char_boundary(pos) {
                continue;
            }
            let (start, word) =
                rustyline::completion::extract_word(line, pos, Some('\\'), char::is_whitespace);
            assert_eq!(start, expected_word_start(line, pos), "{:?} at {}", line, pos);
            assert_eq!(word, &line[start..pos]);
        }
    }
}

#[test]
fn plan_for_a_given_word() {
    let mut c = Completions::new();
    let execs = vec![s("ecat")];
    match plan_for_word(&c, &execs, "ec", 0, "ec") {
        CompletionPlan::Commands { candidates } => {
            assert_eq!(texts(&candidates), vec![(s("ecat"), s("ecat")), (s("echo"), s("echo"))]);
        }
        _ => panic!("expected command completion"),
    }
    assert!(matches!(plan_for_word(&c, &execs, "cat x", 4, "x"), CompletionPlan::Files));
    c.register(s("cat"), s("/comp"));
    match plan_for_word(&c, &execs, "cat -n x", 7, "x") {
        CompletionPlan::Script { script, args, start } => {
            assert_eq!(script, "/comp");
            assert_eq!(args, vec![s("cat"), s("x"), s("-n")]);
            assert_eq!(start, 7);
        }
        _ => panic!("expected a completer run"),
    }
}
