use shell::parse::{
    classify, tokenize, Command, CompleteOp, Fd, Mode, ParsedLine, Token,
};

fn words(v: &[&str]) -> Vec<String> {
    v.iter().map(|s| s.to_string()).collect()
}

fn word_texts(tokens: &[Token]) -> Vec<String> {
    tokens
        .iter()
        .map(|t| match t {
            Token::Word(w) => w.clone(),
            Token::Background => "<&>".to_string(),
            Token::Redirect { fd, mode } => format!("<{:?} {:?}>", fd, mode),
        })
        .collect()
}

#[test]
fn classify_operators() {
    assert!(matches!(classify(">".to_string(), false), Token::Redirect { fd: Fd::Stdout, mode: Mode::Truncate }));
    assert!(matches!(classify("1>".to_string(), false), Token::Redirect { fd: Fd::Stdout, mode: Mode::Truncate }));
    assert!(matches!(classify(">>".to_string(), false), Token::Redirect { fd: Fd::Stdout, mode: Mode::Append }));
    assert!(matches!(classify("1>>".to_string(), false), Token::Redirect { fd: Fd::Stdout, mode: Mode::Append }));
    assert!(matches!(classify("2>".to_string(), false), Token::Redirect { fd: Fd::Stderr, mode: Mode::Truncate }));
    assert!(matches!(classify("2>>".to_string(), false), Token::Redirect { fd: Fd::Stderr, mode: Mode::Append }));
    assert!(matches!(classify("&".to_string(), false), Token::Background));
    assert!(matches!(classify("3>".to_string(), false), Token::Word(ref w) if w == "3>"));
}

#[test]
fn classify_quoted_operator_is_word() {
    assert!(matches!(classify(">".to_string(), true), Token::Word(ref w) if w == ">"));
    assert!(matches!(classify("&".to_string(), true), Token::Word(ref w) if w == "&"));
}

#[test]
fn tokenize_plain_words() {
    assert_eq!(word_texts(&tokenize("ls  -la   /tmp")), words(&["ls", "-la", "/tmp"]));
    assert_eq!(word_texts(&tokenize("")), Vec::<String>::new());
    assert_eq!(word_texts(&tokenize("   ")), Vec::<String>::new());
}

#[test]
fn tokenize_quotes() {
    assert_eq!(word_texts(&tokenize("echo 'hello   world'")), words(&["echo", "hello   world"]));
    assert_eq!(word_texts(&tokenize("echo \"a b\"c")), words(&["echo", "a bc"]));
    assert_eq!(word_texts(&tokenize("echo ''")), words(&["echo", ""]));
    assert_eq!(word_texts(&tokenize("echo 'a\\b'")), words(&["echo", "a\\b"]));
    assert_eq!(word_texts(&tokenize("echo \"a\\\"b\"")), words(&["echo", "a\"b"]));
    assert_eq!(word_texts(&tokenize("echo \"it's\"")), words(&["echo", "it's"]));
}

#[test]
fn tokenize_escapes() {
    assert_eq!(word_texts(&tokenize("echo a\\ b")), words(&["echo", "a b"]));
    assert_eq!(word_texts(&tokenize("echo \\'x\\'")), words(&["echo", "'x'"]));
    assert_eq!(word_texts(&tokenize("echo \\>")), words(&["echo", ">"]));
}

#[test]
fn tokenize_operators() {
    assert_eq!(
        word_texts(&tokenize("ls > out 2>> err &")),
        words(&["ls", "<Stdout Truncate>", "out", "<Stderr Append>", "err", "<&>"])
    );
    assert_eq!(word_texts(&tokenize("echo '>' x")), words(&["echo", ">", "x"]));
}

#[test]
fn from_tokens_builtins() {
    assert!(matches!(Command::from_tokens(words(&["exit"])), Some(Command::Exit)));
    assert!(matches!(Command::from_tokens(words(&["exit", "3"])), Some(Command::Exit)));
    assert!(matches!(Command::from_tokens(words(&["pwd"])), Some(Command::Pwd)));
    assert!(matches!(Command::from_tokens(words(&["jobs"])), Some(Command::Jobs)));
    assert!(matches!(Command::from_tokens(words(&["echo", "a", "b"])), Some(Command::Echo { ref output }) if output == "a b"));
    assert!(matches!(Command::from_tokens(words(&["echo"])), Some(Command::Echo { ref output }) if output.is_empty()));
    assert!(matches!(Command::from_tokens(words(&["cd", "/tmp", "x"])), Some(Command::Cd { ref path }) if path == "/tmp"));
    assert!(Command::from_tokens(words(&["cd"])).is_none());
    assert!(matches!(Command::from_tokens(words(&["type", "ls"])), Some(Command::Type { ref target }) if target == "ls"));
    assert!(Command::from_tokens(words(&["type"])).is_none());
    assert!(Command::from_tokens(Vec::new()).is_none());
}

#[test]
fn from_tokens_complete() {
    match Command::from_tokens(words(&["complete", "-C", "/bin/comp", "git"])) {
        Some(Command::Complete(CompleteOp::Register { cmd, path })) => {
            assert_eq!(cmd, "git");
            assert_eq!(path, "/bin/comp");
        }
        _ => panic!("expected a registration"),
    }
    assert!(matches!(Command::from_tokens(words(&["complete", "-r", "git"])), Some(Command::Complete(CompleteOp::Unregister { ref cmd })) if cmd == "git"));
    assert!(matches!(Command::from_tokens(words(&["complete", "-p", "git"])), Some(Command::Complete(CompleteOp::Print { ref cmd })) if cmd == "git"));
    assert!(Command::from_tokens(words(&["complete", "-C", "/bin/comp"])).is_none());
    assert!(Command::from_tokens(words(&["complete", "-x", "git"])).is_none());
    assert!(Command::from_tokens(words(&["complete"])).is_none());
    assert!(Command::from_tokens(words(&["complete", "-p"])).is_none());
}

#[test]
fn from_tokens_external() {
    match Command::from_tokens(words(&["git", "commit", "-m", "msg"])) {
        Some(Command::External { args, name }) => {
            assert_eq!(name, "git");
            assert_eq!(args, words(&["commit", "-m", "msg"]));
        }
        _ => panic!("expected an external command"),
    }
}

#[test]
fn parse_redirections() {
    let p = ParsedLine::parse("  echo hi > out.txt 2>> err.log  ").unwrap();
    assert!(matches!(p.command, Command::Echo { ref output } if output == "hi"));
    let out = p.stdout.unwrap();
    assert_eq!(out.path, "out.txt");
    assert!(matches!(out.mode, Mode::Truncate));
    let err = p.stderr.unwrap();
    assert_eq!(err.path, "err.log");
    assert!(matches!(err.mode, Mode::Append));
    assert!(!p.background);
}

#[test]
fn parse_later_redirect_wins() {
    let p = ParsedLine::parse("echo hi > a 1>> b").unwrap();
    let out = p.stdout.unwrap();
    assert_eq!(out.path, "b");
    assert!(matches!(out.mode, Mode::Append));
    assert!(p.stderr.is_none());
}

#[test]
fn parse_background() {
    let p = ParsedLine::parse("sleep 5 &").unwrap();
    assert!(p.background);
    assert!(matches!(p.command, Command::External { ref name, ref args } if name == "sleep" && args == &words(&["5"])));
}

#[test]
fn parse_syntax_errors() {
    assert!(ParsedLine::parse("echo hi >").is_none());
    assert!(ParsedLine::parse("echo hi > &").is_none());
    assert!(ParsedLine::parse("echo hi 2> >").is_none());
    assert!(ParsedLine::parse("").is_none());
    assert!(ParsedLine::parse("   ").is_none());
    assert!(ParsedLine::parse("> out").is_none());
}

#[test]
fn parse_keeps_escaped_trailing_space() {
    let p = ParsedLine::parse("echo a\\ ").unwrap();
    assert!(matches!(p.command, Command::Echo { ref output } if output == "a "));
    let q = ParsedLine::parse("  echo 'b '  ").unwrap();
    assert!(matches!(q.command, Command::Echo { ref output } if output == "b "));
}

#[test]
fn parse_quoted_redirect_is_argument() {
    let p = ParsedLine::parse("echo '>' \"2>\"").unwrap();
    assert!(matches!(p.command, Command::Echo { ref output } if output == "> 2>"));
    assert!(p.stdout.is_none());
    assert!(p.stderr.is_none());
}

#[test]
fn parse_ignores_surrounding_whitespace() {
    for line in ["  echo  a   b  ", "\tls -l > f \n", "   cd /tmp   "] {
        let a = ParsedLine::parse(line).unwrap();
        let b = ParsedLine::parse(line.trim()).unwrap();
        match (&a.command, &b.command) {
            (Command::Echo { output: x }, Command::Echo { output: y }) => assert_eq!(x, y),
            (Command::External { name: n1, args: a1 }, Command::External { name: n2, args: a2 }) => {
                assert_eq!(n1, n2);
                assert_eq!(a1, a2);
            }
            (Command::Cd { path: p1 }, Command::Cd { path: p2 }) => assert_eq!(p1, p2),
            _ => panic!("different commands"),
        }
        assert_eq!(a.stdout.map(|r| r.path), b.stdout.map(|r| r.path));
    }
}

#[test]
fn quoted_sections_are_literal() {
    assert_eq!(word_texts(&tokenize("'a > b & \\c'")), words(&["a > b & \\c"]));
    assert_eq!(word_texts(&tokenize("\"2>> x  y\"")), words(&["2>> x  y"]));
}

#[test]
fn backslash_in_double_quotes_follows_bash() {
    assert_eq!(word_texts(&tokenize("\"a\\nb\"")), words(&["a\\nb"]));
    assert_eq!(word_texts(&tokenize("\"a\\\\b\"")), words(&["a\\b"]));
    assert_eq!(word_texts(&tokenize("\"\\$x \\`y\\`\"")), words(&["$x `y`"]));
    assert_eq!(word_texts(&tokenize("\"a\\\nb\"")), words(&["ab"]));
    assert_eq!(word_texts(&tokenize("\"abc\\")), words(&["abc"]));
    assert_eq!(word_texts(&tokenize("a\\\nb c")), words(&["ab", "c"]));
    assert_eq!(word_texts(&tokenize("a\\nb")), words(&["anb"]));
}

#[test]
fn parse_summarised_by_free_words_and_last_redirections() {
    let p = ParsedLine::parse("a > f b 2> e c & >> g").unwrap();
    assert!(matches!(p.command, Command::External { ref name, ref args } if name == "a" && args == &words(&["b", "c"])));
    assert!(p.background);
    let out = p.stdout.unwrap();
    assert_eq!(out.path, "g");
    assert!(matches!(out.mode, Mode::Append));
    assert_eq!(p.stderr.unwrap().path, "e");
    assert!(ParsedLine::parse("a > 2> e").is_none());
}
