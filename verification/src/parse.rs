//! The shell's line lexer and parser.
//!
//! A line is split into tokens following the common bash quotation and
//! escape rules; unquoted redirection operators and `&` become tokens of
//! their own. The tokens then become a [`ParsedLine`]: a command, its
//! redirections and whether it runs in the background.

use vstd::prelude::*;

use crate::text::{chars_of, is_whitespace, is_ws, push_char, text_eq, views_of};

verus! {

// ----------------------------------------------- lexer -----------------------------------------------

/// The quoting context the lexer is in.
#[derive(PartialEq, Eq, Structural, Clone, Copy, Debug)]
pub enum QuoteState {
    Double,
    Outside,
    Single,
}

/// An output stream that a redirection can name.
#[derive(PartialEq, Eq, Structural, Clone, Copy, Debug)]
pub enum Fd {
    Stderr,
    Stdout,
}

/// How a redirection opens its file.
#[derive(PartialEq, Eq, Structural, Clone, Copy, Debug)]
pub enum Mode {
    Append,
    Truncate,
}

/// A lexical token of a command line.
#[derive(Debug)]
pub enum Token {
    Background,
    Word(String),
    Redirect { fd: Fd, mode: Mode },
}

/// The mathematical value of a [`Token`].
pub enum TokenView {
    Background,
    Word(Seq<char>),
    Redirect { fd: Fd, mode: Mode },
}

impl View for Token {
    type V = TokenView;

    open spec fn view(&self) -> TokenView {
        match self {
            Token::Background => TokenView::Background,
            Token::Word(w) => TokenView::Word(w@),
            Token::Redirect { fd, mode } => TokenView::Redirect { fd: *fd, mode: *mode },
        }
    }
}

/// The token that the text of one word stands for: an unquoted redirection
/// operator or `&` is an operator, anything else (and anything quoted) is
/// a word.
pub open spec fn classify_spec(text: Seq<char>, quoted: bool) -> TokenView {
    if !quoted && (text == ">"@ || text == "1>"@) {
        TokenView::Redirect { fd: Fd::Stdout, mode: Mode::Truncate }
    } else if !quoted && (text == ">>"@ || text == "1>>"@) {
        TokenView::Redirect { fd: Fd::Stdout, mode: Mode::Append }
    } else if !quoted && text == "2>"@ {
        TokenView::Redirect { fd: Fd::Stderr, mode: Mode::Truncate }
    } else if !quoted && text == "2>>"@ {
        TokenView::Redirect { fd: Fd::Stderr, mode: Mode::Append }
    } else if !quoted && text == "&"@ {
        TokenView::Background
    } else {
        TokenView::Word(text)
    }
}

/// Turns the text of a finished word into a token.
pub fn classify(text: String, quoted: bool) -> (t: Token)
    ensures
        t@ == classify_spec(text@, quoted),
{
    if !quoted {
        let s = text.as_str();
        if text_eq(s, ">") || text_eq(s, "1>") {
            return Token::Redirect { fd: Fd::Stdout, mode: Mode::Truncate };
        }
        if text_eq(s, ">>") || text_eq(s, "1>>") {
            return Token::Redirect { fd: Fd::Stdout, mode: Mode::Append };
        }
        if text_eq(s, "2>") {
            return Token::Redirect { fd: Fd::Stderr, mode: Mode::Truncate };
        }
        if text_eq(s, "2>>") {
            return Token::Redirect { fd: Fd::Stderr, mode: Mode::Append };
        }
        if text_eq(s, "&") {
            return Token::Background;
        }
    }
    Token::Word(text)
}

/// The lexer's state between two characters.
pub struct LexState {
    pub tokens: Seq<TokenView>,
    pub current: Seq<char>,
    pub in_token: bool,
    pub quoted: bool,
    pub escaped: bool,
    pub quote: QuoteState,
}

/// The state before the first character.
pub open spec fn lex_init() -> LexState {
    LexState {
        tokens: Seq::empty(),
        current: Seq::empty(),
        in_token: false,
        quoted: false,
        escaped: false,
        quote: QuoteState::Outside,
    }
}

/// The state with the character `c` added to the current word.
pub open spec fn lex_keep(st: LexState, c: char) -> LexState {
    LexState { current: st.current.push(c), in_token: true, ..st }
}

/// The characters that a backslash escapes inside double quotes, as in
/// bash: `$`, backquote, `"`, `\` and newline.
pub open spec fn escapable_in_double(c: char) -> bool {
    c == '$' || c == '`' || c == '"' || c == '\\' || c == '\n'
}

/// The state after reading one character.
///
/// Outside quotes, a backslash escapes the next character (which is then
/// taken literally, and makes its word a quoted one), quotes open a quoted section, and whitespace ends the
/// current word. In double quotes a backslash escapes only `$`, backquote,
/// `"`, `\` and newline, as in bash: before any other character it stays.
/// A backslash followed by a newline, in double quotes or outside quotes,
/// continues the line: both go. In single quotes everything up to the
/// closing quote is literal.
pub open spec fn lex_step(st: LexState, c: char) -> LexState {
    if st.escaped {
        if c == '\n' {
            LexState { escaped: false, ..st }
        } else if st.quote == QuoteState::Double && !escapable_in_double(c) {
            LexState { escaped: false, quoted: true, ..lex_keep(lex_keep(st, '\\'), c) }
        } else {
            LexState { escaped: false, quoted: true, ..lex_keep(st, c) }
        }
    } else {
        match st.quote {
            QuoteState::Outside => {
                if c == '\\' {
                    LexState { escaped: true, ..st }
                } else if c == '\'' {
                    LexState { quote: QuoteState::Single, in_token: true, quoted: true, ..st }
                } else if c == '"' {
                    LexState { quote: QuoteState::Double, in_token: true, quoted: true, ..st }
                } else if is_ws(c) {
                    if st.in_token {
                        LexState {
                            tokens: st.tokens.push(classify_spec(st.current, st.quoted)),
                            current: Seq::empty(),
                            quoted: false,
                            in_token: false,
                            ..st
                        }
                    } else {
                        st
                    }
                } else {
                    lex_keep(st, c)
                }
            },
            QuoteState::Double => {
                if c == '\\' {
                    LexState { escaped: true, ..st }
                } else if c == '"' {
                    LexState { quote: QuoteState::Outside, ..st }
                } else {
                    lex_keep(st, c)
                }
            },
            QuoteState::Single => {
                if c == '\'' {
                    LexState { quote: QuoteState::Outside, ..st }
                } else {
                    lex_keep(st, c)
                }
            },
        }
    }
}

/// The state after reading all of `s`.
pub open spec fn lex_run(s: Seq<char>) -> LexState
    decreases s.len(),
{
    if s.len() == 0 {
        lex_init()
    } else {
        lex_step(lex_run(s.drop_last()), s.last())
    }
}

/// The tokens of a state where the input ends: those finished, and the
/// word in progress.
pub open spec fn finish_tokens(st: LexState) -> Seq<TokenView> {
    if st.in_token {
        st.tokens.push(classify_spec(st.current, st.quoted))
    } else {
        st.tokens
    }
}

/// The tokens of `s`: those finished while reading it, and the word in
/// progress at its end.
pub open spec fn tokenize_spec(s: Seq<char>) -> Seq<TokenView> {
    finish_tokens(lex_run(s))
}

/// The views of a sequence of tokens.
pub open spec fn token_views(ts: Seq<Token>) -> Seq<TokenView> {
    ts.map_values(|t: Token| t@)
}

/// Splits the characters of a line into tokens.
pub fn tokenize_chars(input: &Vec<char>) -> (tokens: Vec<Token>)
    ensures
        token_views(tokens@) == tokenize_spec(input@),
{
    let mut tokens: Vec<Token> = Vec::new();
    let mut current = String::new();
    let mut in_token = false;
    let mut quoted = false;
    let mut escaped = false;
    let mut state = QuoteState::Outside;
    let mut i: usize = 0;
    while i < input.len()
        invariant
            i <= input.len(),
            ({
                let st = lex_run(input@.take(i as int));
                &&& token_views(tokens@) == st.tokens
                &&& current@ == st.current
                &&& in_token == st.in_token
                &&& quoted == st.quoted
                &&& escaped == st.escaped
                &&& state == st.quote
            }),
        decreases input.len() - i,
    {
        let c = input[i];
        proof {
            assert(input@.take(i + 1).drop_last() =~= input@.take(i as int));
        }
        if escaped {
            if c != '\n' {
                if state == QuoteState::Double && !(c == '$' || c == '`' || c == '"' || c == '\\') {
                    push_char(&mut current, '\\');
                }
                push_char(&mut current, c);
                in_token = true;
                quoted = true;
            }
            escaped = false;
        } else {
            match state {
                QuoteState::Outside => {
                    if c == '\\' {
                        escaped = true;
                    } else if c == '\'' {
                        state = QuoteState::Single;
                        in_token = true;
                        quoted = true;
                    } else if c == '"' {
                        state = QuoteState::Double;
                        in_token = true;
                        quoted = true;
                    } else if is_whitespace(c) {
                        if in_token {
                            let word = current;
                            current = String::new();
                            let t = classify(word, quoted);
                            let ghost before = tokens@;
                            tokens.push(t);
                            proof {
                                assert(token_views(tokens@) =~= token_views(before).push(t@));
                            }
                            quoted = false;
                            in_token = false;
                        }
                    } else {
                        push_char(&mut current, c);
                        in_token = true;
                    }
                },
                QuoteState::Double => {
                    if c == '\\' {
                        escaped = true;
                    } else if c == '"' {
                        state = QuoteState::Outside;
                    } else {
                        push_char(&mut current, c);
                        in_token = true;
                    }
                },
                QuoteState::Single => {
                    if c == '\'' {
                        state = QuoteState::Outside;
                    } else {
                        push_char(&mut current, c);
                        in_token = true;
                    }
                },
            }
        }
        i = i + 1;
    }
    proof {
        assert(input@.take(i as int) =~= input@);
    }
    if in_token {
        let t = classify(current, quoted);
        let ghost before = tokens@;
        tokens.push(t);
        proof {
            assert(token_views(tokens@) =~= token_views(before).push(t@));
        }
    }
    tokens
}

/// Splits a line into tokens, following the common bash quotation and
/// escape rules.
pub fn tokenize(input: &str) -> (tokens: Vec<Token>)
    ensures
        token_views(tokens@) == tokenize_spec(input@),
{
    let cs = chars_of(input);
    tokenize_chars(&cs)
}

} // verus!

verus! {

// ----------------------------------------------- parser ----------------------------------------------

/// Output of one stream sent to a file.
pub struct Redirect {
    pub mode: Mode,
    pub path: String,
}

/// The mathematical value of a [`Redirect`].
pub struct RedirectView {
    pub mode: Mode,
    pub path: Seq<char>,
}

impl View for Redirect {
    type V = RedirectView;

    open spec fn view(&self) -> RedirectView {
        RedirectView { mode: self.mode, path: self.path@ }
    }
}

/// An operation of the `complete` builtin.
pub enum CompleteOp {
    /// `complete -C <path> <cmd>`: complete the arguments of `cmd` by running `path`.
    Register { cmd: String, path: String },
    /// `complete -p <cmd>`: show the completion registered for `cmd`.
    Print { cmd: String },
    /// `complete -r <cmd>`: forget the completion registered for `cmd`.
    Unregister { cmd: String },
}

/// The mathematical value of a [`CompleteOp`].
pub enum CompleteOpView {
    Register { cmd: Seq<char>, path: Seq<char> },
    Print { cmd: Seq<char> },
    Unregister { cmd: Seq<char> },
}

impl View for CompleteOp {
    type V = CompleteOpView;

    open spec fn view(&self) -> CompleteOpView {
        match self {
            CompleteOp::Register { cmd, path } => CompleteOpView::Register {
                cmd: cmd@,
                path: path@,
            },
            CompleteOp::Print { cmd } => CompleteOpView::Print { cmd: cmd@ },
            CompleteOp::Unregister { cmd } => CompleteOpView::Unregister { cmd: cmd@ },
        }
    }
}

/// A command of the shell: a builtin or an external program.
pub enum Command {
    Cd { path: String },
    Echo { output: String },
    Exit,
    External { args: Vec<String>, name: String },
    Pwd,
    Type { target: String },
    Jobs,
    Complete(CompleteOp),
}

/// The mathematical value of a [`Command`].
pub enum CommandView {
    Cd { path: Seq<char> },
    Echo { output: Seq<char> },
    Exit,
    External { args: Seq<Seq<char>>, name: Seq<char> },
    Pwd,
    Type { target: Seq<char> },
    Jobs,
    Complete(CompleteOpView),
}

impl View for Command {
    type V = CommandView;

    open spec fn view(&self) -> CommandView {
        match self {
            Command::Cd { path } => CommandView::Cd { path: path@ },
            Command::Echo { output } => CommandView::Echo { output: output@ },
            Command::Exit => CommandView::Exit,
            Command::External { args, name } => CommandView::External {
                args: views_of(args@),
                name: name@,
            },
            Command::Pwd => CommandView::Pwd,
            Command::Type { target } => CommandView::Type { target: target@ },
            Command::Jobs => CommandView::Jobs,
            Command::Complete(op) => CommandView::Complete(op@),
        }
    }
}

/// The words joined with single spaces between them.
pub open spec fn join_spaced(ws: Seq<Seq<char>>) -> Seq<char>
    decreases ws.len(),
{
    if ws.len() == 0 {
        Seq::empty()
    } else if ws.len() == 1 {
        ws[0]
    } else {
        join_spaced(ws.drop_last()).push(' ') + ws.last()
    }
}

/// The command that a line's words name, if they form one: `exit`, `pwd`,
/// `echo`, `cd <dir>`, `type <name>`, `complete -C <path> <cmd>`,
/// `complete -r <cmd>`, `complete -p <cmd>`, `jobs`, or any other program
/// with its arguments. Missing operands, an unknown `complete` flag and an
/// empty line name no command.
pub open spec fn command_of(words: Seq<Seq<char>>) -> Option<CommandView> {
    if words.len() == 0 {
        None
    } else {
        let cmd = words[0];
        let rest = words.drop_first();
        if cmd == "exit"@ {
            Some(CommandView::Exit)
        } else if cmd == "pwd"@ {
            Some(CommandView::Pwd)
        } else if cmd == "echo"@ {
            Some(CommandView::Echo { output: join_spaced(rest) })
        } else if cmd == "cd"@ {
            if rest.len() >= 1 {
                Some(CommandView::Cd { path: rest[0] })
            } else {
                None
            }
        } else if cmd == "type"@ {
            if rest.len() >= 1 {
                Some(CommandView::Type { target: rest[0] })
            } else {
                None
            }
        } else if cmd == "complete"@ {
            if rest.len() == 0 {
                None
            } else if rest[0] == "-C"@ {
                if rest.len() >= 3 {
                    Some(CommandView::Complete(CompleteOpView::Register { cmd: rest[2], path: rest[1] }))
                } else {
                    None
                }
            } else if rest[0] == "-r"@ {
                if rest.len() >= 2 {
                    Some(CommandView::Complete(CompleteOpView::Unregister { cmd: rest[1] }))
                } else {
                    None
                }
            } else if rest[0] == "-p"@ {
                if rest.len() >= 2 {
                    Some(CommandView::Complete(CompleteOpView::Print { cmd: rest[1] }))
                } else {
                    None
                }
            } else {
                None
            }
        } else if cmd == "jobs"@ {
            Some(CommandView::Jobs)
        } else {
            Some(CommandView::External { args: rest, name: cmd })
        }
    }
}

/// Joins the strings with single spaces between them.
fn join_with_spaces(ws: &Vec<String>, from: usize) -> (s: String)
    requires
        from <= ws.len(),
    ensures
        s@ == join_spaced(views_of(ws@).skip(from as int)),
{
    let mut s = String::new();
    let mut i: usize = from;
    while i < ws.len()
        invariant
            from <= i <= ws.len(),
            s@ == join_spaced(views_of(ws@).subrange(from as int, i as int)),
        decreases ws.len() - i,
    {
        let ghost prev = views_of(ws@).subrange(from as int, i as int);
        let ghost next = views_of(ws@).subrange(from as int, i + 1);
        assert(next.drop_last() =~= prev);
        if i > from {
            push_char(&mut s, ' ');
        } else {
            assert(prev.len() == 0);
        }
        s.append(ws[i].as_str());
        i = i + 1;
    }
    assert(views_of(ws@).subrange(from as int, i as int) =~= views_of(ws@).skip(from as int));
    s
}

/// Copies the strings from position `from` on.
fn tail_of(ws: &Vec<String>, from: usize) -> (v: Vec<String>)
    requires
        from <= ws.len(),
    ensures
        views_of(v@) == views_of(ws@).skip(from as int),
{
    let mut v: Vec<String> = Vec::new();
    let mut i: usize = from;
    while i < ws.len()
        invariant
            from <= i <= ws.len(),
            views_of(v@) == views_of(ws@).subrange(from as int, i as int),
        decreases ws.len() - i,
    {
        let ghost before = v@;
        v.push(ws[i].clone());
        proof {
            assert(views_of(v@) =~= views_of(before).push(ws@[i as int]@));
            assert(views_of(v@) =~= views_of(ws@).subrange(from as int, i + 1));
        }
        i = i + 1;
    }
    assert(views_of(ws@).subrange(from as int, i as int) =~= views_of(ws@).skip(from as int));
    v
}

impl Command {
    /// The command that the words of a line name, if any.
    pub fn from_tokens(input: Vec<String>) -> (c: Option<Command>)
        ensures
            c matches Some(c) ==> command_of(views_of(input@)) == Some(c@),
            c is None ==> command_of(views_of(input@)) is None,
    {
        let ghost ws = views_of(input@);
        if input.len() == 0 {
            return None;
        }
        let cmd = input[0].as_str();
        assert(ws[0] == cmd@);
        assert(ws.drop_first() =~= ws.skip(1));
        if text_eq(cmd, "exit") {
            return Some(Command::Exit);
        }
        if text_eq(cmd, "pwd") {
            return Some(Command::Pwd);
        }
        if text_eq(cmd, "echo") {
            return Some(Command::Echo { output: join_with_spaces(&input, 1) });
        }
        if text_eq(cmd, "cd") {
            if input.len() < 2 {
                return None;
            }
            return Some(Command::Cd { path: input[1].clone() });
        }
        if text_eq(cmd, "type") {
            if input.len() < 2 {
                return None;
            }
            return Some(Command::Type { target: input[1].clone() });
        }
        if text_eq(cmd, "complete") {
            if input.len() < 2 {
                return None;
            }
            let flag = input[1].as_str();
            if text_eq(flag, "-C") {
                if input.len() < 4 {
                    return None;
                }
                return Some(
                    Command::Complete(
                        CompleteOp::Register { cmd: input[3].clone(), path: input[2].clone() },
                    ),
                );
            }
            if text_eq(flag, "-r") {
                if input.len() < 3 {
                    return None;
                }
                return Some(Command::Complete(CompleteOp::Unregister { cmd: input[2].clone() }));
            }
            if text_eq(flag, "-p") {
                if input.len() < 3 {
                    return None;
                }
                return Some(Command::Complete(CompleteOp::Print { cmd: input[2].clone() }));
            }
            return None;
        }
        if text_eq(cmd, "jobs") {
            return Some(Command::Jobs);
        }
        Some(Command::External { args: tail_of(&input, 1), name: input[0].clone() })
    }
}

/// A parsed command line.
pub struct ParsedLine {
    pub command: Command,
    pub background: bool,
    pub stderr: Option<Redirect>,
    pub stdout: Option<Redirect>,
}

/// The view of an optional redirection.
pub open spec fn redirect_view(r: Option<Redirect>) -> Option<RedirectView> {
    match r {
        Some(r) => Some(r@),
        None => None,
    }
}

/// The mathematical value of a [`ParsedLine`].
pub struct LineView {
    pub command: CommandView,
    pub background: bool,
    pub stderr: Option<RedirectView>,
    pub stdout: Option<RedirectView>,
}

impl View for ParsedLine {
    type V = LineView;

    open spec fn view(&self) -> LineView {
        LineView {
            command: self.command@,
            background: self.background,
            stderr: redirect_view(self.stderr),
            stdout: redirect_view(self.stdout),
        }
    }
}

/// What a line's tokens gather: its words, whether it runs in the
/// background, and where its two output streams go.
pub struct Gathered {
    pub words: Seq<Seq<char>>,
    pub background: bool,
    pub stdout: Option<RedirectView>,
    pub stderr: Option<RedirectView>,
}

/// Nothing gathered yet.
pub open spec fn gathered_init() -> Gathered {
    Gathered { words: Seq::empty(), background: false, stdout: None, stderr: None }
}

/// Gathers the tokens `toks` on top of `acc`, left to right. `&` marks the
/// line as a background one; a redirection operator takes the word after it
/// as its file, and a later redirection of a stream replaces an earlier one.
/// A redirection operator that is not followed by a word makes the line a
/// syntax error (`None`).
pub open spec fn gather(toks: Seq<TokenView>, acc: Gathered) -> Option<Gathered>
    decreases toks.len(),
{
    if toks.len() == 0 {
        Some(acc)
    } else {
        match toks[0] {
            TokenView::Background => gather(
                toks.drop_first(),
                Gathered { background: true, ..acc },
            ),
            TokenView::Word(w) => gather(toks.drop_first(), Gathered { words: acc.words.push(w), ..acc }),
            TokenView::Redirect { fd, mode } => {
                if toks.len() >= 2 && toks[1] is Word {
                    let r = Some(RedirectView { mode, path: toks[1]->Word_0 });
                    gather(
                        toks.skip(2),
                        match fd {
                            Fd::Stdout => Gathered { stdout: r, ..acc },
                            Fd::Stderr => Gathered { stderr: r, ..acc },
                        },
                    )
                } else {
                    None
                }
            },
        }
    }
}

/// The parse of a line: its tokens gathered, and their words turned into a
/// command.
pub open spec fn parse_spec(input: Seq<char>) -> Option<LineView> {
    match gather(tokenize_spec(input), gathered_init()) {
        None => None,
        Some(g) => match command_of(g.words) {
            None => None,
            Some(c) => Some(
                LineView { command: c, background: g.background, stderr: g.stderr, stdout: g.stdout },
            ),
        },
    }
}

impl ParsedLine {
    /// Parses a line of input. `None` stands for a line that names no
    /// command or holds a syntax error.
    pub fn parse(input: &str) -> (p: Option<ParsedLine>)
        ensures
            p matches Some(p) ==> parse_spec(input@) == Some(p@),
            p is None ==> parse_spec(input@) is None,
    {
        let cs = chars_of(input);
        let tokens = tokenize_chars(&cs);
        let ghost tv = token_views(tokens@);
        let mut stdout: Option<Redirect> = None;
        let mut stderr: Option<Redirect> = None;
        let mut background: bool = false;
        let mut words: Vec<String> = Vec::new();
        let mut i: usize = 0;
        assert(tv.skip(0) =~= tv);
        assert(views_of(words@) =~= Seq::<Seq<char>>::empty());
        assert(tv == tokenize_spec(input@));
        while i < tokens.len()
            invariant
                tv == token_views(tokens@),
                tv == tokenize_spec(input@),
                i <= tokens.len(),
                gather(tv.skip(i as int), Gathered {
                    words: views_of(words@),
                    background,
                    stdout: redirect_view(stdout),
                    stderr: redirect_view(stderr),
                }) == gather(tv, gathered_init()),
            decreases tokens.len() - i,
        {
            let ghost acc = Gathered {
                words: views_of(words@),
                background,
                stdout: redirect_view(stdout),
                stderr: redirect_view(stderr),
            };
            let ghost rest = tv.skip(i as int);
            assert(rest[0] == tv[i as int]);
            assert(rest.drop_first() =~= tv.skip(i + 1));
            match &tokens[i] {
                Token::Background => {
                    background = true;
                    i = i + 1;
                },
                Token::Word(w) => {
                    let ghost before = words@;
                    words.push(w.clone());
                    assert(views_of(words@) =~= views_of(before).push(w@));
                    i = i + 1;
                },
                Token::Redirect { fd, mode } => {
                    if i + 1 >= tokens.len() {
                        assert(gather(rest, acc) is None);
                        return None;
                    }
                    assert(rest[1] == tv[i + 1]);
                    let path = match &tokens[i + 1] {
                        Token::Word(p) => p.clone(),
                        _ => {
                            assert(gather(rest, acc) is None);
                            return None;
                        },
                    };
                    assert(rest.skip(2) =~= tv.skip(i + 2));
                    let r = Some(Redirect { mode: *mode, path });
                    match fd {
                        Fd::Stdout => {
                            stdout = r;
                        },
                        Fd::Stderr => {
                            stderr = r;
                        },
                    }
                    i = i + 2;
                },
            }
        }
        assert(tv.skip(i as int) =~= Seq::<TokenView>::empty());
        let command = match Command::from_tokens(words) {
            Some(c) => c,
            None => {
                return None;
            },
        };
        Some(ParsedLine { background, command, stderr, stdout })
    }
}

} // verus!

verus! {

/// Whatever a quoted word reads, it is a word: quoting turns off the
/// redirection and background operators.
pub proof fn law_quoted_text_is_word(text: Seq<char>)
    ensures
        classify_spec(text, true) == TokenView::Word(text),
{
}

/// All characters of `w` are whitespace.
pub open spec fn all_ws(w: Seq<char>) -> bool {
    forall|i: int| 0 <= i < w.len() ==> is_ws(#[trigger] w[i])
}

/// The lexer's state after reading `s`, starting in state `st`.
pub open spec fn lex_from(st: LexState, s: Seq<char>) -> LexState
    decreases s.len(),
{
    if s.len() == 0 {
        st
    } else {
        lex_step(lex_from(st, s.drop_last()), s.last())
    }
}

/// Reading `s` ends outside quotes and not right after a backslash.
pub open spec fn settled(s: Seq<char>) -> bool {
    lex_run(s).quote == QuoteState::Outside && !lex_run(s).escaped
}

proof fn lemma_lex_run_from(s: Seq<char>)
    ensures
        lex_run(s) == lex_from(lex_init(), s),
    decreases s.len(),
{
    if s.len() > 0 {
        lemma_lex_run_from(s.drop_last());
    }
}

proof fn lemma_lex_from_concat(st: LexState, a: Seq<char>, b: Seq<char>)
    ensures
        lex_from(st, a + b) == lex_from(lex_from(st, a), b),
    decreases b.len(),
{
    if b.len() == 0 {
        assert(a + b =~= a);
    } else {
        assert((a + b).drop_last() =~= a + b.drop_last());
        assert((a + b).last() == b.last());
        lemma_lex_from_concat(st, a, b.drop_last());
    }
}

proof fn lemma_lex_leading_ws(w: Seq<char>)
    requires
        all_ws(w),
    ensures
        lex_from(lex_init(), w) == lex_init(),
    decreases w.len(),
{
    if w.len() > 0 {
        assert(is_ws(w[w.len() - 1]));
        lemma_lex_leading_ws(w.drop_last());
    }
}

proof fn lemma_lex_trailing_ws(st: LexState, w: Seq<char>)
    requires
        all_ws(w),
        st.quote == QuoteState::Outside,
        !st.escaped,
    ensures
        lex_from(st, w).quote == QuoteState::Outside,
        !lex_from(st, w).escaped,
        finish_tokens(lex_from(st, w)) == finish_tokens(st),
    decreases w.len(),
{
    if w.len() > 0 {
        assert(is_ws(w[w.len() - 1]));
        lemma_lex_trailing_ws(st, w.drop_last());
    }
}

/// Whitespace around a line that ends outside quotes and not right after
/// a backslash does not change its tokens.
pub proof fn law_tokens_ignore_surrounding_whitespace(pre: Seq<char>, s: Seq<char>, post: Seq<char>)
    requires
        all_ws(pre),
        all_ws(post),
        settled(s),
    ensures
        tokenize_spec(pre + s + post) == tokenize_spec(s),
{
    lemma_lex_run_from(pre + s + post);
    lemma_lex_run_from(s);
    lemma_lex_from_concat(lex_init(), pre + s, post);
    lemma_lex_from_concat(lex_init(), pre, s);
    lemma_lex_leading_ws(pre);
    lemma_lex_trailing_ws(lex_run(s), post);
}

/// Whitespace around a line that ends outside quotes and not right after
/// a backslash does not change its parse. (Escaped or quoted whitespace is
/// part of a word, and stays.)
pub proof fn law_parse_ignores_surrounding_whitespace(pre: Seq<char>, s: Seq<char>, post: Seq<char>)
    requires
        all_ws(pre),
        all_ws(post),
        settled(s),
    ensures
        parse_spec(pre + s + post) == parse_spec(s),
{
    law_tokens_ignore_surrounding_whitespace(pre, s, post);
}

/// A redirection operator at the end of a line has no file to name: the
/// line is a syntax error.
pub proof fn law_dangling_redirect(toks: Seq<TokenView>, acc: Gathered)
    requires
        toks.len() > 0,
        toks.last() is Redirect,
    ensures
        gather(toks, acc) is None,
    decreases toks.len(),
{
    if toks.len() > 1 {
        match toks[0] {
            TokenView::Background => {
                assert(toks.drop_first().last() == toks.last());
                law_dangling_redirect(toks.drop_first(), Gathered { background: true, ..acc });
            },
            TokenView::Word(w) => {
                assert(toks.drop_first().last() == toks.last());
                law_dangling_redirect(toks.drop_first(), Gathered { words: acc.words.push(w), ..acc });
            },
            TokenView::Redirect { fd, mode } => {
                if toks[1] is Word {
                    assert(toks.len() > 2);
                    assert(toks.skip(2).last() == toks.last());
                    let r = Some(RedirectView { mode, path: toks[1]->Word_0 });
                    law_dangling_redirect(
                        toks.skip(2),
                        match fd {
                            Fd::Stdout => Gathered { stdout: r, ..acc },
                            Fd::Stderr => Gathered { stderr: r, ..acc },
                        },
                    );
                }
            },
        }
    }
}

/// No character that quotes or escapes.
pub open spec fn unquoted(s: Seq<char>) -> bool {
    forall|i: int| 0 <= i < s.len() ==> #[trigger] s[i] != '\\' && s[i] != '\'' && s[i] != '"'
}

proof fn lemma_plain_lex(s: Seq<char>)
    requires
        unquoted(s),
    ensures
        lex_run(s).tokens == crate::text::word_run(s).words.map_values(
            |w: Seq<char>| classify_spec(w, false),
        ),
        lex_run(s).current == crate::text::word_run(s).current,
        lex_run(s).in_token == (lex_run(s).current.len() > 0),
        !lex_run(s).quoted,
        !lex_run(s).escaped,
        lex_run(s).quote == QuoteState::Outside,
    decreases s.len(),
{
    if s.len() > 0 {
        let p = s.drop_last();
        assert(unquoted(p)) by {
            assert forall|i: int| 0 <= i < p.len() implies #[trigger] p[i] != '\\' && p[i] != '\''
                && p[i] != '"' by {
                assert(p[i] == s[i]);
            }
        }
        lemma_plain_lex(p);
        assert(s.last() == s[s.len() - 1]);
        let w = crate::text::word_run(p);
        assert(w.words.push(w.current).map_values(|w: Seq<char>| classify_spec(w, false))
            =~= w.words.map_values(|w: Seq<char>| classify_spec(w, false)).push(
            classify_spec(w.current, false),
        ));
    }
}

/// Text without quotes or backslashes splits into its whitespace-separated
/// words, each read as an unquoted word (so that `>`, `>>`, `2>`, `&` and
/// the like become operators).
pub proof fn law_plain_text_splits_on_whitespace(s: Seq<char>)
    requires
        unquoted(s),
    ensures
        tokenize_spec(s) == crate::text::words_spec(s).map_values(
            |w: Seq<char>| classify_spec(w, false),
        ),
{
    lemma_plain_lex(s);
    let w = crate::text::word_run(s);
    assert(w.words.push(w.current).map_values(|w: Seq<char>| classify_spec(w, false))
        =~= w.words.map_values(|w: Seq<char>| classify_spec(w, false)).push(
        classify_spec(w.current, false),
    ));
}

} // verus!

verus! {

/// The lexer's state inside an open quote, after the quoted text `t`.
pub open spec fn inside_quotes(t: Seq<char>, quote: QuoteState) -> LexState {
    LexState {
        tokens: Seq::empty(),
        current: t,
        in_token: true,
        quoted: true,
        escaped: false,
        quote,
    }
}

proof fn lemma_inside_quotes(open: char, t: Seq<char>, quote: QuoteState, k: int)
    requires
        (open == '\'' && quote == QuoteState::Single) || (open == '"' && quote
            == QuoteState::Double),
        0 <= k <= t.len(),
        forall|i: int|
            0 <= i < t.len() ==> #[trigger] t[i] != open && (quote == QuoteState::Double ==> t[i]
                != '\\'),
    ensures
        lex_run(seq![open] + t.take(k)) == inside_quotes(t.take(k), quote),
    decreases k,
{
    let p = seq![open] + t.take(k);
    if k == 0 {
        assert(p.drop_last() =~= Seq::<char>::empty());
        assert(t.take(0) =~= Seq::<char>::empty());
        assert(lex_run(p.drop_last()) == lex_init());
        assert(p.last() == open);
        assert(lex_run(p) == lex_step(lex_init(), open));
        assert(lex_step(lex_init(), open) =~= inside_quotes(Seq::empty(), quote));
    } else {
        lemma_inside_quotes(open, t, quote, k - 1);
        assert(p.drop_last() =~= seq![open] + t.take(k - 1));
        assert(p.last() == t[k - 1]);
        assert(t.take(k - 1).push(t[k - 1]) =~= t.take(k));
        assert(lex_run(p) == lex_step(lex_run(p.drop_last()), p.last()));
    }
}

/// Text in single quotes is taken literally, whitespace, operators and
/// backslashes included: it makes one word.
pub proof fn law_single_quotes_are_literal(t: Seq<char>)
    requires
        forall|i: int| 0 <= i < t.len() ==> #[trigger] t[i] != '\'',
    ensures
        tokenize_spec(seq!['\''] + t + seq!['\'']) == seq![TokenView::Word(t)],
{
    lemma_inside_quotes('\'', t, QuoteState::Single, t.len() as int);
    assert(t.take(t.len() as int) =~= t);
    let s = seq!['\''] + t + seq!['\''];
    assert(s.drop_last() =~= seq!['\''] + t.take(t.len() as int));
    assert(tokenize_spec(s) =~= seq![TokenView::Word(t)]);
}

/// Text in double quotes without backslashes or double quotes is taken
/// literally, whitespace and operators included: it makes one word.
pub proof fn law_double_quotes_are_literal(t: Seq<char>)
    requires
        forall|i: int| 0 <= i < t.len() ==> #[trigger] t[i] != '"' && t[i] != '\\',
    ensures
        tokenize_spec(seq!['"'] + t + seq!['"']) == seq![TokenView::Word(t)],
{
    lemma_inside_quotes('"', t, QuoteState::Double, t.len() as int);
    assert(t.take(t.len() as int) =~= t);
    let s = seq!['"'] + t + seq!['"'];
    assert(s.drop_last() =~= seq!['"'] + t.take(t.len() as int));
    assert(tokenize_spec(s) =~= seq![TokenView::Word(t)]);
}

} // verus!

verus! {

/// Every redirection operator is directly followed by a word.
pub open spec fn well_redirected(ts: Seq<TokenView>) -> bool {
    forall|i: int|
        0 <= i < ts.len() && (#[trigger] ts[i]) is Redirect ==> i + 1 < ts.len() && ts[i + 1] is Word
}

/// Some token is `&`.
pub open spec fn has_background(ts: Seq<TokenView>) -> bool {
    exists|i: int| 0 <= i < ts.len() && (#[trigger] ts[i]) is Background
}

/// The words of the tokens, in order, except those that directly follow a
/// redirection operator (the redirections' files).
pub open spec fn free_words(ts: Seq<TokenView>) -> Seq<Seq<char>>
    decreases ts.len(),
{
    if ts.len() == 0 {
        Seq::empty()
    } else if ts.last() is Word && !(ts.len() >= 2 && ts[ts.len() - 2] is Redirect) {
        free_words(ts.drop_last()).push(ts.last()->Word_0)
    } else {
        free_words(ts.drop_last())
    }
}

/// The last redirection of `fd` that is followed by a word, with that word
/// as its file; `None` without one.
pub open spec fn last_redirect(ts: Seq<TokenView>, fd: Fd) -> Option<RedirectView>
    decreases ts.len(),
{
    if ts.len() < 2 {
        None
    } else if ts[ts.len() - 2] is Redirect && ts[ts.len() - 2]->fd == fd && ts.last() is Word {
        Some(RedirectView { mode: ts[ts.len() - 2]->mode, path: ts.last()->Word_0 })
    } else {
        last_redirect(ts.drop_last(), fd)
    }
}

proof fn lemma_gather_split(a: Seq<TokenView>, b: Seq<TokenView>, acc: Gathered)
    requires
        a.len() == 0 || !(a.last() is Redirect),
    ensures
        gather(a + b, acc) == (match gather(a, acc) {
            Some(g) => gather(b, g),
            None => None,
        }),
    decreases a.len(),
{
    let ab = a + b;
    if a.len() == 0 {
        assert(ab =~= b);
    } else {
        assert(ab[0] == a[0]);
        match a[0] {
            TokenView::Background => {
                assert(ab.drop_first() =~= a.drop_first() + b);
                if a.len() > 1 {
                    assert(a.drop_first().last() == a.last());
                }
                lemma_gather_split(a.drop_first(), b, Gathered { background: true, ..acc });
            },
            TokenView::Word(w) => {
                assert(ab.drop_first() =~= a.drop_first() + b);
                if a.len() > 1 {
                    assert(a.drop_first().last() == a.last());
                }
                lemma_gather_split(a.drop_first(), b, Gathered { words: acc.words.push(w), ..acc });
            },
            TokenView::Redirect { fd, mode } => {
                assert(a.len() >= 2);
                assert(ab[1] == a[1]);
                if a[1] is Word {
                    assert(ab.skip(2) =~= a.skip(2) + b);
                    if a.len() > 2 {
                        assert(a.skip(2).last() == a.last());
                    }
                    let r = Some(RedirectView { mode, path: a[1]->Word_0 });
                    lemma_gather_split(
                        a.skip(2),
                        b,
                        match fd {
                            Fd::Stdout => Gathered { stdout: r, ..acc },
                            Fd::Stderr => Gathered { stderr: r, ..acc },
                        },
                    );
                }
            },
        }
    }
}

proof fn lemma_gather_rejects(ts: Seq<TokenView>, acc: Gathered)
    requires
        !well_redirected(ts),
    ensures
        gather(ts, acc) is None,
    decreases ts.len(),
{
    let i = choose|i: int|
        0 <= i < ts.len() && (#[trigger] ts[i]) is Redirect && !(i + 1 < ts.len() && ts[i + 1] is Word);
    match ts[0] {
        TokenView::Background => {
            let rest = ts.drop_first();
            assert(rest[i - 1] == ts[i]);
            if i < ts.len() - 1 {
                assert(rest[i] == ts[i + 1]);
            }
            lemma_gather_rejects(rest, Gathered { background: true, ..acc });
        },
        TokenView::Word(w) => {
            let rest = ts.drop_first();
            assert(rest[i - 1] == ts[i]);
            if i < ts.len() - 1 {
                assert(rest[i] == ts[i + 1]);
            }
            lemma_gather_rejects(rest, Gathered { words: acc.words.push(w), ..acc });
        },
        TokenView::Redirect { fd, mode } => {
            if ts.len() >= 2 && ts[1] is Word {
                let rest = ts.skip(2);
                assert(i >= 2);
                assert(rest[i - 2] == ts[i]);
                if i < ts.len() - 1 {
                    assert(rest[i - 1] == ts[i + 1]);
                }
                let r = Some(RedirectView { mode, path: ts[1]->Word_0 });
                lemma_gather_rejects(
                    rest,
                    match fd {
                        Fd::Stdout => Gathered { stdout: r, ..acc },
                        Fd::Stderr => Gathered { stderr: r, ..acc },
                    },
                );
            }
        },
    }
}

/// What a well-redirected token sequence gathers, stated directly.
pub open spec fn gathered_summary(ts: Seq<TokenView>) -> Gathered {
    Gathered {
        words: free_words(ts),
        background: has_background(ts),
        stdout: last_redirect(ts, Fd::Stdout),
        stderr: last_redirect(ts, Fd::Stderr),
    }
}

proof fn lemma_well_prefix(ts: Seq<TokenView>, k: int)
    requires
        well_redirected(ts),
        0 <= k <= ts.len(),
        k == 0 || !(ts[k - 1] is Redirect),
    ensures
        well_redirected(ts.take(k)),
{
    let a = ts.take(k);
    assert forall|i: int| 0 <= i < a.len() && (#[trigger] a[i]) is Redirect implies i + 1 < a.len()
        && a[i + 1] is Word by {
        assert(a[i] == ts[i]);
        assert(ts[i + 1] is Word);
    }
}

/// The gathering after a redirection operator and its file.
pub open spec fn with_redirect(g: Gathered, fd: Fd, mode: Mode, path: Seq<char>) -> Gathered {
    let r = Some(RedirectView { mode, path });
    match fd {
        Fd::Stdout => Gathered { stdout: r, ..g },
        Fd::Stderr => Gathered { stderr: r, ..g },
    }
}

proof fn lemma_gather_pair(g: Gathered, fd: Fd, mode: Mode, w: Seq<char>)
    ensures
        gather(seq![TokenView::Redirect { fd, mode }, TokenView::Word(w)], g) == Some(
            with_redirect(g, fd, mode, w),
        ),
{
    let b = seq![TokenView::Redirect { fd, mode }, TokenView::Word(w)];
    assert(b.skip(2) =~= Seq::<TokenView>::empty());
    assert(b[0] == TokenView::Redirect { fd, mode });
    assert(b[1] == TokenView::Word(w));
    let g2 = with_redirect(g, fd, mode, w);
    assert(gather(b.skip(2), g2) == Some(g2));
    assert(gather(b, g) == gather(b.skip(2), g2));
}

proof fn lemma_gather_one(g: Gathered, t: TokenView)
    requires
        !(t is Redirect),
    ensures
        gather(seq![t], g) == Some(
            match t {
                TokenView::Word(w) => Gathered { words: g.words.push(w), ..g },
                _ => Gathered { background: true, ..g },
            },
        ),
{
    let b = seq![t];
    assert(b.drop_first() =~= Seq::<TokenView>::empty());
    assert(b[0] == t);
    let g2 = match t {
        TokenView::Word(w) => Gathered { words: g.words.push(w), ..g },
        _ => Gathered { background: true, ..g },
    };
    assert(gather(b.drop_first(), g2) == Some(g2));
    assert(gather(b, g) == gather(b.drop_first(), g2));
}

proof fn lemma_background_prefix(ts: Seq<TokenView>, k: int)
    requires
        0 <= k <= ts.len(),
    ensures
        has_background(ts) == (has_background(ts.take(k)) || exists|i: int|
            k <= i < ts.len() && (#[trigger] ts[i]) is Background),
{
    let a = ts.take(k);
    if has_background(ts) {
        let i = choose|i: int| 0 <= i < ts.len() && (#[trigger] ts[i]) is Background;
        if i < k {
            assert(a[i] == ts[i]);
        }
    }
    if has_background(a) {
        let i = choose|i: int| 0 <= i < a.len() && (#[trigger] a[i]) is Background;
        assert(ts[i] == a[i]);
    }
}

proof fn lemma_summary_with_file(ts: Seq<TokenView>)
    requires
        ts.len() >= 2,
        ts.last() is Word,
        ts[ts.len() - 2] is Redirect,
    ensures
        gathered_summary(ts) == with_redirect(
            gathered_summary(ts.take(ts.len() - 2)),
            ts[ts.len() - 2]->fd,
            ts[ts.len() - 2]->mode,
            ts.last()->Word_0,
        ),
{
    let n = ts.len() as int;
    let a = ts.take(n - 2);
    let d = ts.drop_last();
    assert(d.drop_last() =~= a);
    assert(d.last() == ts[n - 2]);
    assert(free_words(ts) == free_words(d));
    assert(free_words(d) == free_words(a));
    lemma_background_prefix(ts, n - 2);
    assert(has_background(ts) == has_background(a));
    let other = match ts[n - 2]->fd {
        Fd::Stdout => Fd::Stderr,
        Fd::Stderr => Fd::Stdout,
    };
    assert(last_redirect(ts, other) == last_redirect(d, other));
    if n >= 3 {
        assert(d[n - 3] == ts[n - 3]);
    }
    assert(last_redirect(d, other) == last_redirect(a, other));
    assert(gathered_summary(ts) =~= with_redirect(
        gathered_summary(a),
        ts[n - 2]->fd,
        ts[n - 2]->mode,
        ts.last()->Word_0,
    ));
}

proof fn lemma_summary_single(ts: Seq<TokenView>)
    requires
        ts.len() >= 1,
        !(ts.last() is Redirect),
        !(ts.len() >= 2 && ts[ts.len() - 2] is Redirect),
    ensures
        gathered_summary(ts) == (match ts.last() {
            TokenView::Word(w) => Gathered {
                words: gathered_summary(ts.drop_last()).words.push(w),
                ..gathered_summary(ts.drop_last())
            },
            _ => Gathered { background: true, ..gathered_summary(ts.drop_last()) },
        }),
{
    let n = ts.len() as int;
    let a = ts.drop_last();
    assert(ts.take(n - 1) =~= a);
    lemma_background_prefix(ts, n - 1);
    if ts.last() is Background {
        assert(ts[n - 1] is Background);
    }
    let g = gathered_summary(a);
    let expected = match ts.last() {
        TokenView::Word(w) => Gathered { words: g.words.push(w), ..g },
        _ => Gathered { background: true, ..g },
    };
    assert(gathered_summary(ts) =~= expected);
}

proof fn lemma_gather_accepts(ts: Seq<TokenView>)
    requires
        well_redirected(ts),
    ensures
        gather(ts, gathered_init()) == Some(gathered_summary(ts)),
    decreases ts.len(),
{
    let n = ts.len() as int;
    if n == 0 {
        assert(gathered_summary(ts) =~= gathered_init());
        return;
    }
    assert(!(ts[n - 1] is Redirect));
    if ts[n - 1] is Word && n >= 2 && ts[n - 2] is Redirect {
        if n >= 3 && ts[n - 3] is Redirect {
            assert(ts[n - 2] is Word);
        }
        let a = ts.take(n - 2);
        lemma_well_prefix(ts, n - 2);
        lemma_gather_accepts(a);
        let b = seq![ts[n - 2], ts[n - 1]];
        assert(ts =~= a + b);
        if a.len() > 0 {
            assert(a.last() == ts[n - 3]);
        }
        lemma_gather_split(a, b, gathered_init());
        lemma_gather_pair(gathered_summary(a), ts[n - 2]->fd, ts[n - 2]->mode, ts[n - 1]->Word_0);
        assert(b == seq![
            TokenView::Redirect { fd: ts[n - 2]->fd, mode: ts[n - 2]->mode },
            TokenView::Word(ts[n - 1]->Word_0),
        ]);
        lemma_summary_with_file(ts);
    } else {
        if n >= 2 && ts[n - 2] is Redirect {
            assert(ts[n - 1] is Word);
        }
        let a = ts.drop_last();
        lemma_well_prefix(ts, n - 1);
        assert(ts.take(n - 1) =~= a);
        lemma_gather_accepts(a);
        let b = seq![ts[n - 1]];
        assert(ts =~= a + b);
        if a.len() > 0 {
            assert(a.last() == ts[n - 2]);
        }
        lemma_gather_split(a, b, gathered_init());
        lemma_gather_one(gathered_summary(a), ts[n - 1]);
        lemma_summary_single(ts);
    }
}

/// What `parse` gives, stated without the token-by-token walk: with `ts`
/// the tokens of the line, a line is rejected exactly when some
/// redirection operator is not directly followed by a word or the free
/// words (those that are not a redirection's file) name no command.
/// Otherwise the command is the one the free words name, the line runs in
/// the background exactly when some token is `&`, and each stream goes to
/// the file of its last redirection.
pub proof fn law_parse_characterised(s: Seq<char>)
    ensures
        ({
            let ts = tokenize_spec(s);
            &&& (parse_spec(s) is None <==> (!well_redirected(ts) || command_of(free_words(ts)) is None))
            &&& (parse_spec(s) matches Some(l) ==> {
                &&& command_of(free_words(ts)) == Some(l.command)
                &&& l.background == has_background(ts)
                &&& l.stdout == last_redirect(ts, Fd::Stdout)
                &&& l.stderr == last_redirect(ts, Fd::Stderr)
            })
        }),
{
    let ts = tokenize_spec(s);
    if well_redirected(ts) {
        lemma_gather_accepts(ts);
    } else {
        lemma_gather_rejects(ts, gathered_init());
    }
}

} // verus!

verus! {

/// Where no word is in progress, the next word starts unquoted.
proof fn lemma_idle_unquoted(s: Seq<char>)
    ensures
        lex_run(s).in_token || (!lex_run(s).quoted && lex_run(s).current.len() == 0),
    decreases s.len(),
{
    if s.len() > 0 {
        lemma_idle_unquoted(s.drop_last());
    }
}

/// `st` with `front` put before its finished tokens.
pub open spec fn after_tokens(st: LexState, front: Seq<TokenView>) -> LexState {
    LexState { tokens: front + st.tokens, ..st }
}

proof fn lemma_lex_from_after_tokens(front: Seq<TokenView>, b: Seq<char>)
    ensures
        lex_from(after_tokens(lex_init(), front), b) == after_tokens(lex_from(lex_init(), b), front),
    decreases b.len(),
{
    if b.len() == 0 {
        assert(front + Seq::<TokenView>::empty() =~= front);
    } else {
        lemma_lex_from_after_tokens(front, b.drop_last());
        let st = lex_from(lex_init(), b.drop_last());
        let c = b.last();
        let t1 = lex_step(after_tokens(st, front), c);
        let t2 = after_tokens(lex_step(st, c), front);
        if !st.escaped && st.quote == QuoteState::Outside && is_ws(c) && st.in_token && c != '\\'
            && c != '\'' && c != '"' {
            assert((front + st.tokens).push(classify_spec(st.current, st.quoted)) =~= front + st.tokens.push(
                classify_spec(st.current, st.quoted),
            ));
        }
        assert(t1.tokens =~= t2.tokens);
        assert(t1 == t2);
    }
}

/// Tokenizing splits at unquoted whitespace: a line that ends outside quotes
/// and not right after a backslash, followed by a space and more text,
/// gives its own tokens followed by those of the rest. In particular each
/// word after the space is read afresh, unquoted unless quoted itself, so an
/// unquoted `>` after a quoted word is a redirection.
pub proof fn law_tokens_split_at_space(a: Seq<char>, b: Seq<char>)
    requires
        settled(a),
    ensures
        tokenize_spec(a + seq![' '] + b) == tokenize_spec(a) + tokenize_spec(b),
{
    let sp = a + seq![' '];
    assert(sp.drop_last() =~= a);
    assert(sp.last() == ' ');
    lemma_idle_unquoted(a);
    assert(is_ws(' '));
    let front = tokenize_spec(a);
    assert(front + Seq::<TokenView>::empty() =~= front);
    assert(lex_run(sp) == lex_step(lex_run(a), ' '));
    let st0 = lex_run(a);
    let r = lex_run(sp);
    let goal = after_tokens(lex_init(), front);
    assert(r.tokens =~= goal.tokens);
    assert(r.current =~= goal.current);
    assert(r == goal);
    lemma_lex_run_from(sp + b);
    lemma_lex_run_from(sp);
    lemma_lex_run_from(b);
    lemma_lex_from_concat(lex_init(), sp, b);
    lemma_lex_from_after_tokens(front, b);
    let st = lex_run(b);
    if st.in_token {
        assert((front + st.tokens).push(classify_spec(st.current, st.quoted)) =~= front + st.tokens.push(
            classify_spec(st.current, st.quoted),
        ));
    }
}

} // verus!

verus! {

/// The total number of characters of the words.
pub open spec fn total_len(ws: Seq<Seq<char>>) -> nat
    decreases ws.len(),
{
    if ws.len() == 0 {
        0
    } else {
        total_len(ws.drop_last()) + ws.last().len()
    }
}

/// `echo` prints every argument: joining one more word adds a space and
/// that word to the end of what the others join to.
pub proof fn law_join_appends_word(ws: Seq<Seq<char>>, w: Seq<char>)
    requires
        ws.len() > 0,
    ensures
        join_spaced(ws.push(w)) == join_spaced(ws).push(' ') + w,
{
    assert(ws.push(w).drop_last() =~= ws);
}

/// The joined text holds every character of every word and exactly one
/// space between each two neighbouring words.
pub proof fn law_join_length(ws: Seq<Seq<char>>)
    requires
        ws.len() > 0,
    ensures
        join_spaced(ws).len() == total_len(ws) + ws.len() - 1,
    decreases ws.len(),
{
    if ws.len() > 1 {
        let p = ws.drop_last();
        law_join_length(p);
        assert(join_spaced(ws) == join_spaced(p).push(' ') + ws.last());
        assert(total_len(ws) == total_len(p) + ws.last().len());
    } else {
        assert(ws.drop_last() =~= Seq::<Seq<char>>::empty());
        assert(total_len(ws.drop_last()) == 0);
        assert(ws.last() == ws[0]);
    }
}

/// The joined text starts with the first word and ends with the last one.
pub proof fn law_join_ends(ws: Seq<Seq<char>>)
    requires
        ws.len() > 0,
    ensures
        ws[0].len() <= join_spaced(ws).len(),
        ws.last().len() <= join_spaced(ws).len(),
        join_spaced(ws).subrange(0, ws[0].len() as int) == ws[0],
        join_spaced(ws).subrange(
            join_spaced(ws).len() - ws.last().len(),
            join_spaced(ws).len() as int,
        ) == ws.last(),
    decreases ws.len(),
{
    let j = join_spaced(ws);
    if ws.len() == 1 {
        assert(j.subrange(0, ws[0].len() as int) =~= ws[0]);
        assert(j.subrange(j.len() - ws.last().len(), j.len() as int) =~= ws.last());
    } else {
        let p = ws.drop_last();
        law_join_ends(p);
        let jp = join_spaced(p);
        assert(p[0] == ws[0]);
        assert(j == jp.push(' ') + ws.last());
        assert(j.subrange(0, ws[0].len() as int) =~= jp.subrange(0, ws[0].len() as int));
        assert(j.subrange(j.len() - ws.last().len(), j.len() as int) =~= ws.last());
    }
}

} // verus!
