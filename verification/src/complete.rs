//! Tab completion.
//!
//! The word under the cursor is found with rustyline's `extract_word`.
//! The first word of a line completes to builtin and program names; a
//! later word of a command with a registered completer is completed by
//! running that completer; any other word completes to file names.
//! Candidates are then finished the way bash shows them.

use vstd::prelude::*;

use crate::completions::Completions;
use crate::exec::{builtin_names, builtins};
use crate::order::{sorted_unique, strictly_sorted};
use crate::text::{chars_of, is_whitespace, is_ws, lines, lines_spec, push_char, split_whitespace, views_of, words_spec};
use vstd::string::StringSliceAdditionalSpecFns;
use vstd::utf8::{decode_utf8, encode_utf8, valid_utf8};

verus! {

broadcast use vstd::utf8::encode_utf8_decode_utf8;

// ------------------------------------------- outside calls -------------------------------------------

/// Position `j` of `cs` holds whitespace that is not right after a
/// backslash: a break between words.
pub open spec fn unescaped_break(cs: Seq<char>, j: int) -> bool {
    is_ws(cs[j]) && !(j >= 1 && cs[j - 1] == '\\')
}

/// The number of characters of `cs` before its last word: the position
/// just after its last unescaped whitespace character, or 0 without one.
pub open spec fn word_start_chars(cs: Seq<char>) -> nat
    decreases cs.len(),
{
    if cs.len() == 0 {
        0
    } else if unescaped_break(cs, cs.len() - 1) {
        cs.len()
    } else {
        word_start_chars(cs.drop_last())
    }
}

/// The byte where the word that ends at byte `pos` of `line` starts, with
/// `\` as escape character and whitespace as word breaks: the byte after
/// the last whitespace character before `pos` that does not directly follow
/// a backslash, or 0.
pub open spec fn word_start_of(line: Seq<char>, pos: usize) -> int {
    let before = decode_utf8(encode_utf8(line).subrange(0, pos as int));
    encode_utf8(before.take(word_start_chars(before) as int)).len() as int
}

/// `rustyline::completion::extract_word(line, pos, Some('\\'), is_whitespace)`:
/// the start of the word that ends at byte `pos`, and that word. The
/// function scans the text before `pos` backwards for a break character
/// (whitespace) and takes the byte after it as the start, unless a
/// backslash directly precedes it, in which case the scan goes on; without
/// such a break the start is 0. The start is a character boundary no later
/// than `pos`, and the word is the text between it and `pos`. It slices
/// `line` at `pos`, so `pos` must be a boundary within it.
#[verifier::external_body]
fn extract_word(line: &str, pos: usize) -> (r: (usize, &str))
    requires
        pos <= line.len(),
        line.is_char_boundary(pos),
    ensures
        r.0 as int == word_start_of(line@, pos),
        r.0 <= pos,
        line.is_char_boundary(r.0),
        r.1.spec_bytes() == line.spec_bytes().subrange(r.0 as int, pos as int),
{
    rustyline::completion::extract_word(line, pos, Some('\\'), is_whitespace)
}

/// The text that `String::from_utf8_lossy` makes of `bytes`.
pub uninterp spec fn lossy_text(bytes: Seq<u8>) -> Seq<char>;

/// `String::from_utf8_lossy`: the bytes as text, each invalid sequence
/// replaced by U+FFFD. Valid UTF-8 decodes to its own characters; what an
/// invalid sequence becomes is only named.
#[verifier::external_body]
fn text_of_bytes(bytes: &[u8]) -> (s: String)
    ensures
        s@ == lossy_text(bytes@),
        valid_utf8(bytes@) ==> s@ == decode_utf8(bytes@),
{
    String::from_utf8_lossy(bytes).into_owned()
}

// --------------------------------------------- candidates --------------------------------------------

/// A completion candidate: the text listed to the user, and the text put in
/// the line.
pub struct Candidate {
    pub display: String,
    pub replacement: String,
}

/// The mathematical value of a [`Candidate`].
pub struct CandidateView {
    pub display: Seq<char>,
    pub replacement: Seq<char>,
}

impl View for Candidate {
    type V = CandidateView;

    open spec fn view(&self) -> CandidateView {
        CandidateView { display: self.display@, replacement: self.replacement@ }
    }
}

/// The views of a sequence of candidates.
pub open spec fn candidate_views(cs: Seq<Candidate>) -> Seq<CandidateView> {
    cs.map_values(|c: Candidate| c@)
}

/// The candidate that lists and inserts `text`.
pub open spec fn plain_candidate(text: Seq<char>) -> CandidateView {
    CandidateView { display: text, replacement: text }
}

/// The candidates that list and insert each of `texts`.
pub open spec fn plain_candidates(texts: Seq<Seq<char>>) -> Seq<CandidateView> {
    texts.map_values(|t: Seq<char>| plain_candidate(t))
}

/// Turns each text into the candidate that lists and inserts it.
fn to_candidates(texts: Vec<String>) -> (cs: Vec<Candidate>)
    ensures
        candidate_views(cs@) == plain_candidates(views_of(texts@)),
{
    let mut cs: Vec<Candidate> = Vec::new();
    let mut i: usize = 0;
    while i < texts.len()
        invariant
            i <= texts.len(),
            candidate_views(cs@) == plain_candidates(views_of(texts@)).take(i as int),
        decreases texts.len() - i,
    {
        let t = texts[i].clone();
        let ghost before = cs@;
        let c = Candidate { display: t.clone(), replacement: t };
        assert(c@ == plain_candidate(views_of(texts@)[i as int]));
        cs.push(c);
        assert(candidate_views(cs@) =~= candidate_views(before).push(c@));
        assert(candidate_views(cs@) =~= plain_candidates(views_of(texts@)).take(i + 1));
        i = i + 1;
    }
    assert(plain_candidates(views_of(texts@)).take(i as int) =~= plain_candidates(
        views_of(texts@),
    ));
    cs
}

/// `s` begins with `prefix`.
pub open spec fn has_prefix(s: Seq<char>, prefix: Seq<char>) -> bool {
    prefix.len() <= s.len() && s.take(prefix.len() as int) == prefix
}

/// Whether `s` begins with `prefix`.
fn starts_with(s: &Vec<char>, prefix: &Vec<char>) -> (b: bool)
    ensures
        b == has_prefix(s@, prefix@),
{
    if prefix.len() > s.len() {
        return false;
    }
    let mut i: usize = 0;
    while i < prefix.len()
        invariant
            prefix.len() <= s.len(),
            i <= prefix.len(),
            forall|j: int| 0 <= j < i ==> s@[j] == prefix@[j],
        decreases prefix.len() - i,
    {
        if s[i] != prefix[i] {
            assert(s@.take(prefix.len() as int)[i as int] != prefix@[i as int]);
            return false;
        }
        i = i + 1;
    }
    assert(s@.take(prefix.len() as int) =~= prefix@);
    true
}

/// The names a first word completes to: builtins and programs that begin
/// with the word.
pub open spec fn command_matches(executables: Seq<Seq<char>>, prefix: Seq<char>) -> Set<Seq<char>> {
    (builtin_names() + executables).to_set().filter(|n: Seq<char>| has_prefix(n, prefix))
}

/// `cs` lists each builtin or program name that begins with `prefix`,
/// once, in lexicographic order.
pub open spec fn command_candidates(
    cs: Seq<CandidateView>,
    executables: Seq<Seq<char>>,
    prefix: Seq<char>,
) -> bool {
    exists|names: Seq<Seq<char>>|
        {
            &&& cs == plain_candidates(names)
            &&& strictly_sorted(names)
            &&& names.to_set() == command_matches(executables, prefix)
        }
}

/// The candidates for a first word: each builtin or program name that
/// begins with `prefix`, once, in lexicographic order.
pub fn complete_command(executables: &Vec<String>, prefix: &str) -> (cs: Vec<Candidate>)
    ensures
        command_candidates(candidate_views(cs@), views_of(executables@), prefix@),
        forall|i: int|
            0 <= i < cs@.len() ==> {
                let n = (#[trigger] cs@[i]).replacement@;
                &&& prefix@.len() <= n.len()
                &&& n.subrange(0, prefix@.len() as int) == prefix@
                &&& cs@[i].display@ == n
                &&& (builtin_names() + views_of(executables@)).contains(n)
            },
        forall|n: Seq<char>|
            (builtin_names() + views_of(executables@)).contains(n) && prefix@.len() <= n.len()
                && n.subrange(0, prefix@.len() as int) == prefix@ ==> exists|i: int|
                0 <= i < cs@.len() && (#[trigger] cs@[i]).replacement@ == n,
{
    let p = chars_of(prefix);
    let mut all = builtins();
    let mut k: usize = 0;
    let ghost pool = builtin_names() + views_of(executables@);
    while k < executables.len()
        invariant
            k <= executables.len(),
            views_of(all@) == builtin_names() + views_of(executables@).take(k as int),
        decreases executables.len() - k,
    {
        let ghost before = all@;
        let e = executables[k].clone();
        assert(e@ == views_of(executables@)[k as int]);
        all.push(e);
        assert(views_of(all@) =~= views_of(before).push(e@));
        assert(views_of(all@) =~= builtin_names() + views_of(executables@).take(k + 1));
        k = k + 1;
    }
    assert(views_of(executables@).take(k as int) =~= views_of(executables@));
    let mut matching: Vec<String> = Vec::new();
    let mut i: usize = 0;
    while i < all.len()
        invariant
            i <= all.len(),
            views_of(all@) == pool,
            forall|x: Seq<char>|
                views_of(matching@).contains(x) <==> (exists|j: int|
                    0 <= j < i && #[trigger] pool[j] == x && has_prefix(x, p@)),
        decreases all.len() - i,
    {
        let n = chars_of(all[i].as_str());
        assert(n@ == pool[i as int]);
        if starts_with(&n, &p) {
            let ghost before = views_of(matching@);
            matching.push(all[i].clone());
            assert(views_of(matching@) =~= before.push(n@));
            assert forall|x: Seq<char>|
                views_of(matching@).contains(x) <==> (exists|j: int|
                    0 <= j < i + 1 && #[trigger] pool[j] == x && has_prefix(x, p@)) by {
                if views_of(matching@).contains(x) {
                    let m = choose|m: int| 0 <= m < views_of(matching@).len() && views_of(matching@)[m] == x;
                    if m < before.len() {
                        assert(before[m] == x);
                        assert(before.contains(x));
                    } else {
                        assert(pool[i as int] == x);
                    }
                }
                if exists|j: int| 0 <= j < i + 1 && #[trigger] pool[j] == x && has_prefix(x, p@) {
                    let j = choose|j: int| 0 <= j < i + 1 && #[trigger] pool[j] == x && has_prefix(x, p@);
                    if j < i {
                        assert(before.contains(x));
                        let m = choose|m: int| 0 <= m < before.len() && before[m] == x;
                        assert(views_of(matching@)[m] == x);
                    } else {
                        assert(views_of(matching@)[before.len() as int] == x);
                    }
                }
            }
        } else {
            assert forall|x: Seq<char>|
                views_of(matching@).contains(x) <==> (exists|j: int|
                    0 <= j < i + 1 && #[trigger] pool[j] == x && has_prefix(x, p@)) by {
                if exists|j: int| 0 <= j < i + 1 && #[trigger] pool[j] == x && has_prefix(x, p@) {
                    let j = choose|j: int| 0 <= j < i + 1 && #[trigger] pool[j] == x && has_prefix(x, p@);
                    if j == i {
                        assert(false);
                    }
                }
            }
        }
        i = i + 1;
    }
    let names = sorted_unique(matching);
    proof {
        assert forall|x: Seq<char>| #[trigger] views_of(names@).to_set().contains(x) == command_matches(
            views_of(executables@),
            prefix@,
        ).contains(x) by {
            assert(views_of(names@).to_set().contains(x) == views_of(matching@).to_set().contains(x));
            assert(views_of(matching@).to_set().contains(x) == views_of(matching@).contains(x));
            assert(pool.to_set().contains(x) == pool.contains(x));
        }
        assert(views_of(names@).to_set() =~= command_matches(views_of(executables@), prefix@));
    }
    let cs = to_candidates(names);
    assert(candidate_views(cs@) == plain_candidates(views_of(names@)));
    proof {
        let nv = views_of(names@);
        let pool = builtin_names() + views_of(executables@);
        assert forall|i: int| 0 <= i < cs@.len() implies {
            let n = (#[trigger] cs@[i]).replacement@;
            &&& prefix@.len() <= n.len()
            &&& n.subrange(0, prefix@.len() as int) == prefix@
            &&& cs@[i].display@ == n
            &&& pool.contains(n)
        } by {
            assert(candidate_views(cs@)[i] == plain_candidate(nv[i]));
            assert(nv.contains(nv[i]));
            assert(nv.to_set().contains(nv[i]));
            assert(command_matches(views_of(executables@), prefix@).contains(nv[i]));
            assert(pool.to_set().contains(nv[i]));
            assert(nv[i].take(prefix@.len() as int) == nv[i].subrange(0, prefix@.len() as int));
        }
        assert forall|n: Seq<char>|
            pool.contains(n) && prefix@.len() <= n.len() && n.subrange(0, prefix@.len() as int)
                == prefix@ implies exists|i: int|
            0 <= i < cs@.len() && (#[trigger] cs@[i]).replacement@ == n by {
            assert(n.take(prefix@.len() as int) == n.subrange(0, prefix@.len() as int));
            assert(pool.to_set().contains(n));
            assert(command_matches(views_of(executables@), prefix@).contains(n));
            assert(nv.to_set().contains(n));
            let i = choose|i: int| 0 <= i < nv.len() && nv[i] == n;
            assert(candidate_views(cs@)[i] == plain_candidate(nv[i]));
            assert(cs@[i].replacement@ == n);
        }
    }
    cs
}

/// The text ends with `/`, as directory candidates do.
pub open spec fn ends_with_slash(s: Seq<char>) -> bool {
    s.len() > 0 && s.last() == '/'
}

/// A directory candidate (one whose replacement ends with `/`) is also
/// listed with a trailing `/`.
pub open spec fn mark_directory(c: CandidateView) -> CandidateView {
    if ends_with_slash(c.replacement) && !ends_with_slash(c.display) {
        CandidateView { display: c.display.push('/'), ..c }
    } else {
        c
    }
}

/// The candidates as shown: directories marked, and a single candidate
/// that is not a directory followed by a space, so that the next word can
/// be typed at once.
pub open spec fn finish_spec(cs: Seq<CandidateView>) -> Seq<CandidateView> {
    let marked = cs.map_values(|c: CandidateView| mark_directory(c));
    if marked.len() == 1 && !ends_with_slash(marked[0].replacement) {
        seq![CandidateView { replacement: marked[0].replacement.push(' '), ..marked[0] }]
    } else {
        marked
    }
}

/// Finishing keeps the candidates and their order: the number of
/// candidates stays, a replacement only ever gains the space that ends a
/// unique match, and a directory candidate is listed with its `/`.
pub proof fn law_finish_keeps_candidates(cs: Seq<CandidateView>)
    ensures
        finish_spec(cs).len() == cs.len(),
        forall|i: int|
            0 <= i < cs.len() ==> {
                let f = #[trigger] finish_spec(cs)[i];
                &&& (f.replacement == cs[i].replacement || (cs.len() == 1 && f.replacement
                    == cs[i].replacement.push(' ')))
                &&& (ends_with_slash(cs[i].replacement) ==> ends_with_slash(f.display))
            },
{
}

/// A unique match that is not a directory is completed with a trailing
/// space, as bash does; a unique directory match is not.
pub proof fn law_unique_match_gets_space(c: CandidateView)
    ensures
        !ends_with_slash(c.replacement) ==> finish_spec(seq![c])[0].replacement == c.replacement.push(
            ' ',
        ),
        ends_with_slash(c.replacement) ==> finish_spec(seq![c])[0].replacement == c.replacement,
{
}

/// Whether the text ends with `/`.
fn ends_in_slash(s: &String) -> (b: bool)
    ensures
        b == ends_with_slash(s@),
{
    let cs = chars_of(s.as_str());
    cs.len() > 0 && cs[cs.len() - 1] == '/'
}

/// Finishes the candidates for showing: marks directories in the listing
/// and lets a unique non-directory match end with a space.
pub fn finish_candidates(cs: Vec<Candidate>) -> (r: Vec<Candidate>)
    ensures
        candidate_views(r@) == finish_spec(candidate_views(cs@)),
{
    let ghost marked = candidate_views(cs@).map_values(|c: CandidateView| mark_directory(c));
    let mut r: Vec<Candidate> = Vec::new();
    let mut i: usize = 0;
    while i < cs.len()
        invariant
            i <= cs.len(),
            marked == candidate_views(cs@).map_values(|c: CandidateView| mark_directory(c)),
            candidate_views(r@) == marked.take(i as int),
        decreases cs.len() - i,
    {
        let mut display = cs[i].display.clone();
        let replacement = cs[i].replacement.clone();
        if ends_in_slash(&replacement) && !ends_in_slash(&display) {
            push_char(&mut display, '/');
        }
        let c = Candidate { display, replacement };
        assert(c@ == marked[i as int]);
        let ghost before = r@;
        r.push(c);
        assert(candidate_views(r@) =~= candidate_views(before).push(c@));
        assert(candidate_views(r@) =~= marked.take(i + 1));
        i = i + 1;
    }
    assert(marked.take(i as int) =~= marked);
    if r.len() == 1 && !ends_in_slash(&r[0].replacement) {
        let display = r[0].display.clone();
        let mut replacement = r[0].replacement.clone();
        push_char(&mut replacement, ' ');
        let single = vec![Candidate { display, replacement }];
        assert(candidate_views(single@) =~= finish_spec(candidate_views(cs@)));
        return single;
    }
    r
}

/// The candidates that a completer program offers: one per line of its
/// output, given as text.
pub fn candidates_from_text(text: &str) -> (cs: Vec<Candidate>)
    ensures
        candidate_views(cs@) == plain_candidates(lines_spec(text@)),
{
    to_candidates(lines(text))
}

/// The candidates that a completer program offers, given its raw output.
pub fn completer_candidates(output: &[u8]) -> (cs: Vec<Candidate>)
    ensures
        candidate_views(cs@) == plain_candidates(lines_spec(lossy_text(output@))),
{
    let text = text_of_bytes(output);
    candidates_from_text(text.as_str())
}

// ---------------------------------------------- planning ---------------------------------------------

/// The text of `line` before byte `start`.
pub open spec fn before_word(line: Seq<char>, start: int) -> Seq<char> {
    decode_utf8(encode_utf8(line).subrange(0, start))
}

/// The word that ends at byte `pos` of `line`.
pub open spec fn word_at(line: Seq<char>, pos: usize) -> Seq<char> {
    decode_utf8(encode_utf8(line).subrange(word_start_of(line, pos), pos as int))
}

/// The arguments a completer of `cmd` is run with: the command, the word
/// being completed, and the word before it (or the command, when there is
/// none).
pub open spec fn script_args(line: Seq<char>, start: int, word: Seq<char>, cmd: Seq<char>) -> Seq<
    Seq<char>,
> {
    let before = words_spec(before_word(line, start));
    seq![cmd, word, if before.len() > 0 { before.last() } else { cmd }]
}

/// A later word (one starting at byte `start` > 0) of a command with a
/// registered completer: the completer is run.
pub open spec fn uses_script(
    line: Seq<char>,
    start: int,
    completions: Map<Seq<char>, Seq<char>>,
) -> bool {
    let ws = words_spec(line);
    &&& start != 0
    &&& ws.len() > 0
    &&& completions.dom().contains(ws[0])
}

/// How to complete the word under the cursor.
pub enum CompletionPlan {
    /// The first word: these builtin and program names, starting at 0.
    Commands { candidates: Vec<Candidate> },
    /// Run the completer `script` with `args`; its output lines replace the
    /// text from `start` on.
    Script { script: String, args: Vec<String>, start: usize },
    /// Complete a file name.
    Files,
}

/// Decides how to complete `word`, which starts at byte `start` of `line`:
/// the first word (starting at 0) completes to command names, a later word
/// of a command with a registered completer runs that completer, and any
/// other word completes to file names.
pub fn plan_for_word(
    completions: &Completions,
    executables: &Vec<String>,
    line: &str,
    start: usize,
    word: &str,
) -> (p: CompletionPlan)
    requires
        start <= line.len(),
        line.is_char_boundary(start),
    ensures
        match p {
            CompletionPlan::Script { script, args, start: s } => {
                &&& uses_script(line@, start as int, completions@)
                &&& script@ == completions@[words_spec(line@)[0]]
                &&& views_of(args@) == script_args(
                    line@,
                    start as int,
                    word@,
                    words_spec(line@)[0],
                )
                &&& args@.len() == 3
                &&& args@[0]@ == words_spec(line@)[0]
                &&& args@[1]@ == word@
                &&& args@[2]@ == ({
                    let b = words_spec(decode_utf8(encode_utf8(line@).subrange(0, start as int)));
                    if b.len() > 0 {
                        b[b.len() - 1]
                    } else {
                        words_spec(line@)[0]
                    }
                })
                &&& s == start
            },
            CompletionPlan::Commands { candidates } => {
                &&& start == 0
                &&& command_candidates(candidate_views(candidates@), views_of(executables@), word@)
                &&& forall|i: int|
                    0 <= i < candidates@.len() ==> {
                        let n = (#[trigger] candidates@[i]).replacement@;
                        &&& word@.len() <= n.len()
                        &&& n.subrange(0, word@.len() as int) == word@
                        &&& candidates@[i].display@ == n
                    }
            },
            CompletionPlan::Files => {
                &&& start != 0
                &&& !uses_script(line@, start as int, completions@)
            },
        },
{
    let first = split_whitespace(line);
    if start != 0 && first.len() > 0 {
        assert(first@[0]@ == words_spec(line@)[0]);
        match completions.get(first[0].as_str()) {
            Some(script) => {
                let (before, _) = line.split_at(start);
                assert(before@ == before_word(line@, start as int));
                let bw = split_whitespace(before);
                let preceding = if bw.len() > 0 {
                    assert(bw@[bw.len() - 1]@ == words_spec(before@).last());
                    bw[bw.len() - 1].clone()
                } else {
                    first[0].clone()
                };
                let args = vec![first[0].clone(), String::from_str(word), preceding];
                assert(views_of(args@) =~= script_args(
                    line@,
                    start as int,
                    word@,
                    words_spec(line@)[0],
                ));
                return CompletionPlan::Script { script, args, start };
            },
            None => {},
        }
    }
    if start == 0 {
        CompletionPlan::Commands { candidates: complete_command(executables, word) }
    } else {
        CompletionPlan::Files
    }
}

/// Decides how to complete the word that ends at byte `pos` of `line`.
pub fn plan_completion(
    completions: &Completions,
    executables: &Vec<String>,
    line: &str,
    pos: usize,
) -> (p: CompletionPlan)
    requires
        pos <= line.len(),
        line.is_char_boundary(pos),
    ensures
        match p {
            CompletionPlan::Script { script, args, start } => {
                &&& uses_script(line@, word_start_of(line@, pos), completions@)
                &&& script@ == completions@[words_spec(line@)[0]]
                &&& views_of(args@) == script_args(
                    line@,
                    word_start_of(line@, pos),
                    word_at(line@, pos),
                    words_spec(line@)[0],
                )
                &&& args@.len() == 3
                &&& args@[0]@ == words_spec(line@)[0]
                &&& args@[1]@ == word_at(line@, pos)
                &&& args@[2]@ == ({
                    let b = words_spec(
                        decode_utf8(encode_utf8(line@).subrange(0, word_start_of(line@, pos))),
                    );
                    if b.len() > 0 {
                        b[b.len() - 1]
                    } else {
                        words_spec(line@)[0]
                    }
                })
                &&& start == word_start_of(line@, pos)
            },
            CompletionPlan::Commands { candidates } => {
                &&& word_start_of(line@, pos) == 0
                &&& command_candidates(
                    candidate_views(candidates@),
                    views_of(executables@),
                    word_at(line@, pos),
                )
                &&& forall|i: int|
                    0 <= i < candidates@.len() ==> {
                        let n = (#[trigger] candidates@[i]).replacement@;
                        &&& word_at(line@, pos).len() <= n.len()
                        &&& n.subrange(0, word_at(line@, pos).len() as int) == word_at(line@, pos)
                        &&& candidates@[i].display@ == n
                    }
            },
            CompletionPlan::Files => {
                &&& word_start_of(line@, pos) != 0
                &&& !uses_script(line@, word_start_of(line@, pos), completions@)
            },
        },
{
    let (start, word) = extract_word(line, pos);
    assert(word@ == word_at(line@, pos));
    plan_for_word(completions, executables, line, start, word)
}

} // verus!
