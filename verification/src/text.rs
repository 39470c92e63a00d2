//! Character-level text utilities shared by the lexer, the command
//! planner and the completer: Unicode whitespace, trimming, splitting on
//! whitespace, line splitting and decimal rendering.

use vstd::prelude::*;

verus! {

/// The Unicode `White_Space` property, the set of characters for which
/// `char::is_whitespace` holds.
pub open spec fn is_ws(c: char) -> bool {
    let u = c as u32;
    ||| 0x09 <= u <= 0x0D
    ||| u == 0x20
    ||| u == 0x85
    ||| u == 0xA0
    ||| u == 0x1680
    ||| 0x2000 <= u <= 0x200A
    ||| u == 0x2028
    ||| u == 0x2029
    ||| u == 0x202F
    ||| u == 0x205F
    ||| u == 0x3000
}

/// The texts of a sequence of strings.
pub open spec fn views_of(v: Seq<String>) -> Seq<Seq<char>> {
    v.map_values(|s: String| s@)
}

/// Whether `c` is a Unicode whitespace character.
pub fn is_whitespace(c: char) -> (b: bool)
    ensures
        b == is_ws(c),
{
    let u = c as u32;
    (0x09 <= u && u <= 0x0D) || u == 0x20 || u == 0x85 || u == 0xA0 || u == 0x1680 || (0x2000
        <= u && u <= 0x200A) || u == 0x2028 || u == 0x2029 || u == 0x202F || u == 0x205F || u
        == 0x3000
}

/// The characters of `s`, in order.
pub fn chars_of(s: &str) -> (v: Vec<char>)
    ensures
        v@ == s@,
{
    let mut v: Vec<char> = Vec::new();
    for c in it: s.chars()
        invariant
            v@ == it.seq().take(it.index() as int),
    {
        v.push(c);
    }
    v
}

/// Appends one character to a string (`String::push`).
#[verifier::external_body]
pub(crate) fn push_char(s: &mut String, c: char)
    ensures
        final(s)@ == old(s)@.push(c),
{
    s.push(c);
}

/// The string made of the characters `cs`.
pub fn string_of(cs: &Vec<char>) -> (s: String)
    ensures
        s@ == cs@,
{
    let mut s = String::new();
    let mut i: usize = 0;
    while i < cs.len()
        invariant
            i <= cs.len(),
            s@ == cs@.take(i as int),
        decreases cs.len() - i,
    {
        push_char(&mut s, cs[i]);
        i = i + 1;
        assert(s@ =~= cs@.take(i as int));
    }
    assert(cs@.take(i as int) =~= cs@);
    s
}

/// Whether two character sequences are equal.
pub fn chars_eq(a: &Vec<char>, b: &Vec<char>) -> (r: bool)
    ensures
        r == (a@ == b@),
{
    if a.len() != b.len() {
        return false;
    }
    let mut i: usize = 0;
    while i < a.len()
        invariant
            a.len() == b.len(),
            i <= a.len(),
            forall|j: int| 0 <= j < i ==> a@[j] == b@[j],
        decreases a.len() - i,
    {
        if a[i] != b[i] {
            return false;
        }
        i = i + 1;
    }
    assert(a@ =~= b@);
    true
}

/// Whether two strings hold the same text.
pub fn text_eq(a: &str, b: &str) -> (r: bool)
    ensures
        r == (a@ == b@),
{
    let ca = chars_of(a);
    let cb = chars_of(b);
    chars_eq(&ca, &cb)
}

/// `s` without its leading whitespace.
pub open spec fn trim_start_spec(s: Seq<char>) -> Seq<char>
    decreases s.len(),
{
    if s.len() > 0 && is_ws(s[0]) {
        trim_start_spec(s.drop_first())
    } else {
        s
    }
}

/// `s` without its trailing whitespace.
pub open spec fn trim_end_spec(s: Seq<char>) -> Seq<char>
    decreases s.len(),
{
    if s.len() > 0 && is_ws(s.last()) {
        trim_end_spec(s.drop_last())
    } else {
        s
    }
}

/// `s` without leading and trailing whitespace, as `str::trim` gives it.
pub open spec fn trim_spec(s: Seq<char>) -> Seq<char> {
    trim_end_spec(trim_start_spec(s))
}

proof fn lemma_trim_start_skip(s: Seq<char>, i: int)
    requires
        0 <= i <= s.len(),
        forall|j: int| 0 <= j < i ==> is_ws(#[trigger] s[j]),
    ensures
        trim_start_spec(s) == trim_start_spec(s.skip(i)),
    decreases i,
{
    if i > 0 {
        assert(s.skip(1) =~= s.drop_first());
        lemma_trim_start_skip(s.drop_first(), i - 1);
        assert(s.drop_first().skip(i - 1) =~= s.skip(i));
    } else {
        assert(s.skip(0) =~= s);
    }
}

proof fn lemma_trim_end_take(s: Seq<char>, k: int)
    requires
        0 <= k <= s.len(),
        forall|j: int| k <= j < s.len() ==> is_ws(#[trigger] s[j]),
    ensures
        trim_end_spec(s) == trim_end_spec(s.take(k)),
    decreases s.len() - k,
{
    if k < s.len() {
        assert(s.take(s.len() - 1) =~= s.drop_last());
        lemma_trim_end_take(s.drop_last(), k);
        assert(s.drop_last().take(k) =~= s.take(k));
    } else {
        assert(s.take(k) =~= s);
    }
}

/// The characters of `s` without leading and trailing whitespace.
pub fn trim_chars(s: &Vec<char>) -> (t: Vec<char>)
    ensures
        t@ == trim_spec(s@),
{
    let mut lo: usize = 0;
    while lo < s.len() && is_whitespace(s[lo])
        invariant
            lo <= s.len(),
            forall|j: int| 0 <= j < lo ==> is_ws(#[trigger] s@[j]),
        decreases s.len() - lo,
    {
        lo = lo + 1;
    }
    proof {
        lemma_trim_start_skip(s@, lo as int);
    }
    let ghost rest = s@.skip(lo as int);
    assert(trim_start_spec(rest) == rest);
    let mut hi: usize = s.len();
    while hi > lo && is_whitespace(s[hi - 1])
        invariant
            lo <= hi <= s.len(),
            forall|j: int| hi <= j < s.len() ==> is_ws(#[trigger] s@[j]),
        decreases hi,
    {
        hi = hi - 1;
    }
    proof {
        assert forall|j: int| hi - lo <= j < rest.len() implies is_ws(#[trigger] rest[j]) by {
            assert(rest[j] == s@[j + lo]);
        }
        lemma_trim_end_take(rest, hi - lo);
        let r = rest.take(hi - lo);
        if r.len() > 0 {
            assert(r.last() == s@[hi - 1]);
        }
    }
    let mut t: Vec<char> = Vec::new();
    let mut i: usize = lo;
    while i < hi
        invariant
            lo <= i <= hi,
            hi <= s.len(),
            t@ == s@.subrange(lo as int, i as int),
        decreases hi - i,
    {
        t.push(s[i]);
        i = i + 1;
        assert(t@ =~= s@.subrange(lo as int, i as int));
    }
    assert(t@ =~= rest.take(hi - lo));
    t
}

/// The text of `s` without leading and trailing whitespace.
pub fn trim(s: &str) -> (t: String)
    ensures
        t@ == trim_spec(s@),
{
    let cs = chars_of(s);
    let ts = trim_chars(&cs);
    string_of(&ts)
}

} // verus!

verus! {

/// Whitespace-separated words found so far, and the word in progress.
pub struct WordScan {
    pub words: Seq<Seq<char>>,
    pub current: Seq<char>,
}

/// The scan after one more character: whitespace ends the word in
/// progress, any other character extends it.
pub open spec fn word_step(st: WordScan, c: char) -> WordScan {
    if is_ws(c) {
        if st.current.len() > 0 {
            WordScan { words: st.words.push(st.current), current: Seq::empty() }
        } else {
            st
        }
    } else {
        WordScan { current: st.current.push(c), ..st }
    }
}

/// The scan after all of `s`.
pub open spec fn word_run(s: Seq<char>) -> WordScan
    decreases s.len(),
{
    if s.len() == 0 {
        WordScan { words: Seq::empty(), current: Seq::empty() }
    } else {
        word_step(word_run(s.drop_last()), s.last())
    }
}

/// The maximal runs of non-whitespace characters of `s`, in order
/// (what `str::split_whitespace` yields).
pub open spec fn words_spec(s: Seq<char>) -> Seq<Seq<char>> {
    let st = word_run(s);
    if st.current.len() > 0 {
        st.words.push(st.current)
    } else {
        st.words
    }
}

/// The whitespace-separated words of `s`.
pub fn split_whitespace(s: &str) -> (ws: Vec<String>)
    ensures
        views_of(ws@) == words_spec(s@),
{
    let cs = chars_of(s);
    let mut ws: Vec<String> = Vec::new();
    let mut current = String::new();
    let mut i: usize = 0;
    while i < cs.len()
        invariant
            i <= cs.len(),
            views_of(ws@) == word_run(cs@.take(i as int)).words,
            current@ == word_run(cs@.take(i as int)).current,
        decreases cs.len() - i,
    {
        assert(cs@.take(i + 1).drop_last() =~= cs@.take(i as int));
        let c = cs[i];
        if is_whitespace(c) {
            if !current.as_str().is_empty() {
                let w = current;
                current = String::new();
                let ghost before = ws@;
                ws.push(w);
                assert(views_of(ws@) =~= views_of(before).push(w@));
            }
        } else {
            push_char(&mut current, c);
        }
        i = i + 1;
    }
    assert(cs@.take(i as int) =~= cs@);
    if !current.as_str().is_empty() {
        let ghost before = ws@;
        ws.push(current);
        assert(views_of(ws@) =~= views_of(before).push(words_spec(s@).last()));
    }
    ws
}

/// Lines found so far, and the line in progress.
pub struct LineScan {
    pub lines: Seq<Seq<char>>,
    pub current: Seq<char>,
}

/// A line without the carriage return that ends it, if it has one.
pub open spec fn strip_cr(l: Seq<char>) -> Seq<char> {
    if l.len() > 0 && l.last() == '\r' {
        l.drop_last()
    } else {
        l
    }
}

/// The scan after one more character: a line feed ends the line in
/// progress (dropping a carriage return right before it).
pub open spec fn line_step(st: LineScan, c: char) -> LineScan {
    if c == '\n' {
        LineScan { lines: st.lines.push(strip_cr(st.current)), current: Seq::empty() }
    } else {
        LineScan { current: st.current.push(c), ..st }
    }
}

/// The scan after all of `s`.
pub open spec fn line_run(s: Seq<char>) -> LineScan
    decreases s.len(),
{
    if s.len() == 0 {
        LineScan { lines: Seq::empty(), current: Seq::empty() }
    } else {
        line_step(line_run(s.drop_last()), s.last())
    }
}

/// The lines of `s` as `str::lines` yields them: split at `\n` or `\r\n`,
/// with a final line that has no line ending kept only when non-empty.
pub open spec fn lines_spec(s: Seq<char>) -> Seq<Seq<char>> {
    let st = line_run(s);
    if st.current.len() > 0 {
        st.lines.push(st.current)
    } else {
        st.lines
    }
}

/// Drops the last character of a non-empty string.
fn drop_last_char(s: &String) -> (t: String)
    requires
        s@.len() > 0,
    ensures
        t@ == s@.drop_last(),
{
    let cs = chars_of(s.as_str());
    let mut t = String::new();
    let mut i: usize = 0;
    while i + 1 < cs.len()
        invariant
            cs@ == s@,
            i + 1 <= cs.len(),
            t@ == cs@.take(i as int),
        decreases cs.len() - i,
    {
        push_char(&mut t, cs[i]);
        i = i + 1;
        assert(t@ =~= cs@.take(i as int));
    }
    assert(cs@.take(i as int) =~= s@.drop_last());
    t
}

/// The lines of `s`.
pub fn lines(s: &str) -> (ls: Vec<String>)
    ensures
        views_of(ls@) == lines_spec(s@),
{
    let cs = chars_of(s);
    let mut ls: Vec<String> = Vec::new();
    let mut current = String::new();
    let mut last: Option<char> = None;
    let mut i: usize = 0;
    while i < cs.len()
        invariant
            i <= cs.len(),
            views_of(ls@) == line_run(cs@.take(i as int)).lines,
            current@ == line_run(cs@.take(i as int)).current,
            last == (if current@.len() > 0 { Some(current@.last()) } else { None::<char> }),
        decreases cs.len() - i,
    {
        assert(cs@.take(i + 1).drop_last() =~= cs@.take(i as int));
        let c = cs[i];
        if c == '\n' {
            let line = if last == Some('\r') {
                drop_last_char(&current)
            } else {
                current
            };
            current = String::new();
            last = None;
            let ghost before = ls@;
            ls.push(line);
            assert(views_of(ls@) =~= views_of(before).push(line@));
        } else {
            push_char(&mut current, c);
            last = Some(c);
        }
        i = i + 1;
    }
    assert(cs@.take(i as int) =~= cs@);
    if last.is_some() {
        let ghost before = ls@;
        ls.push(current);
        assert(views_of(ls@) =~= views_of(before).push(lines_spec(s@).last()));
    }
    ls
}

/// The character of the decimal digit `d`.
pub open spec fn digit_char(d: nat) -> char {
    (d + 48) as char
}

/// The decimal numeral of `n`, without leading zeros.
pub open spec fn decimal_spec(n: nat) -> Seq<char>
    decreases n,
{
    if n < 10 {
        seq![digit_char(n)]
    } else {
        decimal_spec(n / 10).push(digit_char(n % 10))
    }
}

/// Appends the decimal numeral of `n` to `s`.
pub fn push_decimal(s: &mut String, n: u64)
    ensures
        final(s)@ == old(s)@ + decimal_spec(n as nat),
    decreases n,
{
    if n >= 10 {
        push_decimal(s, n / 10);
    }
    let d = (n % 10) as u8;
    let c = (d + 48) as char;
    push_char(s, c);
    proof {
        assert(old(s)@ + decimal_spec(n as nat) =~= (if n >= 10 {
            old(s)@ + decimal_spec((n / 10) as nat)
        } else {
            old(s)@
        }).push(digit_char((n % 10) as nat)));
    }
}

} // verus!

verus! {

proof fn lemma_trim_start_shape(s: Seq<char>)
    ensures
        trim_start_spec(s).len() == 0 || !is_ws(trim_start_spec(s)[0]),
    decreases s.len(),
{
    if s.len() > 0 && is_ws(s[0]) {
        lemma_trim_start_shape(s.drop_first());
    }
}

proof fn lemma_trim_end_shape(s: Seq<char>)
    ensures
        trim_end_spec(s).len() <= s.len(),
        trim_end_spec(s) == s.take(trim_end_spec(s).len() as int),
        trim_end_spec(s).len() == 0 || !is_ws(trim_end_spec(s).last()),
    decreases s.len(),
{
    if s.len() > 0 && is_ws(s.last()) {
        lemma_trim_end_shape(s.drop_last());
        let t = trim_end_spec(s.drop_last());
        assert(s.drop_last().take(t.len() as int) =~= s.take(t.len() as int));
    } else {
        assert(s.take(s.len() as int) =~= s);
    }
}

/// Trimming twice is trimming once: a trimmed text has no whitespace left
/// at either end.
pub proof fn law_trim_idempotent(s: Seq<char>)
    ensures
        trim_spec(trim_spec(s)) == trim_spec(s),
{
    let r = trim_start_spec(s);
    let t = trim_spec(s);
    lemma_trim_start_shape(s);
    lemma_trim_end_shape(r);
    if t.len() > 0 {
        assert(t[0] == r[0]);
    }
    assert(trim_start_spec(t) == t);
    assert(trim_end_spec(t) == t);
}

} // verus!
