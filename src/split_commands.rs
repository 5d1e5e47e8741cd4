//! The statement segmenter: groups lines into brace-balanced statements.
//!
//! A line adds one to the depth for each `{` and takes one away for each `}`
//! (a plain character count: strings and comments are not special). A line
//! whose trimmed text starts with `pragma` is a directive and leaves the
//! depth alone. A line that contains `= new` and ends with `(` opens a
//! multi-line constructor call, which a later line ending with `);` closes.
//! The lines gathered so far form a statement once the depth is back at zero
//! and no constructor call is open.
//!
//! The statement region is marked by `##START##` and `##END##`, exactly so:
//! other casings are not markers. Statements are bare text with nothing
//! around them; a backtick is an ordinary character of the statement.
use vstd::prelude::*;
use vstd::string::StringExecFns;
use crate::text::{
    chars_of, concat, copy_range, count, count_chars, ends_with, ends_with_chars, extend_chars, find,
    find_chars, has, starts_with, starts_with_chars, string_of, trim, trim_chars,
};

verus! {

/// The marker that opens the statement region of a response.
pub open spec fn start_tag() -> Seq<char> {
    seq!['#', '#', 'S', 'T', 'A', 'R', 'T', '#', '#']
}

/// The marker that closes the statement region of a response.
pub open spec fn end_tag() -> Seq<char> {
    seq!['#', '#', 'E', 'N', 'D', '#', '#']
}

pub open spec fn directive_word() -> Seq<char> {
    seq!['p', 'r', 'a', 'g', 'm', 'a']
}

pub open spec fn construct_marker() -> Seq<char> {
    seq!['=', ' ', 'n', 'e', 'w']
}

pub open spec fn construct_close() -> Seq<char> {
    seq![')', ';']
}

/// A directive line, which does not take part in balance tracking.
pub open spec fn is_directive(line: Seq<char>) -> bool {
    starts_with(trim(line), directive_word())
}

/// What a line does to the depth.
pub open spec fn line_delta(line: Seq<char>) -> int {
    if is_directive(line) {
        0
    } else {
        count(line, '{') - count(line, '}')
    }
}

/// A line that starts a constructor call whose arguments go on below.
pub open spec fn opens_construct(line: Seq<char>) -> bool {
    has(trim(line), construct_marker()) && ends_with(trim(line), seq!['('])
}

/// Whether a constructor call is open after `line`, given whether one was
/// open before it.
pub open spec fn next_construct(open: bool, line: Seq<char>) -> bool {
    if is_directive(line) {
        open
    } else if opens_construct(line) {
        true
    } else if open && ends_with(trim(line), construct_close()) {
        false
    } else {
        open
    }
}

/// Depth and open-constructor flag after `lines`, starting from zero and
/// no open call.
pub open spec fn balance_of(lines: Seq<Seq<char>>) -> (int, bool)
    decreases lines.len(),
{
    if lines.len() == 0 {
        (0, false)
    } else {
        let (d, open) = balance_of(lines.drop_last());
        (d + line_delta(lines.last()), next_construct(open, lines.last()))
    }
}

/// `lines` form a complete statement.
pub open spec fn is_balanced(lines: Seq<Seq<char>>) -> bool {
    balance_of(lines).0 == 0 && !balance_of(lines).1
}

/// A line gathered from fragments, or the fragments gathered so far.
pub enum Response {
    Complete(String),
    Incomplete(String),
}

impl View for Response {
    /// Whether the text is complete, and the text.
    type V = (bool, Seq<char>);

    open spec fn view(&self) -> (bool, Seq<char>) {
        match self {
            Response::Complete(s) => (true, s@),
            Response::Incomplete(s) => (false, s@),
        }
    }
}

impl Response {
    pub fn is_complete(&self) -> (r: bool)
        ensures
            r == self@.0,
    {
        match self {
            Response::Complete(_) => true,
            Response::Incomplete(_) => false,
        }
    }
}

impl From<Response> for String {
    fn from(r: Response) -> (s: String)
        ensures
            s@ == r@.1,
    {
        match r {
            Response::Complete(s) => s,
            Response::Incomplete(s) => s,
        }
    }
}

impl vstd::std_specs::convert::FromSpecImpl<Response> for String {
    open spec fn obeys_from_spec() -> bool {
        true
    }

    open spec fn from_spec(r: Response) -> String {
        match r {
            Response::Complete(s) => s,
            Response::Incomplete(s) => s,
        }
    }
}

pub fn pragma_chars() -> (r: Vec<char>)
    ensures
        r@ == directive_word(),
{
    let r = vec!['p', 'r', 'a', 'g', 'm', 'a'];
    assert(r@ =~= directive_word());
    r
}

/// The views of a sequence of strings.
pub open spec fn string_views(v: Seq<String>) -> Seq<Seq<char>> {
    v.map_values(|s: String| s@)
}

/// The views of a sequence of character vectors.
pub open spec fn char_views(v: Seq<Vec<char>>) -> Seq<Seq<char>> {
    v.map_values(|s: Vec<char>| s@)
}

pub fn construct_marker_chars() -> (r: Vec<char>)
    ensures
        r@ == construct_marker(),
{
    let r = vec!['=', ' ', 'n', 'e', 'w'];
    assert(r@ =~= construct_marker());
    r
}

/// Whether `line` is a directive line.
pub fn directive_line(line: &Vec<char>) -> (r: bool)
    ensures
        r == is_directive(line@),
{
    let t = trim_chars(line);
    starts_with_chars(&t, &pragma_chars())
}

/// Whether a constructor call is open after `line`, given whether one was
/// open before it.
pub fn construct_after(open: bool, line: &Vec<char>) -> (r: bool)
    ensures
        r == next_construct(open, line@),
{
    if directive_line(line) {
        return open;
    }
    let t = trim_chars(line);
    let paren = vec!['('];
    assert(paren@ =~= seq!['(']);
    let close = vec![')', ';'];
    assert(close@ =~= construct_close());
    let marked = match find_chars(&t, &construct_marker_chars()) {
        Some(_) => true,
        None => false,
    };
    if marked && ends_with_chars(&t, &paren) {
        true
    } else if open && ends_with_chars(&t, &close) {
        false
    } else {
        open
    }
}

/// The brace counts a line adds: opening and closing, zero for a directive.
pub fn brace_counts(line: &Vec<char>) -> (r: (usize, usize))
    ensures
        r.0 - r.1 == line_delta(line@),
        is_directive(line@) ==> r.0 == 0 && r.1 == 0,
{
    if directive_line(line) {
        (0, 0)
    } else {
        (count_chars(line, '{'), count_chars(line, '}'))
    }
}

pub proof fn lemma_balance_push(lines: Seq<Seq<char>>, line: Seq<char>)
    ensures
        balance_of(lines.push(line)) == (
            balance_of(lines).0 + line_delta(line),
            next_construct(balance_of(lines).1, line),
        ),
{
    assert(lines.push(line).drop_last() =~= lines);
}

proof fn lemma_concat_push(parts: Seq<Seq<char>>, part: Seq<char>)
    ensures
        concat(parts.push(part)) == concat(parts) + part,
{
    assert(parts.push(part).drop_last() =~= parts);
}

proof fn lemma_counter_bound(c: u128, add: usize, k: nat)
    requires
        c <= k * (usize::MAX as nat),
        k < usize::MAX,
    ensures
        c + add <= (k + 1) * (usize::MAX as nat),
        (k + 1) * (usize::MAX as nat) <= u128::MAX,
{
    assert((k + 1) * (usize::MAX as nat) <= (usize::MAX as nat) * (usize::MAX as nat))
        by (nonlinear_arith)
        requires
            k + 1 <= usize::MAX,
    ;
    assert((k + 1) * (usize::MAX as nat) == k * (usize::MAX as nat) + usize::MAX) by (
    nonlinear_arith);
}

/// Joins a fragment onto the line gathered so far. The line is complete
/// when the fragment holds a line terminator.
pub fn format_current_line(current_line: &str, next_value: &str) -> (r: Response)
    ensures
        r@ == (has(next_value@, seq!['\n']), current_line@ + next_value@),
{
    let mut updated_line = String::from_str(current_line);
    updated_line.append(next_value);
    let nl = vec!['\n'];
    assert(nl@ =~= seq!['\n']);
    match find_chars(&chars_of(next_value), &nl) {
        Some(_) => Response::Complete(updated_line),
        None => Response::Incomplete(updated_line),
    }
}

/// Checks whether the gathered lines form a complete statement. The text,
/// complete or not, is the lines laid end to end and trimmed.
pub fn process_lines(current_lines: &mut Vec<String>) -> (r: Response)
    ensures
        final(current_lines)@ == old(current_lines)@,
        r@ == (
            is_balanced(string_views(old(current_lines)@)),
            trim(concat(string_views(old(current_lines)@))),
        ),
{
    let ghost ls = string_views(current_lines@);
    let n = current_lines.len();
    let mut all: Vec<char> = Vec::new();
    let mut opens: u128 = 0;
    let mut closes: u128 = 0;
    let mut open = false;
    let mut i: usize = 0;
    while i < n
        invariant
            n == current_lines.len(),
            ls == string_views(current_lines@),
            i <= n,
            all@ == concat(ls.take(i as int)),
            opens - closes == balance_of(ls.take(i as int)).0,
            open == balance_of(ls.take(i as int)).1,
            opens <= i * (usize::MAX as nat),
            closes <= i * (usize::MAX as nat),
        decreases n - i,
    {
        let line = chars_of(current_lines[i].as_str());
        extend_chars(&mut all, &line);
        let (o, c) = brace_counts(&line);
        proof {
            lemma_counter_bound(opens, o, i as nat);
            lemma_counter_bound(closes, c, i as nat);
            assert(ls.take(i + 1) =~= ls.take(i as int).push(line@));
            lemma_balance_push(ls.take(i as int), line@);
            lemma_concat_push(ls.take(i as int), line@);
        }
        opens = opens + o as u128;
        closes = closes + c as u128;
        open = construct_after(open, &line);
        i = i + 1;
    }
    assert(ls.take(n as int) =~= ls);
    let text = string_of(&trim_chars(&all));
    if opens == closes && !open {
        Response::Complete(text)
    } else {
        Response::Incomplete(text)
    }
}

/// The lines of `s` split at `\n`: those already ended, and the one still open.
pub open spec fn split_acc(s: Seq<char>) -> (Seq<Seq<char>>, Seq<char>)
    decreases s.len(),
{
    if s.len() == 0 {
        (Seq::empty(), Seq::empty())
    } else {
        let (done, cur) = split_acc(s.drop_last());
        if s.last() == '\n' {
            (done.push(cur), Seq::empty())
        } else {
            (done, cur.push(s.last()))
        }
    }
}

/// The pieces of `s` between `\n` characters.
pub open spec fn split_lines(s: Seq<char>) -> Seq<Seq<char>> {
    split_acc(s).0.push(split_acc(s).1)
}

/// The lines trimmed, with the blank ones left out.
pub open spec fn nonblank(lines: Seq<Seq<char>>) -> Seq<Seq<char>>
    decreases lines.len(),
{
    if lines.len() == 0 {
        lines
    } else {
        let rest = nonblank(lines.drop_last());
        if trim(lines.last()).len() > 0 {
            rest.push(trim(lines.last()))
        } else {
            rest
        }
    }
}

/// The text strictly between the first start marker and the first end
/// marker; none where either is missing or the end marker does not come
/// after the whole start marker.
pub open spec fn region(t: Seq<char>) -> Option<Seq<char>> {
    match (find(t, start_tag()), find(t, end_tag())) {
        (Some(s), Some(e)) => if s + start_tag().len() <= e {
            Some(t.subrange(s + start_tag().len(), e))
        } else {
            None
        },
        _ => None,
    }
}

/// Each line followed by a line terminator.
pub open spec fn with_terminator(lines: Seq<Seq<char>>) -> Seq<Seq<char>> {
    lines.map_values(|l: Seq<char>| l.push('\n'))
}

/// Each line followed by a line terminator, laid end to end.
pub open spec fn joined_lines(lines: Seq<Seq<char>>) -> Seq<char> {
    concat(with_terminator(lines))
}

/// The statements that `lines` form, and the lines of the statement that
/// is still open at the end.
pub open spec fn segment(lines: Seq<Seq<char>>) -> (Seq<Seq<char>>, Seq<Seq<char>>)
    decreases lines.len(),
{
    if lines.len() == 0 {
        (Seq::empty(), Seq::empty())
    } else {
        let (done, acc) = segment(lines.drop_last());
        let acc2 = acc.push(lines.last());
        if is_balanced(acc2) {
            (done.push(trim(joined_lines(acc2))), Seq::empty())
        } else {
            (done, acc2)
        }
    }
}

/// The statements of a whole response: those of its region's non-blank,
/// trimmed lines. A statement still open at the end marker is dropped.
pub open spec fn statements_in(t: Seq<char>) -> Seq<Seq<char>> {
    match region(t) {
        Some(r) => segment(nonblank(split_lines(r))).0,
        None => Seq::empty(),
    }
}

/// The lines of `s`, split at `\n`.
pub fn split_line_chars(s: &Vec<char>) -> (r: Vec<Vec<char>>)
    ensures
        char_views(r@) == split_lines(s@),
{
    let mut done: Vec<Vec<char>> = Vec::new();
    let mut cur: Vec<char> = Vec::new();
    let mut i: usize = 0;
    while i < s.len()
        invariant
            i <= s.len(),
            (char_views(done@), cur@) == split_acc(s@.take(i as int)),
        decreases s.len() - i,
    {
        assert(s@.take(i + 1).drop_last() =~= s@.take(i as int));
        if s[i] == '\n' {
            let ghost old_done = done@;
            done.push(cur);
            cur = Vec::new();
            assert(char_views(done@) =~= char_views(old_done).push(
                split_acc(s@.take(i as int)).1,
            ));
        } else {
            cur.push(s[i]);
        }
        i = i + 1;
    }
    assert(s@.take(i as int) =~= s@);
    let ghost old_done = done@;
    done.push(cur);
    assert(char_views(done@) =~= char_views(old_done).push(split_acc(s@).1));
    done
}

/// The lines trimmed, with the blank ones left out.
pub fn nonblank_lines(lines: &Vec<Vec<char>>) -> (r: Vec<Vec<char>>)
    ensures
        char_views(r@) == nonblank(char_views(lines@)),
{
    let ghost ls = char_views(lines@);
    let mut out: Vec<Vec<char>> = Vec::new();
    let mut i: usize = 0;
    while i < lines.len()
        invariant
            i <= lines.len(),
            ls == char_views(lines@),
            char_views(out@) == nonblank(ls.take(i as int)),
        decreases lines.len() - i,
    {
        assert(ls.take(i + 1).drop_last() =~= ls.take(i as int));
        let t = trim_chars(&lines[i]);
        if t.len() > 0 {
            let ghost old_out = out@;
            out.push(t);
            assert(char_views(out@) =~= char_views(old_out).push(trim(ls[i as int])));
        }
        i = i + 1;
    }
    assert(ls.take(i as int) =~= ls);
    out
}

proof fn lemma_joined_push(lines: Seq<Seq<char>>, line: Seq<char>)
    ensures
        joined_lines(lines.push(line)) == joined_lines(lines) + line.push('\n'),
{
    assert(with_terminator(lines.push(line)) =~= with_terminator(lines).push(line.push('\n')));
    lemma_concat_push(with_terminator(lines), line.push('\n'));
}

/// The statements that `lines` form; a statement still open at the end is
/// dropped.
pub fn segment_lines(lines: &Vec<Vec<char>>) -> (r: Vec<String>)
    ensures
        string_views(r@) == segment(char_views(lines@)).0,
{
    let ghost ls = char_views(lines@);
    let ghost mut acc: Seq<Seq<char>> = Seq::empty();
    let mut out: Vec<String> = Vec::new();
    let mut text: Vec<char> = Vec::new();
    let mut opens: u128 = 0;
    let mut closes: u128 = 0;
    let mut open = false;
    let mut i: usize = 0;
    while i < lines.len()
        invariant
            i <= lines.len(),
            ls == char_views(lines@),
            (string_views(out@), acc) == segment(ls.take(i as int)),
            acc.len() <= i,
            text@ == joined_lines(acc),
            opens - closes == balance_of(acc).0,
            open == balance_of(acc).1,
            opens <= acc.len() * (usize::MAX as nat),
            closes <= acc.len() * (usize::MAX as nat),
        decreases lines.len() - i,
    {
        assert(ls.take(i + 1).drop_last() =~= ls.take(i as int));
        let line = &lines[i];
        let (o, c) = brace_counts(line);
        proof {
            lemma_counter_bound(opens, o, acc.len());
            lemma_counter_bound(closes, c, acc.len());
            lemma_balance_push(acc, line@);
            lemma_joined_push(acc, line@);
        }
        opens = opens + o as u128;
        closes = closes + c as u128;
        open = construct_after(open, line);
        extend_chars(&mut text, line);
        text.push('\n');
        proof {
            acc = acc.push(line@);
        }
        if opens == closes && !open {
            let ghost old_out = out@;
            out.push(string_of(&trim_chars(&text)));
            assert(string_views(out@) =~= string_views(old_out).push(trim(joined_lines(acc))));
            text = Vec::new();
            opens = 0;
            closes = 0;
            proof {
                acc = Seq::empty();
            }
        }
        i = i + 1;
    }
    assert(ls.take(i as int) =~= ls);
    out
}

pub fn start_tag_chars() -> (r: Vec<char>)
    ensures
        r@ == start_tag(),
{
    let r = vec!['#', '#', 'S', 'T', 'A', 'R', 'T', '#', '#'];
    assert(r@ =~= start_tag());
    r
}

pub fn end_tag_chars() -> (r: Vec<char>)
    ensures
        r@ == end_tag(),
{
    let r = vec!['#', '#', 'E', 'N', 'D', '#', '#'];
    assert(r@ =~= end_tag());
    r
}

/// Splits a whole response into statements: the non-blank, trimmed lines
/// between the first start marker and the first end marker, grouped by
/// brace balance, each statement trimmed. No statements where the region
/// is absent.
pub fn split_commands(input: &str) -> (r: Vec<String>)
    ensures
        string_views(r@) == statements_in(input@),
{
    let t = chars_of(input);
    let start = find_chars(&t, &start_tag_chars());
    let end = find_chars(&t, &end_tag_chars());
    match (start, end) {
        (Some(s), Some(e)) => {
            if s <= e && e - s >= 9 {
                let body = copy_range(&t, s + 9, e);
                let lines = nonblank_lines(&split_line_chars(&body));
                segment_lines(&lines)
            } else {
                Vec::new()
            }
        },
        _ => Vec::new(),
    }
}

} // verus!
