//! The command ledger: turns a stream of text fragments into statements and
//! tracks each statement through dispatch.
//!
//! Fragments are joined into lines; a line is complete once a fragment holds
//! a line terminator. Lines are only segmented between a line holding the
//! start marker and a line holding the end marker; the marker lines
//! themselves are dropped. Each finished statement becomes a `Pending`
//! command, in the order the statements were finished. Dispatching a command
//! moves it to `Complete` or `Errored`; nothing moves a command back.
//!
//! At the end marker, lines still gathered for an unbalanced statement are
//! finished as a statement all the same. The batch `split_commands` drops
//! such a trailing statement instead: there the whole response is at hand
//! and a statement that never balanced counts as incomplete input. A stream
//! that stops before any end marker leaves its gathered lines unfinished.
use vstd::prelude::*;
use crate::split_commands::{
    balance_of, end_tag, end_tag_chars, format_current_line, is_balanced, joined_lines,
    line_delta, next_construct, process_lines, segment, start_tag, start_tag_chars,
    string_views, with_terminator, Response,
};
use crate::text::{
    chars_of, concat, count, find_chars, find_from, has, is_space, matches_at, trim, trim_end,
    trim_start,
};

verus! {

/// Where a command stands in its lifecycle.
#[derive(Clone, Copy, Debug, PartialEq, Eq, Structural)]
pub enum Phase {
    Pending,
    Errored,
    Complete,
}

/// A statement together with where it stands in its lifecycle.
#[derive(Clone, Debug, PartialEq, Eq)]
pub enum Command {
    Pending(String),
    Errored(String),
    Complete(String),
}

impl View for Command {
    type V = (Phase, Seq<char>);

    open spec fn view(&self) -> (Phase, Seq<char>) {
        match self {
            Command::Pending(s) => (Phase::Pending, s@),
            Command::Errored(s) => (Phase::Errored, s@),
            Command::Complete(s) => (Phase::Complete, s@),
        }
    }
}

/// The state of one streamed response: the line being gathered, the lines
/// of the statement being gathered, whether the stream is inside the
/// statement region, and the commands so far.
pub struct CommandResponse {
    pub current_line: String,
    pub current_command_lines: Vec<String>,
    pub within_command_response: bool,
    pub commands: Vec<Command>,
}

/// The abstract state of a `CommandResponse`.
pub struct Ledger {
    pub current_line: Seq<char>,
    pub lines: Seq<Seq<char>>,
    pub within: bool,
    pub commands: Seq<(Phase, Seq<char>)>,
}

/// The views of a sequence of commands.
pub open spec fn command_views(v: Seq<Command>) -> Seq<(Phase, Seq<char>)> {
    v.map_values(|c: Command| c@)
}

impl View for CommandResponse {
    type V = Ledger;

    open spec fn view(&self) -> Ledger {
        Ledger {
            current_line: self.current_line@,
            lines: string_views(self.current_command_lines@),
            within: self.within_command_response,
            commands: command_views(self.commands@),
        }
    }
}

/// Finishes the statement being gathered: its lines, laid end to end and
/// trimmed, with one line terminator after them, become a pending command.
pub open spec fn finish_statement(m: Ledger) -> Ledger {
    Ledger {
        lines: Seq::empty(),
        commands: m.commands.push((Phase::Pending, trim(concat(m.lines)).push('\n'))),
        ..m
    }
}

/// Takes one complete line.
pub open spec fn take_line(m: Ledger, line: Seq<char>) -> Ledger {
    if has(line, start_tag()) {
        Ledger { within: true, ..m }
    } else if has(line, end_tag()) {
        if m.lines.len() > 0 {
            Ledger { within: false, ..finish_statement(m) }
        } else {
            Ledger { within: false, ..m }
        }
    } else if !m.within {
        m
    } else {
        let m2 = Ledger { lines: m.lines.push(line), ..m };
        if is_balanced(m2.lines) {
            finish_statement(m2)
        } else {
            m2
        }
    }
}

/// Takes one fragment of the stream.
pub open spec fn feed(m: Ledger, fragment: Seq<char>) -> Ledger {
    let joined = m.current_line + fragment;
    if has(fragment, seq!['\n']) {
        take_line(Ledger { current_line: Seq::empty(), ..m }, joined)
    } else {
        Ledger { current_line: joined, ..m }
    }
}

/// The first pending command at or after `i`.
pub open spec fn first_pending_from(cs: Seq<(Phase, Seq<char>)>, i: int) -> Option<int>
    decreases cs.len() - i,
{
    if i < 0 || i >= cs.len() {
        None
    } else if cs[i].0 == Phase::Pending {
        Some(i)
    } else {
        first_pending_from(cs, i + 1)
    }
}

/// The command that dispatch takes next: the first pending one.
pub open spec fn first_pending(cs: Seq<(Phase, Seq<char>)>) -> Option<int> {
    first_pending_from(cs, 0)
}

/// Records the outcome of dispatching command `i`: a pending command moves
/// to `Complete` on success, which also drops the lines gathered for an
/// unfinished statement, or to `Errored` on failure. Any other command, or
/// a position past the end, is left as it is.
pub open spec fn settle(m: Ledger, i: int, succeeded: bool) -> Ledger {
    if 0 <= i < m.commands.len() && m.commands[i].0 == Phase::Pending {
        Ledger {
            commands: m.commands.update(
                i,
                (if succeeded { Phase::Complete } else { Phase::Errored }, m.commands[i].1),
            ),
            lines: if succeeded { Seq::empty() } else { m.lines },
            ..m
        }
    } else {
        m
    }
}

/// The commands whose dispatch failed, in ledger order.
pub open spec fn errored(cs: Seq<(Phase, Seq<char>)>) -> Seq<(Phase, Seq<char>)>
    decreases cs.len(),
{
    if cs.len() == 0 {
        cs
    } else if cs.last().0 == Phase::Errored {
        errored(cs.drop_last()).push(cs.last())
    } else {
        errored(cs.drop_last())
    }
}

/// A fragment in the sense of the stream: it holds at most one line
/// terminator, as its last character.
pub open spec fn is_fragment(f: Seq<char>) -> bool {
    forall|i: int| 0 <= i < f.len() - 1 ==> f[i] != '\n'
}

/// Takes each fragment of `fs` in turn.
pub open spec fn feed_all(m: Ledger, fs: Seq<Seq<char>>) -> Ledger
    decreases fs.len(),
{
    if fs.len() == 0 {
        m
    } else {
        feed(feed_all(m, fs.drop_last()), fs.last())
    }
}

/// Takes each character of `s` as a fragment of its own.
pub open spec fn feed_chars(m: Ledger, s: Seq<char>) -> Ledger
    decreases s.len(),
{
    if s.len() == 0 {
        m
    } else {
        feed(feed_chars(m, s.drop_last()), seq![s.last()])
    }
}

proof fn lemma_find_from_some(s: Seq<char>, pat: Seq<char>, i: int, j: int)
    requires
        0 <= i <= j,
        matches_at(s, pat, j),
    ensures
        find_from(s, pat, i) is Some,
    decreases j - i,
{
    if !matches_at(s, pat, i) {
        lemma_find_from_some(s, pat, i + 1, j);
    }
}

proof fn lemma_no_newline(s: Seq<char>, i: int)
    requires
        0 <= i,
        forall|k: int| 0 <= k < s.len() ==> s[k] != '\n',
    ensures
        find_from(s, seq!['\n'], i) is None,
    decreases s.len() + 1 - i,
{
    if i + 1 <= s.len() {
        assert(s.subrange(i, i + 1)[0] == s[i]);
        lemma_no_newline(s, i + 1);
    }
}

proof fn lemma_feed_chars_append(m: Ledger, a: Seq<char>, b: Seq<char>)
    ensures
        feed_chars(m, a + b) == feed_chars(feed_chars(m, a), b),
    decreases b.len(),
{
    if b.len() == 0 {
        assert(a + b =~= a);
    } else {
        assert((a + b).drop_last() =~= a + b.drop_last());
        lemma_feed_chars_append(m, a, b.drop_last());
    }
}

proof fn lemma_feed_chars_plain(m: Ledger, h: Seq<char>)
    requires
        forall|k: int| 0 <= k < h.len() ==> h[k] != '\n',
    ensures
        feed_chars(m, h) == (Ledger { current_line: m.current_line + h, ..m }),
    decreases h.len(),
{
    if h.len() == 0 {
        assert(m.current_line + h =~= m.current_line);
    } else {
        lemma_feed_chars_plain(m, h.drop_last());
        lemma_no_newline(seq![h.last()], 0);
        assert(m.current_line + h.drop_last() + seq![h.last()] =~= m.current_line + h);
    }
}

proof fn lemma_feed_fragment(m: Ledger, f: Seq<char>)
    requires
        is_fragment(f),
    ensures
        feed(m, f) == feed_chars(m, f),
{
    if f.len() > 0 && f.last() == '\n' {
        let g = f.drop_last();
        lemma_feed_chars_plain(m, g);
        assert(f =~= g + seq!['\n']);
        lemma_feed_chars_append(m, g, seq!['\n']);
        assert(seq!['\n'].drop_last() =~= Seq::<char>::empty());
        assert(seq!['\n'].subrange(0, 1) =~= seq!['\n']);
        assert(f.subrange(f.len() - 1, f.len() as int) =~= seq!['\n']);
        lemma_find_from_some(f, seq!['\n'], 0, f.len() - 1);
        assert(m.current_line + g + seq!['\n'] =~= m.current_line + f);
    } else {
        lemma_no_newline(f, 0);
        lemma_feed_chars_plain(m, f);
    }
}

proof fn lemma_feed_all_chars(m: Ledger, fs: Seq<Seq<char>>)
    requires
        forall|k: int| 0 <= k < fs.len() ==> is_fragment(#[trigger] fs[k]),
    ensures
        feed_all(m, fs) == feed_chars(m, concat(fs)),
    decreases fs.len(),
{
    if fs.len() == 0 {
        assert(concat(fs) =~= Seq::<char>::empty());
    } else {
        let dl = fs.drop_last();
        assert forall|k: int| 0 <= k < dl.len() implies is_fragment(#[trigger] dl[k]) by {
            assert(dl[k] == fs[k]);
        }
        lemma_feed_all_chars(m, dl);
        assert(is_fragment(fs[fs.len() - 1]));
        lemma_feed_fragment(feed_all(m, dl), fs.last());
        lemma_feed_chars_append(m, concat(dl), fs.last());
    }
}

/// Segmentation does not depend on how the text is cut into fragments:
/// two runs of fragments that each hold at most one line terminator, at
/// their end, and that spell the same text leave the ledger in the same
/// state. Feeding a text character by character and feeding it line by
/// line are two such runs.
pub proof fn lemma_chunk_invariance(m: Ledger, fs: Seq<Seq<char>>, gs: Seq<Seq<char>>)
    requires
        forall|k: int| 0 <= k < fs.len() ==> is_fragment(#[trigger] fs[k]),
        forall|k: int| 0 <= k < gs.len() ==> is_fragment(#[trigger] gs[k]),
        concat(fs) == concat(gs),
    ensures
        feed_all(m, fs) == feed_all(m, gs),
{
    lemma_feed_all_chars(m, fs);
    lemma_feed_all_chars(m, gs);
}

proof fn lemma_feed_appends(m: Ledger, f: Seq<char>)
    ensures
        feed(m, f).commands == m.commands || exists|t: Seq<char>|
            feed(m, f).commands == m.commands.push((Phase::Pending, t)),
{
    let n = feed(m, f).commands;
    if n != m.commands {
        let t = n.last().1;
        assert(n == m.commands.push((Phase::Pending, t)));
    }
}

/// A command, once in the ledger, keeps its place and its text: taking a
/// fragment changes no command already there, and recording a dispatch
/// outcome changes at most the phase of the one command it is about.
pub proof fn lemma_statements_fixed(m: Ledger, f: Seq<char>, i: int, succeeded: bool)
    ensures
        m.commands.len() <= feed(m, f).commands.len(),
        forall|k: int| 0 <= k < m.commands.len() ==> feed(m, f).commands[k] == m.commands[k],
        settle(m, i, succeeded).commands.len() == m.commands.len(),
        forall|k: int|
            0 <= k < m.commands.len() ==> #[trigger] settle(m, i, succeeded).commands[k].1
                == m.commands[k].1,
        forall|k: int|
            0 <= k < m.commands.len() && k != i ==> #[trigger] settle(m, i, succeeded).commands[k]
                == m.commands[k],
{
    lemma_feed_appends(m, f);
}

/// Commands enter the ledger in the order their statements are finished:
/// over any run of fragments, the commands there before stay at the front,
/// and each fragment adds at most one pending command, at the end.
pub proof fn lemma_finish_order(m: Ledger, fs: Seq<Seq<char>>)
    ensures
        m.commands.len() <= feed_all(m, fs).commands.len(),
        feed_all(m, fs).commands.subrange(0, m.commands.len() as int) == m.commands,
        fs.len() > 0 ==> (feed_all(m, fs).commands == feed_all(m, fs.drop_last()).commands
            || exists|t: Seq<char>|
            feed_all(m, fs).commands == feed_all(m, fs.drop_last()).commands.push(
                (Phase::Pending, t),
            )),
    decreases fs.len(),
{
    if fs.len() == 0 {
        assert(m.commands.subrange(0, m.commands.len() as int) =~= m.commands);
    } else {
        let p = feed_all(m, fs.drop_last());
        lemma_finish_order(m, fs.drop_last());
        lemma_feed_appends(p, fs.last());
        let n = feed_all(m, fs).commands;
        assert(n.subrange(0, m.commands.len() as int) =~= p.commands.subrange(
            0,
            m.commands.len() as int,
        ));
    }
}

proof fn lemma_first_pending_skips(cs: Seq<(Phase, Seq<char>)>, ds: Seq<(Phase, Seq<char>)>, i: int)
    requires
        cs.len() == ds.len(),
        0 <= i <= cs.len(),
        forall|k: int| i <= k < cs.len() ==> cs[k] == ds[k],
    ensures
        first_pending_from(cs, i) == first_pending_from(ds, i),
    decreases cs.len() - i,
{
    if i < cs.len() {
        lemma_first_pending_skips(cs, ds, i + 1);
    }
}

proof fn lemma_first_pending_at(cs: Seq<(Phase, Seq<char>)>, i: int, j: int)
    requires
        0 <= j <= i < cs.len(),
        first_pending_from(cs, j) == Some(i),
    ensures
        forall|k: int| j <= k < i ==> cs[k].0 != Phase::Pending,
    decreases i - j,
{
    if j < i {
        lemma_first_pending_at(cs, i, j + 1);
    }
}

proof fn lemma_first_pending_past(cs: Seq<(Phase, Seq<char>)>, i: int, j: int)
    requires
        0 <= j <= i + 1,
        i < cs.len(),
        cs[i].0 != Phase::Pending,
        forall|k: int| j <= k < i ==> cs[k].0 != Phase::Pending,
    ensures
        first_pending_from(cs, j) == first_pending_from(cs, i + 1),
    decreases i + 1 - j,
{
    if j <= i {
        lemma_first_pending_past(cs, i, j + 1);
    }
}

/// A failed dispatch does not stop the ones after it: whatever the outcome
/// of the command that dispatch takes next, the next one taken after it is
/// the first pending command past it, and every other command is the same
/// either way.
pub proof fn lemma_failure_isolated(m: Ledger, i: int)
    requires
        first_pending(m.commands) == Some(i),
    ensures
        first_pending(settle(m, i, false).commands) == first_pending_from(m.commands, i + 1),
        first_pending(settle(m, i, true).commands) == first_pending_from(m.commands, i + 1),
        forall|k: int|
            0 <= k < m.commands.len() && k != i ==> #[trigger] settle(m, i, false).commands[k]
                == settle(m, i, true).commands[k],
{
    let cs = m.commands;
    lemma_find_pending_in_range(cs, 0);
    lemma_first_pending_at(cs, i, 0);
    let bad = settle(m, i, false).commands;
    let good = settle(m, i, true).commands;
    lemma_first_pending_skips(bad, cs, i + 1);
    lemma_first_pending_skips(good, cs, i + 1);
    lemma_first_pending_past(bad, i, 0);
    lemma_first_pending_past(good, i, 0);
}

proof fn lemma_find_pending_in_range(cs: Seq<(Phase, Seq<char>)>, j: int)
    requires
        0 <= j,
    ensures
        first_pending_from(cs, j) matches Some(i) ==> j <= i < cs.len() && cs[i].0
            == Phase::Pending,
    decreases cs.len() - j,
{
    if j < cs.len() && cs[j].0 != Phase::Pending {
        lemma_find_pending_in_range(cs, j + 1);
    }
}

/// The positions of the pending commands at or after `i`, in order.
pub open spec fn pending_from(cs: Seq<(Phase, Seq<char>)>, i: int) -> Seq<int>
    decreases cs.len() - i,
{
    if i < 0 || i >= cs.len() {
        Seq::empty()
    } else if cs[i].0 == Phase::Pending {
        seq![i] + pending_from(cs, i + 1)
    } else {
        pending_from(cs, i + 1)
    }
}

/// The positions of the pending commands, in order.
pub open spec fn pending_positions(cs: Seq<(Phase, Seq<char>)>) -> Seq<int> {
    pending_from(cs, 0)
}

/// The phase a dispatch outcome moves a pending command to.
pub open spec fn outcome_phase(succeeded: bool) -> Phase {
    if succeeded {
        Phase::Complete
    } else {
        Phase::Errored
    }
}

/// Dispatch run to the end: each outcome in turn is recorded for the
/// command that dispatch takes next, while one is pending.
pub open spec fn dispatch_run(m: Ledger, outcomes: Seq<bool>) -> Ledger
    decreases outcomes.len(),
{
    if outcomes.len() == 0 {
        m
    } else {
        let p = dispatch_run(m, outcomes.drop_last());
        match first_pending(p.commands) {
            Some(i) => settle(p, i, outcomes.last()),
            None => p,
        }
    }
}

proof fn lemma_pending_from(cs: Seq<(Phase, Seq<char>)>, i: int)
    requires
        0 <= i,
    ensures
        forall|t: int|
            0 <= t < pending_from(cs, i).len() ==> i <= #[trigger] pending_from(cs, i)[t]
                < cs.len() && cs[pending_from(cs, i)[t]].0 == Phase::Pending,
        forall|t1: int, t2: int|
            0 <= t1 < t2 < pending_from(cs, i).len() ==> #[trigger] pending_from(cs, i)[t1]
                < #[trigger] pending_from(cs, i)[t2],
        forall|q: int|
            i <= q < cs.len() && #[trigger] cs[q].0 == Phase::Pending ==> exists|t: int|
                0 <= t < pending_from(cs, i).len() && pending_from(cs, i)[t] == q,
    decreases cs.len() - i,
{
    if i < cs.len() {
        lemma_pending_from(cs, i + 1);
        let rest = pending_from(cs, i + 1);
        if cs[i].0 == Phase::Pending {
            let ps = seq![i] + rest;
            assert(pending_from(cs, i) == ps);
            assert forall|t: int| 0 < t < ps.len() implies ps[t] == rest[t - 1] by {}
            assert forall|q: int|
                i <= q < cs.len() && #[trigger] cs[q].0 == Phase::Pending implies exists|t: int|
                    0 <= t < ps.len() && ps[t] == q by {
                if q == i {
                    assert(ps[0] == q);
                } else {
                    let t = choose|t: int| 0 <= t < rest.len() && rest[t] == q;
                    assert(ps[t + 1] == q);
                }
            }
        }
    }
}

proof fn lemma_first_pending_reach(cs: Seq<(Phase, Seq<char>)>, j: int, i: int)
    requires
        0 <= j <= i < cs.len(),
        cs[i].0 == Phase::Pending,
        forall|q: int| j <= q < i ==> cs[q].0 != Phase::Pending,
    ensures
        first_pending_from(cs, j) == Some(i),
    decreases i - j,
{
    if j < i {
        lemma_first_pending_reach(cs, j + 1, i);
    }
}

proof fn lemma_first_pending_none(cs: Seq<(Phase, Seq<char>)>, j: int)
    requires
        0 <= j,
        forall|q: int| j <= q < cs.len() ==> cs[q].0 != Phase::Pending,
    ensures
        first_pending_from(cs, j) is None,
    decreases cs.len() - j,
{
    if j < cs.len() {
        lemma_first_pending_none(cs, j + 1);
    }
}

/// Where a dispatch run stands after `j` outcomes: the first `j` pending
/// commands carry their outcomes, and everything else is as it was.
pub open spec fn run_after(m: Ledger, r: Ledger, outcomes: Seq<bool>, j: int) -> bool {
    let cs = m.commands;
    let ps = pending_positions(cs);
    let bound = if j < ps.len() {
        ps[j]
    } else {
        cs.len() as int
    };
    &&& r.commands.len() == cs.len()
    &&& forall|q: int|
        0 <= q < cs.len() && cs[q].0 != Phase::Pending ==> #[trigger] r.commands[q] == cs[q]
    &&& forall|t: int|
        0 <= t < j ==> r.commands[#[trigger] ps[t]] == (outcome_phase(outcomes[t]), cs[ps[t]].1)
    &&& forall|q: int| bound <= q < cs.len() ==> #[trigger] r.commands[q] == cs[q]
    &&& forall|q: int| 0 <= q < bound ==> (#[trigger] r.commands[q]).0 != Phase::Pending
}

proof fn lemma_run_prefix(m: Ledger, outcomes: Seq<bool>, j: int)
    requires
        0 <= j <= outcomes.len() == pending_positions(m.commands).len(),
    ensures
        run_after(m, dispatch_run(m, outcomes.take(j)), outcomes, j),
        j < outcomes.len() ==> first_pending(dispatch_run(m, outcomes.take(j)).commands) == Some(
            pending_positions(m.commands)[j],
        ),
        j == outcomes.len() ==> first_pending(dispatch_run(m, outcomes.take(j)).commands) is None,
    decreases j,
{
    let cs = m.commands;
    let ps = pending_positions(cs);
    let k = ps.len() as int;
    lemma_pending_from(cs, 0);
    if j > 0 {
        lemma_run_prefix(m, outcomes, j - 1);
        let p = dispatch_run(m, outcomes.take(j - 1));
        assert(outcomes.take(j).drop_last() =~= outcomes.take(j - 1));
        let i = ps[j - 1];
        let r = dispatch_run(m, outcomes.take(j));
        assert(r == settle(p, i, outcomes[j - 1]));
        let bound = if j < k {
            ps[j]
        } else {
            cs.len() as int
        };
        assert forall|q: int| 0 <= q < bound implies (#[trigger] r.commands[q]).0
            != Phase::Pending by {
            if q < i {
            } else if q == i {
            } else if cs[q].0 == Phase::Pending {
                let t = choose|t: int| 0 <= t < ps.len() && ps[t] == q;
                if t <= j - 1 {
                    if t < j - 1 {
                        assert(ps[t] < ps[j - 1]);
                    }
                }
                if j < k && t >= j {
                    if t > j {
                        assert(ps[j] < ps[t]);
                    }
                }
            }
        }
        assert forall|t: int| 0 <= t < j implies r.commands[#[trigger] ps[t]] == (
            outcome_phase(outcomes[t]),
            cs[ps[t]].1,
        ) by {
            if t < j - 1 {
                assert(ps[t] < ps[j - 1]);
                assert(outcomes.take(j - 1)[t] == outcomes[t]);
            }
        }
        assert forall|q: int| bound <= q < cs.len() implies #[trigger] r.commands[q] == cs[q] by {
            if j < k {
                assert(ps[j - 1] < ps[j]);
            }
        }
    } else {
        assert(outcomes.take(0) =~= Seq::<bool>::empty());
    }
    let r = dispatch_run(m, outcomes.take(j));
    if j < k {
        lemma_first_pending_reach(r.commands, 0, ps[j]);
    } else {
        lemma_first_pending_none(r.commands, 0);
    }
}

/// Dispatch of a whole ledger, one outcome per pending command: the `j`-th
/// dispatch takes the `j`-th pending command whatever the earlier outcomes
/// were; each of those ends with the phase its own outcome gives and its
/// text unchanged; every other command is left as it was; and nothing is
/// pending at the end.
pub proof fn lemma_dispatch_run(m: Ledger, outcomes: Seq<bool>)
    requires
        outcomes.len() == pending_positions(m.commands).len(),
    ensures
        forall|j: int|
            0 <= j < outcomes.len() ==> first_pending(
                #[trigger] dispatch_run(m, outcomes.take(j)).commands,
            ) == Some(pending_positions(m.commands)[j]),
        dispatch_run(m, outcomes).commands.len() == m.commands.len(),
        forall|j: int|
            0 <= j < outcomes.len() ==> dispatch_run(m, outcomes).commands[#[trigger] pending_positions(
                m.commands,
            )[j]] == (outcome_phase(outcomes[j]), m.commands[pending_positions(m.commands)[j]].1),
        forall|q: int|
            0 <= q < m.commands.len() && m.commands[q].0 != Phase::Pending ==> #[trigger] dispatch_run(
                m,
                outcomes,
            ).commands[q] == m.commands[q],
        first_pending(dispatch_run(m, outcomes).commands) is None,
{
    assert forall|j: int| 0 <= j < outcomes.len() implies first_pending(
        #[trigger] dispatch_run(m, outcomes.take(j)).commands,
    ) == Some(pending_positions(m.commands)[j]) by {
        lemma_run_prefix(m, outcomes, j);
    }
    lemma_run_prefix(m, outcomes, outcomes.len() as int);
    assert(outcomes.take(outcomes.len() as int) =~= outcomes);
}

/// A line as the batch segmenter sees it after trimming: non-empty, with
/// no white space at either end, and holding neither marker once its
/// terminator is added.
pub open spec fn is_plain_line(l: Seq<char>) -> bool {
    &&& l.len() > 0
    &&& !is_space(l[0])
    &&& !is_space(l.last())
    &&& !(has(l.push('\n'), start_tag()))
    &&& !(has(l.push('\n'), end_tag()))
}

/// Statements as the ledger holds them: pending, each with a terminator.
pub open spec fn as_pending(ts: Seq<Seq<char>>) -> Seq<(Phase, Seq<char>)> {
    ts.map_values(|t: Seq<char>| (Phase::Pending, t.push('\n')))
}

proof fn lemma_plain_line_effect(l: Seq<char>)
    requires
        l.len() > 0,
        !is_space(l[0]),
        !is_space(l.last()),
    ensures
        line_delta(l.push('\n')) == line_delta(l),
        forall|open: bool| next_construct(open, l.push('\n')) == next_construct(open, l),
{
    let lt = l.push('\n');
    assert(lt.drop_last() =~= l);
    assert(trim_start(l) == l);
    assert(trim_start(lt) == lt);
    assert(trim_end(lt) == trim_end(l));
    assert(trim_end(l) == l);
    assert(trim(lt) == trim(l));
    assert(count(lt, '{') == count(l, '{'));
    assert(count(lt, '}') == count(l, '}'));
}

proof fn lemma_balance_terminated(acc: Seq<Seq<char>>)
    requires
        forall|k: int| 0 <= k < acc.len() ==> is_plain_line(#[trigger] acc[k]),
    ensures
        balance_of(with_terminator(acc)) == balance_of(acc),
    decreases acc.len(),
{
    if acc.len() > 0 {
        let dl = acc.drop_last();
        assert forall|k: int| 0 <= k < dl.len() implies is_plain_line(#[trigger] dl[k]) by {
            assert(dl[k] == acc[k]);
        }
        lemma_balance_terminated(dl);
        assert(with_terminator(acc).drop_last() =~= with_terminator(dl));
        assert(is_plain_line(acc[acc.len() - 1]));
        lemma_plain_line_effect(acc.last());
    }
}

/// Streaming and batch segmentation agree: inside the region, with nothing
/// gathered yet, taking trimmed non-empty lines that hold no marker one
/// fragment per line (each with its terminator) adds exactly the statements
/// the batch segmenter forms from those lines, each with a terminator, and
/// leaves gathered exactly the lines of the statement still open there.
pub proof fn lemma_stream_matches_batch(m: Ledger, ls: Seq<Seq<char>>)
    requires
        m.within,
        m.current_line.len() == 0,
        m.lines.len() == 0,
        forall|k: int| 0 <= k < ls.len() ==> is_plain_line(#[trigger] ls[k]),
    ensures
        feed_all(m, with_terminator(ls)).commands == m.commands + as_pending(segment(ls).0),
        feed_all(m, with_terminator(ls)).lines == with_terminator(segment(ls).1),
        feed_all(m, with_terminator(ls)).within,
        feed_all(m, with_terminator(ls)).current_line.len() == 0,
        forall|k: int|
            0 <= k < segment(ls).1.len() ==> is_plain_line(#[trigger] segment(ls).1[k]),
    decreases ls.len(),
{
    if ls.len() == 0 {
        assert(feed_all(m, with_terminator(ls)) == m);
        assert(m.commands + as_pending(Seq::<Seq<char>>::empty()) =~= m.commands);
        assert(with_terminator(Seq::<Seq<char>>::empty()) =~= m.lines);
    } else {
        let dl = ls.drop_last();
        let l = ls.last();
        assert forall|k: int| 0 <= k < dl.len() implies is_plain_line(#[trigger] dl[k]) by {
            assert(dl[k] == ls[k]);
        }
        lemma_stream_matches_batch(m, dl);
        assert(is_plain_line(ls[ls.len() - 1]));
        assert(with_terminator(ls).drop_last() =~= with_terminator(dl));
        let p = feed_all(m, with_terminator(dl));
        let f = l.push('\n');
        assert(feed_all(m, with_terminator(ls)) == feed(p, f));
        assert(f.subrange(l.len() as int, l.len() + 1 as int) =~= seq!['\n']);
        lemma_find_from_some(f, seq!['\n'], 0, l.len() as int);
        assert(p.current_line + f =~= f);
        let (done, acc) = segment(dl);
        let acc2 = acc.push(l);
        assert forall|k: int| 0 <= k < acc2.len() implies is_plain_line(#[trigger] acc2[k]) by {
            if k < acc.len() {
                assert(acc2[k] == acc[k]);
            }
        }
        assert(with_terminator(acc2) =~= with_terminator(acc).push(f));
        lemma_balance_terminated(acc2);
        let r = feed(p, f);
        if is_balanced(acc2) {
            assert(as_pending(done.push(trim(joined_lines(acc2)))) =~= as_pending(done).push(
                (Phase::Pending, trim(joined_lines(acc2)).push('\n')),
            ));
            assert(r.commands =~= m.commands + as_pending(segment(ls).0));
            assert(r.lines =~= with_terminator(segment(ls).1));
        }
    }
}

impl CommandResponse {
    pub fn new() -> (r: Self)
        ensures
            r@.current_line.len() == 0,
            r@.lines.len() == 0,
            !r@.within,
            r@.commands.len() == 0,
    {
        let r = CommandResponse {
            within_command_response: false,
            current_line: String::new(),
            current_command_lines: Vec::new(),
            commands: Vec::new(),
        };
        assert(r@.lines =~= Seq::empty());
        assert(r@.commands =~= Seq::empty());
        r
    }

    /// Turns the gathered lines into a pending command, given their text.
    fn finish(&mut self, text: String)
        requires
            text@ == trim(concat(old(self)@.lines)),
        ensures
            final(self)@ == finish_statement(old(self)@),
    {
        let mut command = text;
        let nl = "\n";
        proof {
            reveal_strlit("\n");
        }
        command.append(nl);
        assert(command@ =~= text@.push('\n'));
        let ghost before = command_views(self.commands@);
        self.commands.push(Command::Pending(command));
        assert(command_views(self.commands@) =~= before.push(
            (Phase::Pending, trim(concat(old(self)@.lines)).push('\n')),
        ));
        self.current_command_lines = Vec::new();
        assert(self@.lines =~= Seq::<Seq<char>>::empty());
    }

    /// Takes the next fragment of the stream. Returns whether a command was
    /// added.
    pub fn handle_next_stream_value(&mut self, next_stream_response: &String) -> (r: bool)
        ensures
            final(self)@ == feed(old(self)@, next_stream_response@),
            r == (final(self)@.commands.len() > old(self)@.commands.len()),
    {
        let current_line = format_current_line(
            self.current_line.as_str(),
            next_stream_response.as_str(),
        );
        match current_line {
            Response::Incomplete(line) => {
                self.current_line = line;
                false
            },
            Response::Complete(line) => {
                let before = self.commands.len();
                self.current_line = String::new();
                let chars = chars_of(line.as_str());
                if find_chars(&chars, &start_tag_chars()).is_some() {
                    self.within_command_response = true;
                } else if find_chars(&chars, &end_tag_chars()).is_some() {
                    if self.current_command_lines.len() > 0 {
                        let text = match process_lines(&mut self.current_command_lines) {
                            Response::Complete(t) => t,
                            Response::Incomplete(t) => t,
                        };
                        self.finish(text);
                    }
                    self.within_command_response = false;
                } else if self.within_command_response {
                    self.current_command_lines.push(line);
                    assert(self@.lines =~= old(self)@.lines.push(
                        old(self)@.current_line + next_stream_response@,
                    ));
                    if let Response::Complete(text) = process_lines(
                        &mut self.current_command_lines,
                    ) {
                        self.finish(text);
                    }
                }
                self.commands.len() > before
            },
        }
    }

    /// The position of the command that dispatch takes next, if any is
    /// pending.
    pub fn next_pending(&self) -> (r: Option<usize>)
        ensures
            r matches Some(i) ==> first_pending(self@.commands) == Some(i as int),
            r is None ==> first_pending(self@.commands) is None,
    {
        let ghost cs = self@.commands;
        let mut i: usize = 0;
        while i < self.commands.len()
            invariant
                cs == command_views(self.commands@),
                i <= self.commands.len(),
                first_pending(cs) == first_pending_from(cs, i as int),
            decreases self.commands.len() - i,
        {
            if let Command::Pending(_) = &self.commands[i] {
                return Some(i);
            }
            i = i + 1;
        }
        None
    }

    /// Records the outcome of dispatching command `index`.
    pub fn record_dispatch(&mut self, index: usize, succeeded: bool)
        ensures
            final(self)@ == settle(old(self)@, index as int, succeeded),
    {
        if index < self.commands.len() {
            if let Command::Pending(text) = &self.commands[index] {
                let text = text.clone();
                let ghost before = command_views(self.commands@);
                let next = if succeeded {
                    Command::Complete(text)
                } else {
                    Command::Errored(text)
                };
                self.commands.set(index, next);
                assert(command_views(self.commands@) =~= before.update(
                    index as int,
                    (
                        if succeeded {
                            Phase::Complete
                        } else {
                            Phase::Errored
                        },
                        before[index as int].1,
                    ),
                ));
                if succeeded {
                    self.current_command_lines = Vec::new();
                    assert(self@.lines =~= Seq::<Seq<char>>::empty());
                }
            }
        }
    }

    /// The commands whose dispatch failed, in ledger order. They are kept
    /// as they are; nothing retries them.
    pub fn errored_commands(&self) -> (r: Vec<Command>)
        ensures
            command_views(r@) == errored(self@.commands),
    {
        let ghost cs = self@.commands;
        let mut r: Vec<Command> = Vec::new();
        let mut i: usize = 0;
        while i < self.commands.len()
            invariant
                cs == command_views(self.commands@),
                i <= self.commands.len(),
                command_views(r@) == errored(cs.take(i as int)),
            decreases self.commands.len() - i,
        {
            assert(cs.take(i + 1).drop_last() =~= cs.take(i as int));
            if let Command::Errored(text) = &self.commands[i] {
                let ghost before = command_views(r@);
                r.push(Command::Errored(text.clone()));
                assert(command_views(r@) =~= before.push(cs[i as int]));
            }
            i = i + 1;
        }
        assert(cs.take(i as int) =~= cs);
        r
    }
}

} // verus!
