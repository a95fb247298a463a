use vstd::prelude::*;
use crate::text::{
    lemma_find_from_first, lemma_find_from_none, lemma_find_from_some, law_strip_white_space_keeps_the_rest,
    occurs_at,
    chars_of, find_first, is_white_space, lemma_strip_white_space, find_pattern, lemma_find_from_occurs, parse_u64_exec, parse_u64_spec,
    second_field, second_field_exec, starts_with, starts_with_exec, string_from_chars,
    strip_white_space, strip_white_space_from,
};

verus! {

// ----------------------------------------------------------------------------
// Regular expressions (the `regex` crate)
// ----------------------------------------------------------------------------

/// Whether `regex::Regex::new` accepts `pattern`. Compiling depends on the
/// pattern alone.
pub uninterp spec fn regex_accepts(pattern: Seq<char>) -> bool;

/// What `Regex::replace_all` makes of `haystack` when every match of `pattern`
/// is replaced by `replacement` (with `$` group references expanded).
pub uninterp spec fn regex_replaced(
    pattern: Seq<char>,
    haystack: Seq<char>,
    replacement: Seq<char>,
) -> Seq<char>;

/// Compiles `pattern` with `regex::Regex::new` and reports whether it was accepted.
/// Trusted: the answer is named `regex_accepts(pattern)`; what it is for a
/// given pattern is left to the regex crate.
#[verifier::external_body]
fn regex_is_valid(pattern: &str) -> (ok: bool)
    ensures
        ok == regex_accepts(pattern@),
{
    regex::Regex::new(pattern).is_ok()
}

/// Replaces every match of `pattern` in `haystack` by `replacement`, with
/// `regex::Regex::new(pattern)` and `Regex::replace_all`.
/// Trusted: the result is named `regex_replaced(pattern, haystack, replacement)`.
/// The pattern must compile, so the `unwrap` cannot fail.
#[verifier::external_body]
fn regex_replace_all(pattern: &str, haystack: &str, replacement: &str) -> (res: String)
    requires
        regex_accepts(pattern@),
    ensures
        res@ == regex_replaced(pattern@, haystack@, replacement@),
{
    regex::Regex::new(pattern).unwrap().replace_all(haystack, replacement).into_owned()
}

// ----------------------------------------------------------------------------
// The model of one simulator output line
// ----------------------------------------------------------------------------

/// Ticks of progress gathered before the progress bars are advanced.
pub const PROGRESS_BATCH: u64 = 50;

/// The marker that announces a record of the robots' script.
pub open spec fn buzz_marker() -> Seq<char> {
    seq!['B', 'U', 'Z', 'Z', ':']
}

/// The prefix of a map record.
pub open spec fn map_prefix() -> Seq<char> {
    seq!['M', 'A', 'P', ',']
}

/// The record a line of simulator output carries: the line must hold `BUZZ:`;
/// after the colour codes matched by `pattern` are removed, the record is what
/// follows the first `BUZZ:`, with all white space taken out.
pub open spec fn buzz_record(pattern: Seq<char>, line: Seq<char>) -> Option<Seq<char>> {
    if find_first(line, buzz_marker()) is None {
        None
    } else {
        let clean = regex_replaced(pattern, line, Seq::empty());
        match find_first(clean, buzz_marker()) {
            None => None,
            Some(i) => Some(strip_white_space(clean.skip(i + 5))),
        }
    }
}

/// The tick a data record reports: its second comma-separated field, as a `u64`.
pub open spec fn record_tick(record: Seq<char>) -> Option<u64> {
    match second_field(record) {
        Some(f) => parse_u64_spec(f),
        None => None,
    }
}

/// Progress of one run, in simulation ticks.
#[derive(Clone, Copy, Debug, PartialEq, Eq, Structural)]
pub struct Progress {
    /// The latest tick reported so far.
    pub last_tick: u64,
    /// Ticks gathered but not yet passed on to the progress bars.
    pub pending: u64,
    /// The number of ticks the run will take.
    pub total_ticks: u64,
}

pub open spec fn progress_wf(p: Progress) -> bool {
    &&& p.pending < PROGRESS_BATCH
    &&& p.last_tick <= p.total_ticks
    &&& p.total_ticks <= u32::MAX
}

/// A fresh run of `total_ticks` ticks.
pub open spec fn fresh_progress(total_ticks: u32) -> Progress {
    Progress { last_tick: 0, pending: 0, total_ticks: total_ticks as u64 }
}

/// Taking in a reported tick: a tick beyond the latest and within the run moves
/// the latest tick and gathers the difference; once `PROGRESS_BATCH` ticks are
/// gathered they are handed out (the second component) and the gathering
/// restarts. Other ticks change nothing.
pub open spec fn take_tick(p: Progress, tick: Option<u64>) -> (Progress, u64) {
    match tick {
        Some(t) => if t > p.last_tick && t <= p.total_ticks {
            let gathered = p.pending + (t - p.last_tick);
            if gathered >= PROGRESS_BATCH {
                (Progress { last_tick: t, pending: 0, total_ticks: p.total_ticks }, gathered as u64)
            } else {
                (Progress { last_tick: t, pending: gathered as u64, total_ticks: p.total_ticks }, 0)
            }
        } else {
            (p, 0)
        },
        None => (p, 0),
    }
}

/// What one output line does to the progress of a run, and how many ticks it hands
/// out: only data records (not map records, not empty ones) report ticks.
pub open spec fn line_step(pattern: Seq<char>, p: Progress, line: Seq<char>) -> (Progress, u64) {
    match buzz_record(pattern, line) {
        Some(r) => if !starts_with(r, map_prefix()) && r.len() > 0 {
            take_tick(p, record_tick(r))
        } else {
            (p, 0)
        },
        None => (p, 0),
    }
}

/// Ticks still to hand out when the run ends: the gathered ones, then, if the
/// run's `length` exceeds the latest tick, the difference.
pub open spec fn closing_ticks(p: Progress, length: u32) -> (u64, u64) {
    (p.pending, if length > p.last_tick { (length - p.last_tick) as u64 } else { 0 })
}

/// What to do with one line of simulator output.
pub enum LineAction {
    /// Nothing: the line carries no record.
    Skip,
    /// Append `record` to the map file.
    MapRecord { record: String },
    /// Append `record` to the data file, and advance the progress bars by `advance`.
    DataRecord { record: String, advance: u64 },
}

pub open spec fn advance_of(act: LineAction) -> u64 {
    match act {
        LineAction::DataRecord { advance, .. } => advance,
        _ => 0,
    }
}

// ----------------------------------------------------------------------------
// The monitor of one run
// ----------------------------------------------------------------------------

/// Follows the output of one simulator run: which lines to keep, and how far
/// the run has come.
pub struct RunMonitor {
    ansi_pattern: String,
    progress: Progress,
}

impl View for RunMonitor {
    type V = Progress;

    closed spec fn view(&self) -> Progress {
        self.progress
    }
}

fn take_tick_exec(p: Progress, tick: Option<u64>) -> (res: (Progress, u64))
    requires
        progress_wf(p),
    ensures
        res == take_tick(p, tick),
        progress_wf(res.0),
{
    match tick {
        Some(t) => if t > p.last_tick && t <= p.total_ticks {
            let gathered = p.pending + (t - p.last_tick);
            if gathered >= PROGRESS_BATCH {
                (Progress { last_tick: t, pending: 0, total_ticks: p.total_ticks }, gathered)
            } else {
                (Progress { last_tick: t, pending: gathered, total_ticks: p.total_ticks }, 0)
            }
        } else {
            (p, 0)
        },
        None => (p, 0),
    }
}

impl RunMonitor {
    #[verifier::type_invariant]
    spec fn inv(self) -> bool {
        &&& regex_accepts(self.ansi_pattern@)
        &&& progress_wf(self.progress)
    }

    /// The pattern of the colour codes to strip.
    pub closed spec fn pattern(&self) -> Seq<char> {
        self.ansi_pattern@
    }

    /// A monitor for a run of `total_ticks` ticks whose output marks colours
    /// with codes matching `ansi_pattern`; `None` when the pattern does not compile.
    pub fn new(ansi_pattern: &str, total_ticks: u32) -> (res: Option<RunMonitor>)
        ensures
            res is Some <==> regex_accepts(ansi_pattern@),
            res matches Some(m) ==> m@ == fresh_progress(total_ticks) && m.pattern()
                == ansi_pattern@,
    {
        if regex_is_valid(ansi_pattern) {
            Some(
                RunMonitor {
                    ansi_pattern: String::from_str(ansi_pattern),
                    progress: Progress { last_tick: 0, pending: 0, total_ticks: total_ticks as u64 },
                },
            )
        } else {
            None
        }
    }

    /// The progress so far.
    pub fn progress(&self) -> (p: Progress)
        ensures
            p == self@,
            progress_wf(p),
    {
        proof {
            use_type_invariant(self);
        }
        self.progress
    }

    /// Reads one line of simulator output: a line without `BUZZ:` is skipped;
    /// otherwise the colour codes are stripped and the record after the first
    /// `BUZZ:` is taken with its white space removed. A record starting with
    /// `MAP,` goes to the map file; any other non-empty record goes to the data
    /// file, and its second field, read as a tick, advances the progress.
    pub fn process_line(&mut self, line: &str) -> (act: LineAction)
        ensures
            final(self).pattern() == old(self).pattern(),
            (final(self)@, advance_of(act)) == line_step(old(self).pattern(), old(self)@, line@),
            match buzz_record(old(self).pattern(), line@) {
                None => act is Skip,
                Some(r) => if r.len() >= 4 && r.take(4) == seq!['M', 'A', 'P', ','] {
                    act matches LineAction::MapRecord { record } && record@ == r
                } else if r.len() == 0 {
                    act is Skip
                } else {
                    act matches LineAction::DataRecord { record, advance } && record@ == r
                },
            },
    {
        proof {
            use_type_invariant(&*self);
        }
        let chars = chars_of(line);
        let marker: Vec<char> = vec!['B', 'U', 'Z', 'Z', ':'];
        assert(marker@ =~= buzz_marker());
        match find_pattern(&chars, &marker) {
            None => {
                return LineAction::Skip;
            },
            Some(_) => {},
        }
        let empty = "";
        proof {
            reveal_strlit("");
            assert(empty@ =~= Seq::<char>::empty());
        }
        let clean_line = regex_replace_all(self.ansi_pattern.as_str(), line, empty);
        let clean = chars_of(clean_line.as_str());
        let start = match find_pattern(&clean, &marker) {
            None => {
                return LineAction::Skip;
            },
            Some(i) => i,
        };
        proof {
            lemma_find_from_occurs(clean@, buzz_marker(), 0);
        }
        let clean_len = clean.len();
        assert(start + 5 <= clean_len);
        let record = strip_white_space_from(&clean, start + 5);
        let map_mark: Vec<char> = vec!['M', 'A', 'P', ','];
        assert(map_mark@ =~= map_prefix());
        assert(map_prefix() =~= seq!['M', 'A', 'P', ',']);
        if starts_with_exec(&record, &map_mark) {
            return LineAction::MapRecord { record: string_from_chars(&record) };
        }
        if record.len() == 0 {
            return LineAction::Skip;
        }
        let tick = match second_field_exec(&record) {
            Some(f) => parse_u64_exec(&f),
            None => None,
        };
        let (next, advance) = take_tick_exec(self.progress, tick);
        self.progress = next;
        LineAction::DataRecord { record: string_from_chars(&record), advance }
    }

    /// The ticks to hand out when the run ends: first the gathered ones, then
    /// the rest up to `length` when the run reported less than that.
    pub fn finish(&self, length: u32) -> (res: (u64, u64))
        ensures
            res == closing_ticks(self@, length),
    {
        proof {
            use_type_invariant(self);
        }
        let tail = if (length as u64) > self.progress.last_tick {
            (length as u64) - self.progress.last_tick
        } else {
            0
        };
        (self.progress.pending, tail)
    }
}

// ----------------------------------------------------------------------------
// Laws
// ----------------------------------------------------------------------------

/// Records that reach the map and data files hold no white space.
pub proof fn law_records_hold_no_white_space(pattern: Seq<char>, line: Seq<char>)
    ensures
        buzz_record(pattern, line) matches Some(r) ==> forall|i: int|
            0 <= i < r.len() ==> !is_white_space(#[trigger] r[i]),
{
    if buzz_record(pattern, line) is Some {
        let clean = regex_replaced(pattern, line, Seq::empty());
        let i = find_first(clean, buzz_marker())->0;
        lemma_strip_white_space(clean.skip(i + 5));
    }
}

/// The progress after a run's output `lines`, with the ticks handed out meanwhile.
pub open spec fn run_progress(pattern: Seq<char>, p: Progress, lines: Seq<Seq<char>>) -> (Progress, int)
    decreases lines.len(),
{
    if lines.len() == 0 {
        (p, 0)
    } else {
        let (q, handed) = run_progress(pattern, p, lines.drop_last());
        let (q2, more) = line_step(pattern, q, lines.last());
        (q2, handed + more)
    }
}

/// Every step keeps the progress well formed, never moves the latest tick back,
/// and hands out exactly the ticks gathered: handed out plus pending equals the
/// distance the latest tick moved.
pub proof fn law_line_step_accounts(pattern: Seq<char>, p: Progress, line: Seq<char>)
    requires
        progress_wf(p),
    ensures
        progress_wf(line_step(pattern, p, line).0),
        line_step(pattern, p, line).0.total_ticks == p.total_ticks,
        p.last_tick <= line_step(pattern, p, line).0.last_tick,
        line_step(pattern, p, line).1 + line_step(pattern, p, line).0.pending - p.pending
            == line_step(pattern, p, line).0.last_tick - p.last_tick,
{
}

/// Over a whole run that starts fresh, the ticks handed out while reading, plus
/// those handed out at the end, add up to the larger of the latest tick seen and
/// the run's `length`; and the latest tick never passes the run's total.
pub proof fn law_progress_adds_up(
    pattern: Seq<char>,
    total_ticks: u32,
    lines: Seq<Seq<char>>,
    length: u32,
)
    ensures
        ({
            let (p, handed) = run_progress(pattern, fresh_progress(total_ticks), lines);
            let (flush, tail) = closing_ticks(p, length);
            &&& p.last_tick <= total_ticks
            &&& handed + flush + tail == if length > p.last_tick {
                length as int
            } else {
                p.last_tick as int
            }
        }),
{
    lemma_run_accounts(pattern, total_ticks, lines);
}

proof fn lemma_run_accounts(pattern: Seq<char>, total_ticks: u32, lines: Seq<Seq<char>>)
    ensures
        ({
            let (p, handed) = run_progress(pattern, fresh_progress(total_ticks), lines);
            &&& progress_wf(p)
            &&& p.total_ticks == total_ticks
            &&& handed + p.pending == p.last_tick
        }),
    decreases lines.len(),
{
    if lines.len() > 0 {
        lemma_run_accounts(pattern, total_ticks, lines.drop_last());
        let (q, _) = run_progress(pattern, fresh_progress(total_ticks), lines.drop_last());
        law_line_step_accounts(pattern, q, lines.last());
    }
}

/// The marker `BUZZ:` stands in `s` at position `i`.
pub open spec fn marker_at(s: Seq<char>, i: int) -> bool {
    0 <= i && i + 5 <= s.len() && s.subrange(i, i + 5) == seq!['B', 'U', 'Z', 'Z', ':']
}

/// The record of a line is exactly what follows the first `BUZZ:` of the line
/// with its colour codes removed, every character but white space kept, in
/// order: nothing is dropped, cut off or added.
pub proof fn law_record_follows_marker(pattern: Seq<char>, line: Seq<char>, k: int, i: int)
    requires
        marker_at(line, k),
        marker_at(regex_replaced(pattern, line, Seq::empty()), i),
        forall|j: int| 0 <= j < i ==> !#[trigger] marker_at(regex_replaced(pattern, line, Seq::empty()), j),
    ensures
        buzz_record(pattern, line) == Some(
            regex_replaced(pattern, line, Seq::empty()).skip(i + 5).filter(
                |c: char| !is_white_space(c),
            ),
        ),
{
    let clean = regex_replaced(pattern, line, Seq::empty());
    assert(buzz_marker() =~= seq!['B', 'U', 'Z', 'Z', ':']);
    assert(occurs_at(line, buzz_marker(), k));
    lemma_find_from_some(line, buzz_marker(), 0, k);
    assert(occurs_at(clean, buzz_marker(), i));
    assert forall|j: int| 0 <= j < i implies !occurs_at(clean, buzz_marker(), j) by {
        assert(!marker_at(clean, j));
    }
    lemma_find_from_first(clean, buzz_marker(), 0, i);
    law_strip_white_space_keeps_the_rest(clean.skip(i + 5));
}

/// A line without `BUZZ:`, or whose `BUZZ:` does not survive the removal of
/// colour codes, carries no record.
pub proof fn law_no_marker_no_record(pattern: Seq<char>, line: Seq<char>)
    ensures
        (forall|k: int| 0 <= k ==> !#[trigger] marker_at(line, k)) ==> buzz_record(pattern, line) is None,
        (forall|k: int| 0 <= k ==> !#[trigger] marker_at(regex_replaced(pattern, line, Seq::empty()), k))
            ==> buzz_record(pattern, line) is None,
{
    assert(buzz_marker() =~= seq!['B', 'U', 'Z', 'Z', ':']);
    let clean = regex_replaced(pattern, line, Seq::empty());
    if forall|k: int| 0 <= k ==> !marker_at(line, k) {
        assert forall|k: int| 0 <= k implies !occurs_at(line, buzz_marker(), k) by {
            assert(!marker_at(line, k));
        }
        lemma_find_from_none(line, buzz_marker(), 0);
    }
    if forall|k: int| 0 <= k ==> !marker_at(clean, k) {
        assert forall|k: int| 0 <= k implies !occurs_at(clean, buzz_marker(), k) by {
            assert(!marker_at(clean, k));
        }
        lemma_find_from_none(clean, buzz_marker(), 0);
    }
}

/// A tick beyond the latest one and not beyond the run's total is always taken
/// in: the latest tick becomes that tick (so the run's final tick brings the
/// progress to its total); the ticks it adds are gathered, and as soon as 50 or
/// more are gathered they are all handed out at once and the gathering restarts.
pub proof fn law_tick_taken_in(p: Progress, t: u64)
    requires
        progress_wf(p),
        p.last_tick < t <= p.total_ticks,
    ensures
        take_tick(p, Some(t)).0.last_tick == t,
        take_tick(p, Some(t)).0.total_ticks == p.total_ticks,
        take_tick(p, Some(t)).1 + take_tick(p, Some(t)).0.pending == p.pending + (t - p.last_tick),
        take_tick(p, Some(t)).0.pending < 50,
        take_tick(p, Some(t)).1 == 0 || take_tick(p, Some(t)).0.pending == 0,
        (take_tick(p, Some(t)).1 > 0) <==> (p.pending + (t - p.last_tick) >= 50),
{
}

/// A missing tick, one not beyond the latest, or one beyond the run's total
/// changes nothing and hands out nothing.
pub proof fn law_other_ticks_ignored(p: Progress, tick: Option<u64>)
    requires
        progress_wf(p),
        tick matches Some(t) ==> t <= p.last_tick || t > p.total_ticks,
    ensures
        take_tick(p, tick) == (p, 0u64),
{
}

/// Only non-empty records other than map records move the progress, and they
/// move it exactly as their tick is taken in; every other line leaves it alone.
pub proof fn law_which_lines_move_progress(pattern: Seq<char>, p: Progress, line: Seq<char>)
    ensures
        match buzz_record(pattern, line) {
            Some(r) => if r.len() > 0 && !(r.len() >= 4 && r.take(4) == seq!['M', 'A', 'P', ',']) {
                line_step(pattern, p, line) == take_tick(p, record_tick(r))
            } else {
                line_step(pattern, p, line) == (p, 0u64)
            },
            None => line_step(pattern, p, line) == (p, 0u64),
        },
{
    assert(map_prefix() =~= seq!['M', 'A', 'P', ',']);
}

} // verus!
