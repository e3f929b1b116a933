//! The replay stream's verified core: the eager line count, the per-line
//! decision, and the clock offset that is fixed exactly once.
use crate::command::{ParsedLine, ReplayCommand, ReplayCommandDelayed, ReplayItem, spec_parse_line};
use crate::micros::{CLOCK_MAX_MICROS, Micros};
use vstd::prelude::*;

verus! {

/// One event of the underlying line source.
pub enum LineEvent {
    /// The next raw line, without its terminator.
    Line(String),
    /// The file ended.
    Eof,
    /// The source failed to read; treated as the end of the stream.
    ReadError,
}

/// The stream's state: the total line count taken before streaming begins,
/// and the clock offset, set at the first parsed command and never
/// recomputed.
pub struct ReplayManager {
    pub total_count: usize,
    pub clock_diff: Option<Micros>,
}

/// The number of '\n' characters in a text.
pub open spec fn spec_newline_count(s: Seq<char>) -> int
    decreases s.len(),
{
    if s.len() == 0 {
        0
    } else {
        spec_newline_count(s.drop_last()) + if s.last() == '\n' {
            1int
        } else {
            0int
        }
    }
}

/// How many lines a text holds, counted as a buffered line reader reports
/// them: each '\n' ends a line, and a final unterminated fragment counts
/// as one more.
pub open spec fn spec_line_count(s: Seq<char>) -> int {
    if s.len() == 0 {
        0
    } else if s.last() == '\n' {
        spec_newline_count(s)
    } else {
        spec_newline_count(s) + 1
    }
}

proof fn lemma_newline_count_le(s: Seq<char>)
    ensures
        0 <= spec_newline_count(s) <= s.len(),
    decreases s.len(),
{
    if s.len() > 0 {
        lemma_newline_count_le(s.drop_last());
    }
}

/// Counts the lines of the whole log text; this runs to completion before
/// any command is executed.
#[verifier::loop_isolation(false)]
pub fn count_lines(text: &str) -> (r: usize)
    ensures
        r as int == spec_line_count(text@),
{
    let n = text.unicode_len();
    let mut count: usize = 0;
    let mut i: usize = 0;
    proof {
        assert(text@.take(0) =~= Seq::<char>::empty());
    }
    while i < n
        invariant
            0 <= i <= n,
            count as int == spec_newline_count(text@.take(i as int)),
            count <= i,
        decreases n - i,
    {
        let c = text.get_char(i);
        proof {
            assert(text@.take(i + 1).drop_last() =~= text@.take(i as int));
            assert(text@.take(i + 1).last() == text@[i as int]);
        }
        if c == '\n' {
            count += 1;
        }
        i += 1;
    }
    proof {
        assert(text@.take(n as int) =~= text@);
    }
    if n == 0 {
        count
    } else {
        let last = text.get_char(n - 1);
        if last == '\n' {
            count
        } else {
            proof {
                lemma_newline_count_le(text@.drop_last());
            }
            count + 1
        }
    }
}

impl ReplayManager {
    /// A stored clock offset always lies in the range a `now() - ts`
    /// difference can take.
    pub open spec fn wf(&self) -> bool {
        match self.clock_diff {
            Some(d) => -(CLOCK_MAX_MICROS as int) <= d@ <= 2 * (CLOCK_MAX_MICROS as int),
            None => true,
        }
    }

    /// The stream state for a log of `total_count` lines, with no clock
    /// offset fixed yet.
    pub fn new(total_count: usize) -> (r: ReplayManager)
        ensures
            r.wf(),
            r.total_count == total_count,
            r.clock_diff is None,
    {
        ReplayManager { total_count, clock_diff: None }
    }

    /// The eager total line count, for progress reporting.
    pub fn total_count(&self) -> (r: usize)
        ensures
            r == self.total_count,
    {
        self.total_count
    }

    /// The clock offset, once it has been fixed.
    pub fn clock_diff(&self) -> (r: Option<Micros>)
        ensures
            r == self.clock_diff,
    {
        self.clock_diff
    }

    /// Advances the stream by one line event, read at instant `now`.
    ///
    /// The sentinel line yields the empty item; a command line fixes the
    /// clock offset at the first command and yields the command scheduled
    /// at its recorded timestamp plus that fixed offset; end of file, a
    /// read failure and a malformed line all end the stream (`None`) — by
    /// design, one malformed line ends the replay of everything after it.
    pub fn step(&mut self, event: LineEvent, now: Micros) -> (r: Option<ReplayItem>)
        requires
            old(self).wf(),
            0 <= now@ <= CLOCK_MAX_MICROS as int,
        ensures
            final(self).wf(),
            final(self).total_count == old(self).total_count,
            old(self).clock_diff matches Some(d) ==> final(self).clock_diff == Some(d),
            match event {
                LineEvent::Eof => r is None && *final(self) == *old(self),
                LineEvent::ReadError => r is None && *final(self) == *old(self),
                LineEvent::Line(l) => match spec_parse_line(l@) {
                    ParsedLine::Sentinel => r == Some(ReplayItem::Empty) && *final(self) == *old(
                        self,
                    ),
                    ParsedLine::Invalid(_) => r is None && *final(self) == *old(self),
                    ParsedLine::Parsed { ts, db, name, args } => {
                        let d = match old(self).clock_diff {
                            Some(d0) => d0@,
                            None => now@ - ts,
                        };
                        &&& final(self).clock_diff matches Some(dm) && dm@ == d
                        &&& r matches Some(item) && item matches ReplayItem::Command(dc)
                            && dc.at@ == ts + d && dc.command.ts@ == ts && dc.command.db as int
                            == db && dc.command.command@ == name && dc.command.args.deep_view()
                            == args
                    },
                },
            },
    {
        match event {
            LineEvent::Eof => None,
            LineEvent::ReadError => None,
            LineEvent::Line(l) => {
                match ReplayCommand::parse(l) {
                    Ok(Some(command)) => {
                        let diff = match self.clock_diff {
                            Some(d0) => d0,
                            None => {
                                let d = now.minus(*command.ts());
                                self.clock_diff = Some(d);
                                d
                            },
                        };
                        let item = ReplayCommandDelayed::delayed(command, diff);
                        Some(ReplayItem::Command(item))
                    },
                    Ok(None) => Some(ReplayItem::Empty),
                    Err(_) => None,
                }
            },
        }
    }
}

} // verus!
