//! One monitor-log line parsed into a structured, timestamped command, and
//! the pairing of a command with its scheduled release instant.
use crate::digits::{all_digits, digit_of, digits_value, lemma_digits_prefix_le,
    lemma_digits_value_append};
use crate::micros::{clamp_clock, decimal_seconds_micros, CLOCK_MAX_MICROS, Micros};
use vstd::prelude::*;

verus! {

/// Why a line failed to parse as a command.
#[derive(Clone, Copy, Debug, PartialEq, Eq, Structural)]
pub enum ParseError {
    /// The line has a quoted token with no closing quote.
    MismatchedQuotes,
    MissingTimestamp,
    /// The first token is not a plain decimal seconds value.
    InvalidTimestamp,
    MissingDb,
    /// The second token is not an integer after leading '[' are removed.
    InvalidDb,
    MissingOrigin,
    MissingCommand,
}

/// What one line of the log denotes: the acknowledgment sentinel, a parse
/// failure, or a command with its timestamp (microseconds), database
/// selector, upper-cased name and unescaped arguments.
pub enum ParsedLine {
    Sentinel,
    Invalid(ParseError),
    Parsed { ts: int, db: int, name: Seq<char>, args: Seq<Seq<char>> },
}

/// What shellwords::split returns for a line: the tokens, or `None` for
/// mismatched quotes.
pub uninterp spec fn shell_split(line: Seq<char>) -> Option<Seq<Seq<char>>>;

/// Relies on shellwords::split: shell-style tokenization of one line
/// (double-quoted substrings form single tokens), failing exactly on
/// mismatched quotes. The tokens depend on the line's characters alone.
#[verifier::external_body]
fn split_words(line: &str) -> (r: Option<Vec<String>>)
    ensures
        match r {
            Some(ws) => shell_split(line@) == Some(ws.deep_view()),
            None => shell_split(line@) is None,
        },
{
    match shellwords::split(line) {
        Ok(ws) => Some(ws),
        Err(_) => None,
    }
}

/// What str::to_uppercase returns for a string.
pub uninterp spec fn upper_of(s: Seq<char>) -> Seq<char>;

/// Relies on str::to_uppercase: the Unicode uppercase form of the string,
/// a function of its characters alone.
#[verifier::external_body]
fn to_upper(s: &str) -> (r: String)
    ensures
        r@ == upper_of(s@),
{
    s.to_uppercase()
}

/// Relies on String::push: appends exactly one character at the end.
#[verifier::external_body]
fn push_char(s: &mut String, c: char)
    ensures
        final(s)@ == old(s)@.push(c),
{
    s.push(c);
}

/// `s` with every leading occurrence of `c` removed.
pub open spec fn spec_trim_leading(s: Seq<char>, c: char) -> Seq<char>
    decreases s.len(),
{
    if s.len() > 0 && s[0] == c {
        spec_trim_leading(s.skip(1), c)
    } else {
        s
    }
}

/// `s` with every trailing occurrence of `c` removed.
pub open spec fn spec_trim_trailing(s: Seq<char>, c: char) -> Seq<char>
    decreases s.len(),
{
    if s.len() > 0 && s.last() == c {
        spec_trim_trailing(s.drop_last(), c)
    } else {
        s
    }
}

/// Leftmost, non-overlapping replacement of the two-character pattern
/// `[a, b]` by the single character `to`.
pub open spec fn spec_replace_pair(s: Seq<char>, a: char, b: char, to: char) -> Seq<char>
    decreases s.len(),
{
    if s.len() < 2 {
        s
    } else if s[0] == a && s[1] == b {
        seq![to] + spec_replace_pair(s.skip(2), a, b, to)
    } else {
        seq![s[0]] + spec_replace_pair(s.skip(1), a, b, to)
    }
}

/// An argument token decoded: first every `\\` collapses to `\`, then every
/// `\"` collapses to `"`.
pub open spec fn spec_unescape(s: Seq<char>) -> Seq<char> {
    spec_replace_pair(spec_replace_pair(s, '\\', '\\', '\\'), '\\', '"', '"')
}

/// The integer an optionally signed digit string denotes, when it fits in
/// `i32`; `None` for any other form or an out-of-range value.
pub open spec fn spec_parse_i32(s: Seq<char>) -> Option<int> {
    let signed = s.len() > 0 && (s[0] == '-' || s[0] == '+');
    let sgn: int = if signed && s[0] == '-' {
        -1
    } else {
        1
    };
    let ds = if signed {
        s.skip(1)
    } else {
        s
    };
    if ds.len() > 0 && all_digits(ds) {
        let v = sgn * digits_value(ds);
        if -2147483648 <= v <= 2147483647 {
            Some(v)
        } else {
            None
        }
    } else {
        None
    }
}

/// The acknowledgment sentinel line.
pub open spec fn ok_line() -> Seq<char> {
    seq!['O', 'K']
}

/// What a sequence of tokens denotes: token 1 a decimal-seconds timestamp,
/// token 2 a '['-prefixed database selector, token 3 a connection origin
/// (present but discarded), token 4 the command name (trailing ']' removed,
/// upper-cased), and every further token an unescaped argument.
pub open spec fn spec_parse_tokens(ws: Seq<Seq<char>>) -> ParsedLine {
    if ws.len() < 1 {
        ParsedLine::Invalid(ParseError::MissingTimestamp)
    } else {
        match decimal_seconds_micros(ws[0]) {
            None => ParsedLine::Invalid(ParseError::InvalidTimestamp),
            Some(tsv) => {
                if ws.len() < 2 {
                    ParsedLine::Invalid(ParseError::MissingDb)
                } else {
                    match spec_parse_i32(spec_trim_leading(ws[1], '[')) {
                        None => ParsedLine::Invalid(ParseError::InvalidDb),
                        Some(dbv) => {
                            if ws.len() < 3 {
                                ParsedLine::Invalid(ParseError::MissingOrigin)
                            } else if ws.len() < 4 {
                                ParsedLine::Invalid(ParseError::MissingCommand)
                            } else {
                                ParsedLine::Parsed {
                                    ts: clamp_clock(tsv),
                                    db: dbv,
                                    name: upper_of(spec_trim_trailing(ws[3], ']')),
                                    args: Seq::new(
                                        (ws.len() - 4) as nat,
                                        |q: int| spec_unescape(ws[q + 4]),
                                    ),
                                }
                            }
                        },
                    }
                }
            },
        }
    }
}

/// What one raw line denotes: the sentinel `OK`, or its tokenization's
/// meaning, or a failure.
pub open spec fn spec_parse_line(line: Seq<char>) -> ParsedLine {
    if line == ok_line() {
        ParsedLine::Sentinel
    } else {
        match shell_split(line) {
            None => ParsedLine::Invalid(ParseError::MismatchedQuotes),
            Some(ws) => spec_parse_tokens(ws),
        }
    }
}

/// `s` with every leading occurrence of `c` removed.
#[verifier::loop_isolation(false)]
pub fn trim_leading<'a>(s: &'a str, c: char) -> (r: &'a str)
    ensures
        r@ == spec_trim_leading(s@, c),
{
    let n = s.unicode_len();
    let mut i: usize = 0;
    while i < n && s.get_char(i) == c
        invariant
            0 <= i <= n,
            forall|k: int| 0 <= k < i ==> s@[k] == c,
        decreases n - i,
    {
        i += 1;
    }
    let r = s.substring_char(i, n);
    proof {
        lemma_trim_leading_skip(s@, c, i as int);
        assert(r@ =~= s@.skip(i as int));
    }
    r
}

proof fn lemma_trim_leading_skip(s: Seq<char>, c: char, i: int)
    requires
        0 <= i <= s.len(),
        forall|k: int| 0 <= k < i ==> s[k] == c,
        i < s.len() ==> s[i] != c,
    ensures
        spec_trim_leading(s, c) == s.skip(i),
    decreases i,
{
    if i == 0 {
        assert(s.skip(0) =~= s);
    } else {
        assert(s[0] == c);
        assert forall|k: int| 0 <= k < i - 1 implies s.skip(1)[k] == c by {
            assert(s.skip(1)[k] == s[k + 1]);
        }
        if i < s.len() {
            assert(s.skip(1)[i - 1] == s[i]);
        }
        lemma_trim_leading_skip(s.skip(1), c, i - 1);
        assert(s.skip(1).skip(i - 1) =~= s.skip(i));
    }
}

/// `s` with every trailing occurrence of `c` removed.
#[verifier::loop_isolation(false)]
pub fn trim_trailing<'a>(s: &'a str, c: char) -> (r: &'a str)
    ensures
        r@ == spec_trim_trailing(s@, c),
{
    let n = s.unicode_len();
    let mut e: usize = n;
    while e > 0 && s.get_char(e - 1) == c
        invariant
            0 <= e <= n,
            forall|k: int| e <= k < n ==> s@[k] == c,
        decreases e,
    {
        e -= 1;
    }
    let r = s.substring_char(0, e);
    proof {
        lemma_trim_trailing_take(s@, c, e as int);
        assert(r@ =~= s@.take(e as int));
    }
    r
}

proof fn lemma_trim_trailing_take(s: Seq<char>, c: char, e: int)
    requires
        0 <= e <= s.len(),
        forall|k: int| e <= k < s.len() ==> s[k] == c,
        e > 0 ==> s[e - 1] != c,
    ensures
        spec_trim_trailing(s, c) == s.take(e),
    decreases s.len(),
{
    if e == s.len() {
        assert(s.take(e) =~= s);
    } else {
        assert(s.last() == c);
        let head = s.drop_last();
        assert forall|k: int| e <= k < head.len() implies head[k] == c by {
            assert(head[k] == s[k]);
        }
        if e > 0 {
            assert(head[e - 1] == s[e - 1]);
        }
        lemma_trim_trailing_take(head, c, e);
        assert(head.take(e) =~= s.take(e));
    }
}

/// Replaces every leftmost, non-overlapping `[a, b]` pair by `to`.
#[verifier::loop_isolation(false)]
fn replace_pair(s: &str, a: char, b: char, to: char) -> (r: String)
    ensures
        r@ == spec_replace_pair(s@, a, b, to),
{
    let n = s.unicode_len();
    let mut out = String::new();
    let mut i: usize = 0;
    proof {
        assert(s@.skip(0) =~= s@);
        assert(out@ + spec_replace_pair(s@, a, b, to) =~= spec_replace_pair(s@, a, b, to));
    }
    while i < n
        invariant
            0 <= i <= n,
            spec_replace_pair(s@, a, b, to) == out@ + spec_replace_pair(
                s@.skip(i as int),
                a,
                b,
                to,
            ),
        decreases n - i,
    {
        let c = s.get_char(i);
        if i + 1 < n && c == a && s.get_char(i + 1) == b {
            proof {
                let suf = s@.skip(i as int);
                assert(suf[0] == a);
                assert(suf[1] == b);
                assert(suf.skip(2) =~= s@.skip(i + 2));
                assert(out@ + (seq![to] + spec_replace_pair(s@.skip(i + 2), a, b, to))
                    =~= out@.push(to) + spec_replace_pair(s@.skip(i + 2), a, b, to));
            }
            push_char(&mut out, to);
            i += 2;
        } else {
            proof {
                let suf = s@.skip(i as int);
                assert(suf[0] == s@[i as int]);
                assert(suf.skip(1) =~= s@.skip(i + 1));
                if suf.len() < 2 {
                    assert(suf =~= seq![s@[i as int]] + spec_replace_pair(
                        s@.skip(i + 1),
                        a,
                        b,
                        to,
                    ));
                }
                assert(out@ + (seq![s@[i as int]] + spec_replace_pair(s@.skip(i + 1), a, b, to))
                    =~= out@.push(s@[i as int]) + spec_replace_pair(s@.skip(i + 1), a, b, to));
            }
            push_char(&mut out, c);
            i += 1;
        }
    }
    proof {
        assert(s@.skip(n as int) =~= Seq::<char>::empty());
        assert(out@ + Seq::<char>::empty() =~= out@);
    }
    out
}

/// Decodes one argument token: `\\` collapses to `\`, then `\"` to `"`.
pub fn unescape_arg(s: &str) -> (r: String)
    ensures
        r@ == spec_unescape(s@),
{
    let t = replace_pair(s, '\\', '\\', '\\');
    replace_pair(t.as_str(), '\\', '"', '"')
}

/// Reads an optionally signed decimal integer, as `str::parse::<i32>` does:
/// `None` on any malformed string and on values outside `i32`.
#[verifier::loop_isolation(false)]
pub fn parse_i32(s: &str) -> (r: Option<i32>)
    ensures
        match spec_parse_i32(s@) {
            None => r is None,
            Some(v) => r matches Some(x) && x as int == v,
        },
{
    let ghost sv = s@;
    let n = s.unicode_len();
    let mut i: usize = 0;
    let mut neg = false;
    if n > 0 {
        let c0 = s.get_char(0);
        if c0 == '-' {
            neg = true;
            i = 1;
        } else if c0 == '+' {
            i = 1;
        }
    }
    let ghost ds = sv.skip(i as int);
    proof {
        assert(sv.skip(0) =~= sv);
    }
    if i >= n {
        return None;
    }
    let mut acc: i64 = 0;
    let mut j: usize = i;
    while j < n
        invariant
            i <= j <= n,
            all_digits(sv.subrange(i as int, j as int)),
            acc as int == digits_value(sv.subrange(i as int, j as int)),
            0 <= acc <= 4294967296,
        decreases n - j,
    {
        let c = s.get_char(j);
        match digit_of(c) {
            None => {
                proof {
                    assert(ds[j - i] == sv[j as int]);
                    assert(!all_digits(ds));
                }
                return None;
            },
            Some(d) => {
                proof {
                    let pre = sv.subrange(i as int, j as int);
                    assert(sv.subrange(i as int, j + 1) =~= pre.push(sv[j as int]));
                    lemma_digits_value_append(pre, sv[j as int]);
                }
                acc = acc * 10 + (d as i64);
                j += 1;
                if acc > 4294967296 {
                    proof {
                        if all_digits(ds) {
                            assert(sv.subrange(i as int, j as int) =~= ds.take(j - i));
                            lemma_digits_prefix_le(ds, j - i);
                        }
                    }
                    return None;
                }
            },
        }
    }
    proof {
        assert(sv.subrange(i as int, n as int) =~= ds);
        let signed = sv.len() > 0 && (sv[0] == '-' || sv[0] == '+');
        assert(signed <==> i == 1);
        let sds = if signed {
            sv.skip(1)
        } else {
            sv
        };
        assert(sds == ds);
        assert(ds.len() > 0);
        assert(all_digits(ds));
        assert(acc as int == digits_value(ds));
        let sgn: int = if signed && sv[0] == '-' {
            -1int
        } else {
            1int
        };
        assert(sgn == if neg {
            -1int
        } else {
            1int
        });
    }
    let v: i64 = if neg {
        -acc
    } else {
        acc
    };
    if v < -2147483648 || v > 2147483647 {
        None
    } else {
        Some(v as i32)
    }
}

/// One datastore operation extracted from a log line: its recorded
/// timestamp, database selector, upper-cased command name and ordered
/// arguments. Immutable once constructed.
#[derive(Debug)]
pub struct ReplayCommand {
    pub ts: Micros,
    /// Parsed but never applied downstream: every command replays against
    /// the single target connection.
    pub db: i32,
    pub command: String,
    pub args: Vec<String>,
}

impl ReplayCommand {
    pub fn ts(&self) -> (r: &Micros)
        ensures
            *r == self.ts,
    {
        &self.ts
    }

    pub fn db(&self) -> (r: &i32)
        ensures
            *r == self.db,
    {
        &self.db
    }

    pub fn command(&self) -> (r: &String)
        ensures
            *r == self.command,
    {
        &self.command
    }

    pub fn args(&self) -> (r: &Vec<String>)
        ensures
            *r == self.args,
    {
        &self.args
    }

    /// Builds a command from the tokens of one line.
    #[verifier::loop_isolation(false)]
    pub fn from_tokens(words: Vec<String>) -> (r: Result<ReplayCommand, ParseError>)
        ensures
            match spec_parse_tokens(words.deep_view()) {
                ParsedLine::Sentinel => false,
                ParsedLine::Invalid(e) => r == Err::<ReplayCommand, ParseError>(e),
                ParsedLine::Parsed { ts, db, name, args } => r matches Ok(c) && c.ts@ == ts
                    && c.db as int == db && c.command@ == name && c.args.deep_view() == args,
            },
    {
        let ghost ws = words.deep_view();
        if words.len() < 1 {
            return Err(ParseError::MissingTimestamp);
        }
        let ts = match Micros::from_decimal_seconds(words[0].as_str()) {
            None => {
                return Err(ParseError::InvalidTimestamp);
            },
            Some(t) => t,
        };
        if words.len() < 2 {
            return Err(ParseError::MissingDb);
        }
        let db = match parse_i32(trim_leading(words[1].as_str(), '[')) {
            None => {
                return Err(ParseError::InvalidDb);
            },
            Some(d) => d,
        };
        if words.len() < 3 {
            return Err(ParseError::MissingOrigin);
        }
        if words.len() < 4 {
            return Err(ParseError::MissingCommand);
        }
        let command = to_upper(trim_trailing(words[3].as_str(), ']'));
        let mut args: Vec<String> = Vec::new();
        let mut q: usize = 4;
        while q < words.len()
            invariant
                4 <= q <= words.len(),
                args@.len() == q - 4,
                forall|t: int| 0 <= t < q - 4 ==> #[trigger] args@[t]@ == spec_unescape(
                    ws[t + 4],
                ),
            decreases words.len() - q,
        {
            let a = unescape_arg(words[q].as_str());
            args.push(a);
            q += 1;
        }
        proof {
            assert(args.deep_view() =~= Seq::new(
                (ws.len() - 4) as nat,
                |t: int| spec_unescape(ws[t + 4]),
            ));
        }
        Ok(ReplayCommand { ts, db, command, args })
    }

    /// Parses one raw monitor-log line: `Ok(None)` for the sentinel `OK`,
    /// `Ok(Some(command))` for a well-formed command line, and the exact
    /// failure otherwise.
    pub fn parse(line: String) -> (r: Result<Option<ReplayCommand>, ParseError>)
        ensures
            match spec_parse_line(line@) {
                ParsedLine::Sentinel => r matches Ok(o) && o is None,
                ParsedLine::Invalid(e) => r == Err::<Option<ReplayCommand>, ParseError>(e),
                ParsedLine::Parsed { ts, db, name, args } => r matches Ok(o) && o matches Some(c)
                    && c.ts@ == ts && c.db as int == db && c.command@ == name
                    && c.args.deep_view() == args,
            },
    {
        if line.as_str().unicode_len() == 2 && line.as_str().get_char(0) == 'O'
            && line.as_str().get_char(1) == 'K' {
            proof {
                assert(line@ =~= ok_line());
            }
            return Ok(None);
        }
        proof {
            if line@ == ok_line() {
                assert(line@.len() == 2 && line@[0] == 'O' && line@[1] == 'K');
            }
        }
        match split_words(line.as_str()) {
            None => Err(ParseError::MismatchedQuotes),
            Some(ws) => match ReplayCommand::from_tokens(ws) {
                Ok(c) => Ok(Some(c)),
                Err(e) => Err(e),
            },
        }
    }

    /// The fixed offset `now() - ts` that aligns this command's recorded
    /// clock with the replay wall clock.
    pub fn clock_diff(&self) -> (r: Micros)
        requires
            self.ts@ > i64::MIN as int + CLOCK_MAX_MICROS as int,
        ensures
            0 <= r@ + self.ts@ <= CLOCK_MAX_MICROS as int,
    {
        Micros::since(self.ts)
    }
}

/// A command paired with the wall-clock instant at which it is to be
/// released for execution.
#[derive(Debug)]
pub struct ReplayCommandDelayed {
    pub command: ReplayCommand,
    pub at: Micros,
}

impl ReplayCommandDelayed {
    /// Schedules `command` for release at the present instant.
    pub fn immediate(command: ReplayCommand) -> (r: ReplayCommandDelayed)
        ensures
            r.command == command,
            0 <= r.at@ <= CLOCK_MAX_MICROS as int,
    {
        let at = Micros::now();
        ReplayCommandDelayed { command, at }
    }

    /// Schedules `command` at its recorded timestamp shifted by the fixed
    /// clock offset.
    pub fn delayed(command: ReplayCommand, clock_diff: Micros) -> (r: ReplayCommandDelayed)
        requires
            i64::MIN as int <= command.ts@ + clock_diff@ <= i64::MAX as int,
        ensures
            r.command == command,
            r.at@ == command.ts@ + clock_diff@,
    {
        let at = command.ts.plus(clock_diff);
        ReplayCommandDelayed { command, at }
    }

    /// The release decision: how long to suspend, measured from `now`, or
    /// `None` when the release instant has already passed, in which case
    /// the command is to be handed out with no suspension at all.
    pub fn wait_micros(&self, now: Micros) -> (r: Option<u64>)
        requires
            i64::MIN as int <= self.at@ - now@ <= i64::MAX as int,
        ensures
            match r {
                None => self.at@ < now@,
                Some(d) => self.at@ >= now@ && d as int == self.at@ - now@,
            },
    {
        self.at.duration_since(now)
    }

    /// Hands out the held command, consuming the schedule.
    pub fn into_command(self) -> (r: ReplayCommand)
        ensures
            r == self.command,
    {
        self.command
    }
}

/// One item of the replay sequence: a scheduled command, or the empty
/// marker for a line that parsed but carries no command.
pub enum ReplayItem {
    Command(ReplayCommandDelayed),
    Empty,
}

/// Law: scheduling two commands with one fixed clock offset preserves their
/// recorded spacing — the gap between the release instants equals the gap
/// between the recorded timestamps, however long earlier commands took.
pub proof fn lemma_fixed_offset_preserves_spacing(
    a: ReplayCommandDelayed,
    b: ReplayCommandDelayed,
    d: Micros,
)
    requires
        a.at@ == a.command.ts@ + d@,
        b.at@ == b.command.ts@ + d@,
    ensures
        a.at@ - b.at@ == a.command.ts@ - b.command.ts@,
{
}

} // verus!
