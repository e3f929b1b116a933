//! A monotonic, signed microsecond clock value used to pace the replay.
use crate::digits::{all_digits, digit_of, digits_value, is_digit_char, lemma_digits_value_append,
    lemma_digits_value_nonneg};
use vstd::prelude::*;

verus! {

/// Largest clock reading the library works with, in microseconds
/// (about 31,000 years); keeps every sum and difference of a few
/// clock values inside `i64`.
pub const CLOCK_MAX_MICROS: i64 = 1_000_000_000_000_000_000;

/// The same bound expressed in whole seconds.
const CLOCK_MAX_SECONDS: i64 = 1_000_000_000_000;

/// Index of the first '.' in `s`, or `s.len()` when there is none.
pub open spec fn dot_position(s: Seq<char>) -> int
    decreases s.len(),
{
    if s.len() == 0 {
        0
    } else if s[0] == '.' {
        0
    } else {
        1 + dot_position(s.skip(1))
    }
}

pub open spec fn pow10(k: int) -> int
    decreases k,
{
    if k <= 0 {
        1
    } else {
        10 * pow10(k - 1)
    }
}

/// Microseconds denoted by a fractional-seconds digit string: the first six
/// digits, padded with zeros on the right to six places; later digits are
/// truncated.
pub open spec fn frac_micros(f: Seq<char>) -> int {
    if f.len() >= 6 {
        digits_value(f.take(6))
    } else {
        digits_value(f) * pow10(6 - f.len())
    }
}

/// The value, in microseconds truncated toward zero, that a decimal seconds
/// string denotes: an optional sign, a non-empty run of digits, optionally
/// followed by a '.' and any run of digits. `None` for any other form.
pub open spec fn decimal_seconds_micros(s: Seq<char>) -> Option<int> {
    let signed = s.len() > 0 && (s[0] == '-' || s[0] == '+');
    let sign: int = if signed && s[0] == '-' {
        -1
    } else {
        1
    };
    let rest = if signed {
        s.skip(1)
    } else {
        s
    };
    let d = dot_position(rest);
    let int_part = rest.take(d);
    if int_part.len() == 0 || !all_digits(int_part) {
        None
    } else if d == rest.len() {
        Some(sign * (digits_value(int_part) * 1000000))
    } else {
        let frac = rest.skip(d + 1);
        if all_digits(frac) {
            Some(sign * (digits_value(int_part) * 1000000 + frac_micros(frac)))
        } else {
            None
        }
    }
}

/// A clock value saturated into the range the library works with.
pub open spec fn clamp_clock(v: int) -> int {
    if v > CLOCK_MAX_MICROS as int {
        CLOCK_MAX_MICROS as int
    } else if v < -(CLOCK_MAX_MICROS as int) {
        -(CLOCK_MAX_MICROS as int)
    } else {
        v
    }
}

proof fn lemma_dot_position_bounds(s: Seq<char>)
    ensures
        0 <= dot_position(s) <= s.len(),
        s.len() > 0 && s[0] != '.' ==> dot_position(s) == 1 + dot_position(s.skip(1)),
    decreases s.len(),
{
    if s.len() == 0 {
    } else if s[0] == '.' {
    } else {
        lemma_dot_position_bounds(s.skip(1));
    }
}

proof fn lemma_dot_position_is(s: Seq<char>, i: int)
    requires
        0 <= i <= s.len(),
        forall|j: int| 0 <= j < i ==> s[j] != '.',
        i < s.len() ==> s[i] == '.',
    ensures
        dot_position(s) == i,
    decreases i,
{
    if i == 0 {
    } else {
        assert forall|j: int| 0 <= j < i - 1 implies s.skip(1)[j] != '.' by {
            assert(s.skip(1)[j] == s[j + 1]);
        }
        if i - 1 < s.skip(1).len() {
            assert(s.skip(1)[i - 1] == s[i]);
        }
        lemma_dot_position_is(s.skip(1), i - 1);
    }
}

proof fn lemma_sat_exceeds(v: int, f: int)
    requires
        v > CLOCK_MAX_SECONDS as int,
        f >= 0,
    ensures
        v * 1000000 + f > CLOCK_MAX_MICROS as int,
{
    assert(v * 1000000 >= 1000000000001000000) by (nonlinear_arith)
        requires
            v >= 1000000000001,
    ;
}

proof fn lemma_pow10_concrete()
    ensures
        pow10(0) == 1,
        pow10(1) == 10,
        pow10(2) == 100,
        pow10(3) == 1000,
        pow10(4) == 10000,
        pow10(5) == 100000,
        pow10(6) == 1000000,
{
    reveal_with_fuel(pow10, 8);
}

proof fn lemma_dot_position_at_least(s: Seq<char>, m: int)
    requires
        0 <= m <= s.len(),
        forall|j: int| 0 <= j < m ==> s[j] != '.',
    ensures
        dot_position(s) >= m,
    decreases m,
{
    lemma_dot_position_bounds(s);
    if m > 0 {
        assert(s[0] != '.');
        assert forall|j: int| 0 <= j < m - 1 implies s.skip(1)[j] != '.' by {
            assert(s.skip(1)[j] == s[j + 1]);
        }
        lemma_dot_position_at_least(s.skip(1), m - 1);
        assert(dot_position(s) == 1 + dot_position(s.skip(1)));
    }
}

/// A signed count of microseconds since an arbitrary reference instant:
/// either the Unix epoch (for wall-clock readings) or the recording
/// clock of the monitor log (for timestamps parsed from lines).
#[derive(Clone, Copy, PartialEq, Eq, Structural, Debug, Hash, PartialOrd, Ord)]
pub struct Micros(i64);

impl View for Micros {
    type V = int;

    closed spec fn view(&self) -> int {
        self.0 as int
    }
}

/// Relies on std::time::SystemTime: the number of microseconds the system
/// clock is past the Unix epoch. A clock before the epoch reads as 0; one
/// beyond `i64` microseconds reads as `i64::MAX`.
#[verifier::external_body]
fn epoch_micros() -> (r: i64)
    ensures
        0 <= r,
{
    match std::time::SystemTime::now().duration_since(std::time::SystemTime::UNIX_EPOCH) {
        Ok(d) => i64::try_from(d.as_micros()).unwrap_or(i64::MAX),
        Err(_) => 0,
    }
}

impl Micros {
    /// Wraps a raw microsecond count.
    pub fn from_micros(v: i64) -> (r: Micros)
        ensures
            r@ == v as int,
    {
        Micros(v)
    }

    /// The raw microsecond count.
    pub fn as_micros(&self) -> (r: i64)
        ensures
            r as int == self@,
    {
        self.0
    }

    /// The current wall-clock instant. The reading depends on the machine's
    /// clock; all that holds of every outcome is its range.
    pub fn now() -> (r: Micros)
        ensures
            0 <= r@ <= CLOCK_MAX_MICROS as int,
    {
        let m = epoch_micros();
        if m > CLOCK_MAX_MICROS {
            Micros(CLOCK_MAX_MICROS)
        } else {
            Micros(m)
        }
    }

    /// The signed distance from `m` to the current instant: `now() - m`.
    pub fn since(m: Micros) -> (r: Micros)
        requires
            m@ > i64::MIN as int + CLOCK_MAX_MICROS as int,
        ensures
            0 <= r@ + m@ <= CLOCK_MAX_MICROS as int,
    {
        let n = Micros::now();
        Micros(n.0 - m.0)
    }

    /// The sum of two clock values.
    pub fn plus(self, other: Micros) -> (r: Micros)
        requires
            i64::MIN as int <= self@ + other@ <= i64::MAX as int,
        ensures
            r@ == self@ + other@,
    {
        Micros(self.0 + other.0)
    }

    /// The difference of two clock values.
    pub fn minus(self, other: Micros) -> (r: Micros)
        requires
            i64::MIN as int <= self@ - other@ <= i64::MAX as int,
        ensures
            r@ == self@ - other@,
    {
        Micros(self.0 - other.0)
    }

    pub fn is_positive(&self) -> (r: bool)
        ensures
            r == (self@ > 0),
    {
        self.0 > 0
    }

    pub fn is_zero(&self) -> (r: bool)
        ensures
            r == (self@ == 0),
    {
        self.0 == 0
    }

    pub fn is_negative(&self) -> (r: bool)
        ensures
            r == (self@ < 0),
    {
        self.0 < 0
    }

    /// Reads a recorded timestamp written as decimal seconds (for example
    /// `1690000000.100000`) into microseconds, truncating toward zero past
    /// six fractional digits and saturating at the library's clock range.
    #[verifier::loop_isolation(false)]
    #[verifier::rlimit(100)]
    pub fn from_decimal_seconds(s: &str) -> (r: Option<Micros>)
        ensures
            match decimal_seconds_micros(s@) {
                None => r is None,
                Some(v) => r matches Some(m) && m@ == clamp_clock(v),
            },
    {
        let ghost sv = s@;
        let n = s.unicode_len();
        let mut i: usize = 0;
        let mut neg = false;
        if n > 0 {
            let c0 = s.get_char(0);
            if c0 == '-' {
                neg = true;
                i = 1;
            } else if c0 == '+' {
                i = 1;
            }
        }
        let ghost rest = sv.skip(i as int);
        proof {
            assert(sv.skip(0) =~= sv);
        }
        let mut sec: i64 = 0;
        let mut sat = false;
        let mut dotted = false;
        let mut j: usize = i;
        while j < n && !dotted
            invariant
                dotted ==> j < n && sv[j as int] == '.',
                i <= j <= n,
                n == sv.len(),
                rest == sv.skip(i as int),
                i == 1 <==> sv.len() > 0 && (sv[0] == '-' || sv[0] == '+'),
                i <= 1,
                neg <==> (i == 1 && sv[0] == '-'),
                all_digits(sv.subrange(i as int, j as int)),
                forall|k: int| i <= k < j ==> sv[k] != '.',
                !sat ==> sec as int == digits_value(sv.subrange(i as int, j as int)) && 0 <= sec
                    <= CLOCK_MAX_SECONDS,
                sat ==> digits_value(sv.subrange(i as int, j as int)) > CLOCK_MAX_SECONDS as int,
            decreases n - j + if dotted {
                0int
            } else {
                1int
            },
        {
            let c = s.get_char(j);
            if c == '.' {
                dotted = true;
            } else {
            match digit_of(c) {
                None => {
                    proof {
                        assert forall|k: int| 0 <= k < j - i + 1 implies rest[k] != '.' by {
                            assert(rest[k] == sv[k + i]);
                        }
                        lemma_dot_position_at_least(rest, j - i + 1);
                        lemma_dot_position_bounds(rest);
                        let d = dot_position(rest);
                        let int_part = rest.take(d);
                        assert(rest[j - i] == sv[j as int]);
                        assert(int_part[j - i] == rest[j - i]);
                        assert(!is_digit_char(int_part[j - i]));
                        assert(!all_digits(int_part));
                    }
                    return None;
                },
                Some(d) => {
                    proof {
                        let pre = sv.subrange(i as int, j as int);
                        assert(sv.subrange(i as int, j + 1) =~= pre.push(sv[j as int]));
                        lemma_digits_value_append(pre, sv[j as int]);
                        lemma_digits_value_nonneg(pre);
                    }
                    if sat {
                    } else {
                        let sec2 = sec * 10 + (d as i64);
                        if sec2 > CLOCK_MAX_SECONDS {
                            sat = true;
                        } else {
                            sec = sec2;
                        }
                    }
                    j += 1;
                },
            }
            }
        }
        // the integer part is sv[i .. j]
        if j == i {
            proof {
                if n > i {
                    assert(rest[0] == sv[i as int]);
                }
                lemma_dot_position_is(rest, 0);
            }
            return None;
        }
        proof {
            assert forall|k: int| 0 <= k < j - i implies rest[k] != '.' by {
                assert(rest[k] == sv[k + i]);
            }
            if j < n {
                assert(rest[j - i] == sv[j as int]);
            }
            lemma_dot_position_is(rest, j - i);
            assert(rest.take(j - i) =~= sv.subrange(i as int, j as int));
        }
        let ghost int_part = sv.subrange(i as int, j as int);
        let ghost mut fmx: int = 0;
        let magnitude: i64;
        if j >= n {
            // no fractional part
            if sat {
                proof {
                    lemma_sat_exceeds(digits_value(int_part), 0);
                }
                magnitude = CLOCK_MAX_MICROS;
            } else {
                magnitude = sec * 1000000;
            }
        } else {
            // a '.' at j; the fractional part is sv[j + 1 .. n]
            let mut frac: i64 = 0;
            let mut fl: usize = 0;
            let mut k: usize = j + 1;
            proof {
                assert(sv.subrange(j + 1, j + 1) =~= Seq::<char>::empty());
                assert(sv.subrange(j + 1, j + 1 + fl as int) =~= Seq::<char>::empty());
            }
            while k < n
                invariant
                    j + 1 <= k <= n,
                    n == sv.len(),
                    fl as int == if k - j - 1 <= 6 {
                        k - j - 1
                    } else {
                        6
                    },
                    all_digits(sv.subrange(j + 1, k as int)),
                    frac as int == digits_value(sv.subrange(j + 1, j + 1 + fl as int)),
                    (frac as int) < pow10(fl as int),
                    0 <= frac,
                decreases n - k,
            {
                let c = s.get_char(k);
                match digit_of(c) {
                    None => {
                        proof {
                            let fseq = rest.skip(j - i + 1);
                            assert(fseq[k - j - 1] == rest[k - i]);
                            assert(rest[k - i] == sv[k as int]);
                            assert(!is_digit_char(fseq[k - j - 1]));
                            assert(!all_digits(fseq));
                        }
                        return None;
                    },
                    Some(d) => {
                        proof {
                            let pre = sv.subrange(j + 1, k as int);
                            assert(sv.subrange(j + 1, k + 1) =~= pre.push(sv[k as int]));
                            lemma_digits_value_append(pre, sv[k as int]);
                        }
                        if fl < 6 {
                            proof {
                                lemma_pow10_concrete();
                                let pre6 = sv.subrange(j + 1, j + 1 + fl as int);
                                assert(pre6 =~= sv.subrange(j + 1, k as int));
                                assert(sv.subrange(j + 1, j + 1 + (fl + 1) as int) =~= pre6.push(
                                    sv[k as int],
                                ));
                                lemma_digits_value_append(pre6, sv[k as int]);
                            }
                            frac = frac * 10 + (d as i64);
                            fl += 1;
                        } else {
                            proof {
                                assert(sv.subrange(j + 1, j + 1 + fl as int) =~= sv.subrange(
                                    j + 1,
                                    j + 1 + fl as int,
                                ));
                            }
                        }
                        k += 1;
                    },
                }
            }
            // scale the first six fractional digits to microseconds
            proof {
                lemma_pow10_concrete();
            }
            let fm: i64 = if fl == 0 {
                frac * 1000000
            } else if fl == 1 {
                frac * 100000
            } else if fl == 2 {
                frac * 10000
            } else if fl == 3 {
                frac * 1000
            } else if fl == 4 {
                frac * 100
            } else if fl == 5 {
                frac * 10
            } else {
                frac
            };
            proof {
                let fseq = rest.skip(j - i + 1);
                assert(fseq =~= sv.subrange(j + 1, n as int));
                if fseq.len() >= 6 {
                    assert(fseq.take(6) =~= sv.subrange(j + 1, j + 7));
                    assert(fl == 6);
                } else {
                    assert(fl as int == fseq.len());
                    assert(sv.subrange(j + 1, j + 1 + fl as int) =~= fseq);
                }
                assert(0 <= fm < 1000000);
                assert(fm as int == frac_micros(fseq));
                fmx = fm as int;
            }
            if sat {
                proof {
                    lemma_sat_exceeds(digits_value(int_part), fm as int);
                }
                magnitude = CLOCK_MAX_MICROS;
            } else {
                let t = sec * 1000000 + fm;
                if t > CLOCK_MAX_MICROS {
                    magnitude = CLOCK_MAX_MICROS;
                } else {
                    magnitude = t;
                }
            }
        }
        proof {
            let spec_signed = sv.len() > 0 && (sv[0] == '-' || sv[0] == '+');
            let sgn: int = if spec_signed && sv[0] == '-' {
                -1int
            } else {
                1int
            };
            assert(sgn == if neg {
                -1int
            } else {
                1int
            });
            lemma_dot_position_bounds(rest);
            let d = dot_position(rest);
            let ip = rest.take(d);
            assert(ip =~= int_part);
            let vi = digits_value(int_part);
            lemma_digits_value_nonneg(int_part);
            let full: int = vi * 1000000 + fmx;
            assert(fmx >= 0);
            if j >= n {
                assert(d == rest.len());
                assert(decimal_seconds_micros(sv) == Some(sgn * (vi * 1000000)));
                assert(sgn * (vi * 1000000) == sgn * full);
            } else {
                let fseq = rest.skip(d + 1);
                assert(fseq =~= sv.subrange(j + 1, n as int));
                assert(all_digits(fseq));
                assert(decimal_seconds_micros(sv) == Some(sgn * full));
            }
            assert(magnitude as int == clamp_clock(full));
            assert(clamp_clock(sgn * full) == sgn * clamp_clock(full));
        }
        if neg {
            Some(Micros(-magnitude))
        } else {
            Some(Micros(magnitude))
        }
    }

    /// How long from the instant `m` until this instant, in microseconds:
    /// `None` when this instant lies strictly before `m` (it has already
    /// passed), otherwise exactly the non-negative gap.
    pub fn duration_since(&self, m: Micros) -> (r: Option<u64>)
        requires
            i64::MIN as int <= self@ - m@ <= i64::MAX as int,
        ensures
            match r {
                None => self@ < m@,
                Some(d) => self@ >= m@ && d as int == self@ - m@,
            },
    {
        let micros = self.0 - m.0;
        if micros < 0 {
            None
        } else {
            Some(micros as u64)
        }
    }
}

} // verus!
