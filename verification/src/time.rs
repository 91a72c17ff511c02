//! Durations and timestamps, and their human-readable renderings.
use vstd::prelude::*;
use crate::text::{self, chars_of, push_char, push_char_range, push_decimal, push_fixed_digits, push_zero_padded, string_of_range, chars_range_vec};

verus! {

/// A span of time with nanosecond precision.
#[derive(Clone, Copy, Debug, PartialEq, Eq, Structural)]
pub struct Duration {
    secs: u64,
    nanos: u32,
}

impl View for Duration {
    /// The span in nanoseconds.
    type V = nat;

    closed spec fn view(&self) -> nat {
        self.secs as nat * 1_000_000_000 + self.nanos as nat
    }
}

impl Duration {
    #[verifier::type_invariant]
    closed spec fn wf(&self) -> bool {
        self.nanos < 1_000_000_000
    }

    /// The largest span a `Duration` holds, in nanoseconds.
    pub open spec fn max_nanos() -> nat {
        u64::MAX as nat * 1_000_000_000 + 999_999_999
    }

    proof fn lemma_parts(secs: u64, nanos: u32)
        requires
            nanos < 1_000_000_000,
        ensures
            secs as nat * 1_000_000_000 + nanos as nat <= Self::max_nanos(),
            (secs as nat * 1_000_000_000 + nanos as nat) / 1_000_000_000 == secs,
            (secs as nat * 1_000_000_000 + nanos as nat) % 1_000_000_000 == nanos,
    {
        assert((secs as nat * 1_000_000_000 + nanos as nat) / 1_000_000_000 == secs) by (nonlinear_arith)
            requires nanos < 1_000_000_000;
        assert((secs as nat * 1_000_000_000 + nanos as nat) % 1_000_000_000 == nanos) by (nonlinear_arith)
            requires nanos < 1_000_000_000;
        assert(secs as nat * 1_000_000_000 <= u64::MAX as nat * 1_000_000_000) by (nonlinear_arith);
    }

    fn from_parts(secs: u64, nanos: u32) -> (d: Duration)
        requires
            nanos < 1_000_000_000,
        ensures
            d@ == secs as nat * 1_000_000_000 + nanos as nat,
    {
        Duration { secs, nanos }
    }

    /// `secs` seconds plus `nanos` nanoseconds; the nanoseconds may exceed one second.
    pub fn new(secs: u64, nanos: u32) -> (d: Duration)
        requires
            secs + nanos / 1_000_000_000 <= u64::MAX,
        ensures
            d@ == secs as nat * 1_000_000_000 + nanos as nat,
    {
        let extra = (nanos / 1_000_000_000) as u64;
        Duration::from_parts(secs + extra, nanos % 1_000_000_000)
    }

    pub fn zero() -> (d: Duration)
        ensures
            d@ == 0,
    {
        Duration::from_parts(0, 0)
    }

    pub fn from_secs(secs: u64) -> (d: Duration)
        ensures
            d@ == secs as nat * 1_000_000_000,
    {
        Duration::from_parts(secs, 0)
    }

    pub fn from_millis(millis: u64) -> (d: Duration)
        ensures
            d@ == millis as nat * 1_000_000,
    {
        Duration::from_parts(millis / 1000, ((millis % 1000) * 1_000_000) as u32)
    }

    pub fn from_micros(micros: u64) -> (d: Duration)
        ensures
            d@ == micros as nat * 1000,
    {
        Duration::from_parts(micros / 1_000_000, ((micros % 1_000_000) * 1000) as u32)
    }

    pub fn from_nanos(nanos: u64) -> (d: Duration)
        ensures
            d@ == nanos as nat,
    {
        Duration::from_parts(nanos / 1_000_000_000, (nanos % 1_000_000_000) as u32)
    }

    /// The duration holding exactly `nanos` nanoseconds.
    pub fn from_nanos_u128(nanos: u128) -> (d: Duration)
        requires
            nanos <= Self::max_nanos(),
        ensures
            d@ == nanos,
    {
        Duration::from_parts((nanos / 1_000_000_000) as u64, (nanos % 1_000_000_000) as u32)
    }

    pub fn as_nanos(&self) -> (n: u128)
        ensures
            n == self@,
            n <= Self::max_nanos(),
    {
        proof {
            use_type_invariant(self);
            Self::lemma_parts(self.secs, self.nanos);
        }
        self.secs as u128 * 1_000_000_000 + self.nanos as u128
    }

    /// Whole seconds.
    pub fn as_secs(&self) -> (s: u64)
        ensures
            s == self@ / 1_000_000_000,
    {
        proof {
            use_type_invariant(self);
            Self::lemma_parts(self.secs, self.nanos);
        }
        self.secs
    }

    /// The nanoseconds beyond the whole seconds.
    pub fn subsec_nanos(&self) -> (n: u32)
        ensures
            n == self@ % 1_000_000_000,
    {
        proof {
            use_type_invariant(self);
            Self::lemma_parts(self.secs, self.nanos);
        }
        self.nanos
    }

    pub fn is_zero(&self) -> (z: bool)
        ensures
            z == (self@ == 0),
    {
        proof {
            use_type_invariant(self);
            Self::lemma_parts(self.secs, self.nanos);
        }
        self.secs == 0 && self.nanos == 0
    }
}

/// A point in time, held as the span since 1970-01-01T00:00:00Z.
/// Points before that instant are held as the instant itself.
#[derive(Clone, Copy, Debug, PartialEq, Eq, Structural)]
pub struct SystemTime {
    since_epoch: Duration,
}

impl View for SystemTime {
    /// Nanoseconds since the Unix epoch.
    type V = nat;

    closed spec fn view(&self) -> nat {
        self.since_epoch@
    }
}

impl SystemTime {
    /// The instant `d` after the Unix epoch.
    pub fn from_unix(d: Duration) -> (t: SystemTime)
        ensures
            t@ == d@,
    {
        SystemTime { since_epoch: d }
    }

    /// The Unix epoch itself.
    pub fn unix_epoch() -> (t: SystemTime)
        ensures
            t@ == 0,
    {
        SystemTime { since_epoch: Duration::zero() }
    }

    /// The span since the Unix epoch.
    pub fn since_epoch(&self) -> (d: Duration)
        ensures
            d@ == self@,
    {
        self.since_epoch
    }

    /// The span from `earlier` to this instant, or `None` when `earlier` is later.
    pub fn duration_since(&self, earlier: SystemTime) -> (d: Option<Duration>)
        ensures
            self@ >= earlier@ ==> (d matches Some(x) && x@ == self@ - earlier@),
            self@ < earlier@ ==> d is None,
    {
        let a = self.since_epoch.as_nanos();
        let b = earlier.since_epoch.as_nanos();
        if a < b {
            None
        } else {
            proof {
                use_type_invariant(&self.since_epoch);
                Duration::lemma_parts(self.since_epoch.secs, self.since_epoch.nanos);
            }
            Some(Duration::from_nanos_u128(a - b))
        }
    }
}

// ---------------------------------------------------------------------------
// Abbreviated rendering ("3.2s", "8m3s", "120ms").

/// The nanoseconds in an hour.
pub open spec fn hour_nanos() -> nat {
    3_600_000_000_000
}

/// The nanoseconds in a minute.
pub open spec fn minute_nanos() -> nat {
    60_000_000_000
}

/// The sub-minute part of an abbreviated rendering: seconds with tenths,
/// else rounded milliseconds, else microseconds, else nanoseconds.
pub open spec fn short_remainder(r: nat) -> Seq<char> {
    if r == 0 {
        seq![]
    } else if r >= 1_000_000_000 {
        let secs = r / 1_000_000_000;
        let tenths = (r % 1_000_000_000) / 100_000_000;
        if tenths == 0 {
            text::decimal(secs) + seq!['s']
        } else {
            text::decimal(secs) + seq!['.'] + text::decimal(tenths) + seq!['s']
        }
    } else if r >= 1_000_000 {
        text::decimal((r + 500_000) / 1_000_000) + seq!['m', 's']
    } else if r >= 1000 {
        text::decimal(r / 1000) + seq!['\u{b5}', 's']
    } else {
        text::decimal(r) + seq!['n', 's']
    }
}

/// The abbreviated rendering of a span of `n` nanoseconds.
pub open spec fn short_duration(n: nat) -> Seq<char> {
    if n == 0 {
        seq!['0', 's']
    } else {
        let h = n / hour_nanos();
        let m = (n % hour_nanos()) / minute_nanos();
        let r = (n % hour_nanos()) % minute_nanos();
        (if h > 0 {
            text::decimal(h) + seq!['h']
        } else {
            seq![]
        }) + (if m > 0 {
            text::decimal(m) + seq!['m']
        } else {
            seq![]
        }) + short_remainder(r)
    }
}

fn push_short_remainder(result: &mut String, remaining: u128)
    ensures
        final(result)@ == old(result)@ + short_remainder(remaining as nat),
{
    if remaining > 0 {
        if remaining >= 1_000_000_000 {
            let secs = remaining / 1_000_000_000;
            let tenths = (remaining % 1_000_000_000) / 100_000_000;
            push_decimal(result, secs);
            if tenths != 0 {
                push_char(result, '.');
                push_decimal(result, tenths);
            }
            push_char(result, 's');
        } else if remaining >= 1_000_000 {
            push_decimal(result, (remaining + 500_000) / 1_000_000);
            push_char(result, 'm');
            push_char(result, 's');
        } else if remaining >= 1000 {
            push_decimal(result, remaining / 1000);
            push_char(result, '\u{b5}');
            push_char(result, 's');
        } else {
            push_decimal(result, remaining);
            push_char(result, 'n');
            push_char(result, 's');
        }
    }
    assert(result@ =~= old(result)@ + short_remainder(remaining as nat));
}

/// Formats a duration as a compact human-readable string (e.g. "3.2s", "8m3s").
pub fn format_duration(d: Duration) -> (s: String)
    ensures
        s@ == short_duration(d@),
{
    let total = d.as_nanos();
    let mut result = String::new();
    if total == 0 {
        push_char(&mut result, '0');
        push_char(&mut result, 's');
        return result;
    }
    let hours = total / 3_600_000_000_000;
    if hours > 0 {
        push_decimal(&mut result, hours);
        push_char(&mut result, 'h');
    }
    let after_hours = total % 3_600_000_000_000;
    let minutes = after_hours / 60_000_000_000;
    if minutes > 0 {
        push_decimal(&mut result, minutes);
        push_char(&mut result, 'm');
    }
    let ghost head = result@;
    let remaining = after_hours % 60_000_000_000;
    push_short_remainder(&mut result, remaining);
    assert(result@ =~= head + short_remainder(remaining as nat));
    assert(result@ =~= short_duration(d@));
    result
}

// ---------------------------------------------------------------------------
// Go-style rendering ("1.234567ms", "1h1m1s").

/// The fractional digits of `v` at `prec` decimal places, trailing zeros dropped,
/// with a leading `.` when any digit remains.
pub open spec fn go_fraction(v: nat, prec: nat) -> Seq<char> {
    let t = text::trim_trailing_zeros(text::fixed_digits(v, prec));
    if t.len() == 0 {
        seq![]
    } else {
        seq!['.'] + t
    }
}

/// The rendering of a span of `n` nanoseconds that Go's `time.Duration.String` gives.
pub open spec fn go_duration(n: nat) -> Seq<char> {
    if n == 0 {
        seq!['0', 's']
    } else if n < 1000 {
        text::decimal(n) + seq!['n', 's']
    } else if n < 1_000_000 {
        text::decimal(n / 1000) + go_fraction(n % 1000, 3) + seq!['\u{b5}', 's']
    } else if n < 1_000_000_000 {
        text::decimal(n / 1_000_000) + go_fraction(n % 1_000_000, 6) + seq!['m', 's']
    } else {
        let s = n / 1_000_000_000;
        let secs = text::decimal(s % 60) + go_fraction(n % 1_000_000_000, 9) + seq!['s'];
        let m = s / 60;
        if m == 0 {
            secs
        } else {
            let mins = text::decimal(m % 60) + seq!['m'] + secs;
            let h = m / 60;
            if h == 0 {
                mins
            } else {
                text::decimal(h) + seq!['h'] + mins
            }
        }
    }
}

/// Appends the Go-style fraction of `v` at `prec` places.
fn push_go_fraction(s: &mut String, v: u64, prec: usize)
    ensures
        final(s)@ == old(s)@ + go_fraction(v as nat, prec as nat),
{
    let mut digits = String::new();
    push_fixed_digits(&mut digits, v, prec);
    let cs = chars_of(digits.as_str());
    let mut n = cs.len();
    assert(cs@.take(n as int) == cs@);
    while n > 0 && cs[n - 1] == '0'
        invariant
            n <= cs.len(),
            text::trim_trailing_zeros(cs@.take(n as int)) == text::trim_trailing_zeros(cs@),
        decreases n,
    {
        assert(cs@.take(n as int).drop_last() == cs@.take(n - 1));
        n = n - 1;
    }
    assert(cs@.take(n as int) == text::trim_trailing_zeros(cs@)) by {
        assert(cs@.take(cs@.len() as int) == cs@);
    }
    if n > 0 {
        push_char(s, '.');
        push_char_range(s, cs.as_slice(), 0, n);
        assert(old(s)@.push('.') + cs@.take(n as int) == old(s)@ + (seq!['.'] + cs@.take(
            n as int,
        )));
    } else {
        assert(old(s)@ + seq![] == old(s)@);
    }
}

/// Formats a duration the way Go's `time.Duration.String` does (e.g. "1.234567ms", "1m30s").
pub fn format_go_duration(d: Duration) -> (s: String)
    ensures
        s@ == go_duration(d@),
{
    let n = d.as_nanos();
    let mut out = String::new();
    if n == 0 {
        push_char(&mut out, '0');
        push_char(&mut out, 's');
        return out;
    }
    if n < 1000 {
        push_decimal(&mut out, n);
        push_char(&mut out, 'n');
        push_char(&mut out, 's');
        return out;
    }
    if n < 1_000_000 {
        push_decimal(&mut out, n / 1000);
        push_go_fraction(&mut out, (n % 1000) as u64, 3);
        push_char(&mut out, '\u{b5}');
        push_char(&mut out, 's');
        assert(out@ =~= go_duration(d@));
        return out;
    }
    if n < 1_000_000_000 {
        push_decimal(&mut out, n / 1_000_000);
        push_go_fraction(&mut out, (n % 1_000_000) as u64, 6);
        push_char(&mut out, 'm');
        push_char(&mut out, 's');
        assert(out@ =~= go_duration(d@));
        return out;
    }
    let s = n / 1_000_000_000;
    let m = s / 60;
    let h = m / 60;
    if h > 0 {
        push_decimal(&mut out, h);
        push_char(&mut out, 'h');
    }
    if m > 0 {
        push_decimal(&mut out, m % 60);
        push_char(&mut out, 'm');
    }
    push_decimal(&mut out, s % 60);
    push_go_fraction(&mut out, (n % 1_000_000_000) as u64, 9);
    push_char(&mut out, 's');
    assert(out@ =~= go_duration(d@));
    out
}

// ---------------------------------------------------------------------------
// Splitting a human-readable duration ("1h2m3.5s") into its terms.

/// The nanoseconds in one of the unit named `u`, if `u` names a unit.
pub open spec fn unit_nanos(u: Seq<char>) -> Option<nat> {
    if u == seq!['n', 's'] {
        Some(1)
    } else if u == seq!['u', 's'] || u == seq!['\u{b5}', 's'] {
        Some(1000)
    } else if u == seq!['m', 's'] {
        Some(1_000_000)
    } else if u == seq!['s'] {
        Some(1_000_000_000)
    } else if u == seq!['m'] {
        Some(60_000_000_000)
    } else if u == seq!['h'] {
        Some(3_600_000_000_000)
    } else {
        None
    }
}

/// Whether `c` may appear in the number of a duration term.
pub open spec fn is_number_char(c: char) -> bool {
    text::is_ascii_digit(c) || c == '.'
}

/// How many leading characters of `s` are number characters.
pub open spec fn number_run(s: Seq<char>) -> nat
    decreases s.len(),
{
    if s.len() > 0 && is_number_char(s[0]) {
        1 + number_run(s.drop_first())
    } else {
        0
    }
}

/// How many leading characters of `s` are not number characters.
pub open spec fn unit_run(s: Seq<char>) -> nat
    decreases s.len(),
{
    if s.len() > 0 && !is_number_char(s[0]) {
        1 + unit_run(s.drop_first())
    } else {
        0
    }
}

/// The terms of a duration string, each a number text and the nanoseconds in its
/// unit, or `None` when a term has no number or an unknown unit.
pub open spec fn duration_terms_spec(s: Seq<char>) -> Option<Seq<(Seq<char>, nat)>>
    decreases s.len(),
{
    if s.len() == 0 {
        Some(seq![])
    } else {
        let n = number_run(s);
        if n == 0 {
            None
        } else {
            let rest = s.skip(n as int);
            let u = unit_run(rest);
            match unit_nanos(rest.take(u as int)) {
                None => None,
                Some(k) => {
                    if n + u <= s.len() {
                        match duration_terms_spec(rest.skip(u as int)) {
                            None => None,
                            Some(ts) => Some(seq![(s.take(n as int), k)] + ts),
                        }
                    } else {
                        None
                    }
                },
            }
        }
    }
}

/// One term of a human-readable duration: a number text and its unit.
pub struct DurationTerm {
    /// The digits and dots of the number, as written.
    pub number: String,
    /// The nanoseconds in one of the term's unit.
    pub unit_nanos: u64,
}

proof fn lemma_number_run(s: Seq<char>)
    ensures
        number_run(s) <= s.len(),
        forall|k: int| 0 <= k < number_run(s) ==> is_number_char(#[trigger] s[k]),
        number_run(s) < s.len() ==> !is_number_char(s[number_run(s) as int]),
    decreases s.len(),
{
    if s.len() > 0 && is_number_char(s[0]) {
        lemma_number_run(s.drop_first());
        assert forall|k: int| 0 <= k < number_run(s) implies is_number_char(#[trigger] s[k]) by {
            if k > 0 {
                assert(s[k] == s.drop_first()[k - 1]);
            }
        }
    }
}

proof fn lemma_unit_run(s: Seq<char>)
    ensures
        unit_run(s) <= s.len(),
        forall|k: int| 0 <= k < unit_run(s) ==> !is_number_char(#[trigger] s[k]),
        unit_run(s) < s.len() ==> is_number_char(s[unit_run(s) as int]),
    decreases s.len(),
{
    if s.len() > 0 && !is_number_char(s[0]) {
        lemma_unit_run(s.drop_first());
        assert forall|k: int| 0 <= k < unit_run(s) implies !is_number_char(#[trigger] s[k]) by {
            if k > 0 {
                assert(s[k] == s.drop_first()[k - 1]);
            }
        }
    }
}

/// The end of the run starting at `from` of characters that are (or, with
/// `numeric` false, are not) number characters.
fn run_end(cs: &[char], from: usize, numeric: bool) -> (end: usize)
    requires
        from <= cs.len(),
    ensures
        from <= end <= cs.len(),
        numeric ==> end - from == number_run(cs@.skip(from as int)),
        !numeric ==> end - from == unit_run(cs@.skip(from as int)),
{
    let mut i = from;
    while i < cs.len() && ((cs[i] >= '0' && cs[i] <= '9') || cs[i] == '.') == numeric
        invariant
            from <= i <= cs.len(),
            numeric ==> number_run(cs@.skip(from as int)) == (i - from) + number_run(
                cs@.skip(i as int),
            ),
            !numeric ==> unit_run(cs@.skip(from as int)) == (i - from) + unit_run(
                cs@.skip(i as int),
            ),
        decreases cs.len() - i,
    {
        assert(cs@.skip(i as int).drop_first() == cs@.skip(i + 1));
        i = i + 1;
    }
    i
}

fn unit_value(cs: &[char], from: usize, to: usize) -> (k: Option<u64>)
    requires
        from <= to <= cs.len(),
    ensures
        match unit_nanos(cs@.subrange(from as int, to as int)) {
            None => k is None,
            Some(n) => k == Some(n as u64),
        },
{
    let u = chars_range_vec(cs, from, to);
    if u.len() == 2 && u[0] == 'n' && u[1] == 's' {
        assert(u@ =~= seq!['n', 's']);
        Some(1)
    } else if u.len() == 2 && (u[0] == 'u' || u[0] == '\u{b5}') && u[1] == 's' {
        assert(u@ =~= seq!['u', 's'] || u@ =~= seq!['\u{b5}', 's']);
        Some(1000)
    } else if u.len() == 2 && u[0] == 'm' && u[1] == 's' {
        assert(u@ =~= seq!['m', 's']);
        Some(1_000_000)
    } else if u.len() == 1 && u[0] == 's' {
        assert(u@ =~= seq!['s']);
        Some(1_000_000_000)
    } else if u.len() == 1 && u[0] == 'm' {
        assert(u@ =~= seq!['m']);
        Some(60_000_000_000)
    } else if u.len() == 1 && u[0] == 'h' {
        assert(u@ =~= seq!['h']);
        Some(3_600_000_000_000)
    } else {
        assert(u@ != seq!['n', 's'] && u@ != seq!['u', 's'] && u@ != seq!['\u{b5}', 's'] && u@
            != seq!['m', 's'] && u@ != seq!['s'] && u@ != seq!['m'] && u@ != seq!['h']) by {
            if u@.len() == 2 {
                if u@ == seq!['n', 's'] || u@ == seq!['u', 's'] || u@ == seq!['\u{b5}', 's'] || u@
                    == seq!['m', 's'] {
                    assert(u@[0] == u[0] && u@[1] == u[1]);
                }
            }
            if u@.len() == 1 {
                if u@ == seq!['s'] || u@ == seq!['m'] || u@ == seq!['h'] {
                    assert(u@[0] == u[0]);
                }
            }
        }
        None
    }
}

/// Splits a human-readable duration (e.g. "1h2m3.5s", "100ms", "1.5µs") into its
/// terms: each a run of digits and dots followed by a unit among `ns`, `us`, `µs`,
/// `ms`, `s`, `m` and `h`. Returns `None` when a term lacks its number or names
/// an unknown unit. The value of each number is left to the caller.
pub fn duration_terms(s: &str) -> (r: Option<Vec<DurationTerm>>)
    ensures
        match duration_terms_spec(s@) {
            None => r is None,
            Some(ts) => r matches Some(v) && v@.len() == ts.len() && forall|i: int|
                0 <= i < ts.len() ==> (#[trigger] v@[i]).number@ == ts[i].0 && v@[i].unit_nanos
                    == ts[i].1,
        },
{
    let cs = chars_of(s);
    let mut terms: Vec<DurationTerm> = Vec::new();
    let mut i: usize = 0;
    proof {
        assert(cs@.skip(0) == cs@);
        let f = |k: int| (terms@[k].number@, terms@[k].unit_nanos as nat);
        match duration_terms_spec(cs@) {
            None => {},
            Some(ts) => {
                assert(Seq::new(terms@.len(), f) + ts =~= ts);
            },
        }
    }
    while i < cs.len()
        invariant
            i <= cs.len(),
            cs@ == s@,
            duration_terms_spec(s@) == match duration_terms_spec(cs@.skip(i as int)) {
                None => None,
                Some(ts) => Some(Seq::new(terms@.len(), |k: int| (terms@[k].number@, terms@[k].unit_nanos as nat)) + ts),
            },
        decreases cs.len() - i,
    {
        let ghost here = cs@.skip(i as int);
        let num_end = run_end(cs.as_slice(), i, true);
        if num_end == i {
            assert(duration_terms_spec(here) is None);
            return None;
        }
        let unit_end = run_end(cs.as_slice(), num_end, false);
        proof {
            lemma_number_run(here);
            assert(here.skip(number_run(here) as int) == cs@.skip(num_end as int));
            let rest = cs@.skip(num_end as int);
            assert(rest.take(unit_run(rest) as int) == cs@.subrange(num_end as int, unit_end as int));
            assert(rest.skip(unit_run(rest) as int) == cs@.skip(unit_end as int));
            assert(here.take(number_run(here) as int) == cs@.subrange(i as int, num_end as int));
        }
        let unit = unit_value(cs.as_slice(), num_end, unit_end);
        match unit {
            None => {
                return None;
            },
            Some(k) => {
                let number = string_of_range(cs.as_slice(), i, num_end);
                let ghost before = terms@;
                terms.push(DurationTerm { number, unit_nanos: k });
                proof {
                    let f = |k: int| (terms@[k].number@, terms@[k].unit_nanos as nat);
                    let g = |k: int| (before[k].number@, before[k].unit_nanos as nat);
                    assert(Seq::new(terms@.len(), f) =~= Seq::new(before.len(), g).push(
                        (cs@.subrange(i as int, num_end as int), k as nat),
                    ));
                    match duration_terms_spec(cs@.skip(unit_end as int)) {
                        None => {},
                        Some(ts) => {
                            assert(Seq::new(before.len(), g) + (seq![
                                (cs@.subrange(i as int, num_end as int), k as nat),
                            ] + ts) =~= Seq::new(terms@.len(), f) + ts);
                        },
                    }
                }
                i = unit_end;
            },
        }
    }
    proof {
        assert(cs@.skip(i as int) =~= Seq::<char>::empty());
        let f = |k: int| (terms@[k].number@, terms@[k].unit_nanos as nat);
        assert(Seq::new(terms@.len(), f) + Seq::<(Seq<char>, nat)>::empty() =~= Seq::new(
            terms@.len(),
            f,
        ));
    }
    Some(terms)
}

// ---------------------------------------------------------------------------
// The calendar.

/// Whether `y` is a leap year of the proleptic Gregorian calendar.
pub open spec fn is_leap_year(y: int) -> bool {
    y % 4 == 0 && (y % 100 != 0 || y % 400 == 0)
}

/// The number of days in month `m` (1 to 12) of year `y`.
pub open spec fn days_in_month(y: int, m: int) -> int {
    if m == 2 {
        if is_leap_year(y) { 29 } else { 28 }
    } else if m == 4 || m == 6 || m == 9 || m == 11 {
        30
    } else {
        31
    }
}

/// The number of days in year `y` before the first of month `m`.
pub open spec fn days_before_month(y: int, m: int) -> int {
    if m > 2 && is_leap_year(y) { common_days_before_month(m) + 1 } else { common_days_before_month(m) }
}

/// The number of days before the first of month `m` in a common year.
pub open spec fn common_days_before_month(m: int) -> int {
    if m <= 1 { 0 } else if m == 2 { 31 } else if m == 3 { 59 } else if m == 4 { 90 }
        else if m == 5 { 120 } else if m == 6 { 151 } else if m == 7 { 181 } else if m == 8 { 212 }
        else if m == 9 { 243 } else if m == 10 { 273 } else if m == 11 { 304 } else { 334 }
}

/// The number of leap years from year 1 to year `y - 1`, continued to all integers.
pub open spec fn leap_years_before(y: int) -> int {
    (y - 1) / 4 - (y - 1) / 100 + (y - 1) / 400
}

/// The number of days from 1970-01-01 to the date `y`-`m`-`d` (negative before it).
pub open spec fn days_from_civil(y: int, m: int, d: int) -> int {
    365 * (y - 1970) + leap_years_before(y) - leap_years_before(1970) + days_before_month(y, m) + d - 1
}

/// Whether `y`-`m`-`d` names a day of the calendar.
pub open spec fn is_valid_date(y: int, m: int, d: int) -> bool {
    1 <= m <= 12 && 1 <= d <= days_in_month(y, m)
}

/// The calendar date `days` days after 1970-01-01.
pub open spec fn civil_from_days(days: int) -> (int, int, int) {
    choose|y: int, m: int, d: int| is_valid_date(y, m, d) && days_from_civil(y, m, d) == days
}

#[verifier::spinoff_prover]
#[verifier::rlimit(60)]
proof fn lemma_leap_step(y: int)
    ensures
        leap_years_before(y + 1) == leap_years_before(y) + if is_leap_year(y) { 1int } else { 0int },
{
}

proof fn lemma_within_year(y: int, m: int, d: int)
    requires
        is_valid_date(y, m, d),
    ensures
        days_from_civil(y, 1, 1) <= days_from_civil(y, m, d) < days_from_civil(y + 1, 1, 1),
{
    lemma_leap_step(y);
}

proof fn lemma_year_starts_grow(a: int, b: int)
    requires
        a < b,
    ensures
        days_from_civil(a + 1, 1, 1) <= days_from_civil(b, 1, 1),
    decreases b - a,
{
    if b > a + 1 {
        lemma_year_starts_grow(a, b - 1);
        lemma_leap_step(b - 1);
    }
}

/// Distinct dates fall on distinct days.
pub proof fn lemma_date_unique(y1: int, m1: int, d1: int, y2: int, m2: int, d2: int)
    requires
        is_valid_date(y1, m1, d1),
        is_valid_date(y2, m2, d2),
        days_from_civil(y1, m1, d1) == days_from_civil(y2, m2, d2),
    ensures
        y1 == y2 && m1 == m2 && d1 == d2,
{
    lemma_within_year(y1, m1, d1);
    lemma_within_year(y2, m2, d2);
    if y1 < y2 {
        lemma_year_starts_grow(y1, y2);
    } else if y2 < y1 {
        lemma_year_starts_grow(y2, y1);
    }
}

spec fn hinnant(days: int) -> (int, int, int) {
    let z = days + 719468;
    let era = z / 146097;
    let doe = z - era * 146097;
    let yoe = (doe - doe / 1460 + doe / 36524 - doe / 146096) / 365;
    let y = yoe + era * 400;
    let doy = doe - (365 * yoe + yoe / 4 - yoe / 100);
    let mp = (5 * doy + 2) / 153;
    let d = doy - (153 * mp + 2) / 5 + 1;
    let m = if mp < 10 { mp + 3 } else { mp - 9 };
    (if m <= 2 { y + 1 } else { y }, m, d)
}

#[verifier::spinoff_prover]
#[verifier::rlimit(60)]
proof fn lemma_year_of_era(doe: int)
    requires
        0 <= doe <= 146096,
    ensures
        ({
            let yoe = (doe - doe / 1460 + doe / 36524 - doe / 146096) / 365;
            let start = 365 * yoe + yoe / 4 - yoe / 100;
            &&& 0 <= yoe <= 399
            &&& start <= doe
            &&& doe - start <= (if (yoe + 1) % 4 == 0 && ((yoe + 1) % 100 != 0 || (yoe + 1) % 400 == 0) { 365int } else { 364int })
        }),
{
}

#[verifier::spinoff_prover]
#[verifier::rlimit(60)]
proof fn lemma_month_of_year(doy: int)
    requires
        0 <= doy <= 365,
    ensures
        ({
            let mp = (5 * doy + 2) / 153;
            let d = doy - (153 * mp + 2) / 5 + 1;
            let m = if mp < 10 { mp + 3 } else { mp - 9 };
            &&& 0 <= mp <= 11
            &&& 1 <= m <= 12
            &&& 1 <= d
            &&& d <= (if mp == 11 { 29int } else if mp == 1 || mp == 3 || mp == 6 || mp == 8 { 30int } else { 31int })
            &&& mp == 11 && doy <= 364 ==> d <= 28
        }),
{
}

proof fn lemma_month_offset(mp: int)
    requires
        0 <= mp <= 11,
    ensures
        ({
            let m = if mp < 10 { mp + 3 } else { mp - 9 };
            &&& mp < 10 ==> common_days_before_month(m) - 59 == (153 * mp + 2) / 5
            &&& mp >= 10 ==> common_days_before_month(m) + 306 == (153 * mp + 2) / 5
        }),
{
    if mp == 0 {} else if mp == 1 {} else if mp == 2 {} else if mp == 3 {} else if mp == 4 {}
    else if mp == 5 {} else if mp == 6 {} else if mp == 7 {} else if mp == 8 {} else if mp == 9 {}
    else if mp == 10 {} else {}
}

#[verifier::spinoff_prover]
#[verifier::rlimit(60)]
proof fn lemma_era_start(era: int, yoe: int)
    requires
        0 <= yoe <= 399,
        era >= 0,
    ensures
        ({
            let y = yoe + era * 400;
            &&& 365 * y + y / 4 - y / 100 + y / 400 == 146097 * era + 365 * yoe + yoe / 4 - yoe / 100
            &&& is_leap_year(y + 1) == ((yoe + 1) % 4 == 0 && ((yoe + 1) % 100 != 0 || (yoe + 1) % 400 == 0))
        }),
{
}

#[verifier::spinoff_prover]
#[verifier::rlimit(60)]
proof fn lemma_hinnant(days: int)
    requires
        days >= -719468,
    ensures
        is_valid_date(hinnant(days).0, hinnant(days).1, hinnant(days).2),
        days_from_civil(hinnant(days).0, hinnant(days).1, hinnant(days).2) == days,
{
    let z = days + 719468;
    let era = z / 146097;
    let doe = z - era * 146097;
    assert(0 <= doe <= 146096);
    lemma_year_of_era(doe);
    let yoe = (doe - doe / 1460 + doe / 36524 - doe / 146096) / 365;
    let start = 365 * yoe + yoe / 4 - yoe / 100;
    let y = yoe + era * 400;
    let doy = doe - start;
    lemma_month_of_year(doy);
    lemma_era_start(era, yoe);
    let mp = (5 * doy + 2) / 153;
    lemma_month_offset(mp);
    let d = doy - (153 * mp + 2) / 5 + 1;
    let m = if mp < 10 { mp + 3 } else { mp - 9 };
    let q = y / 4 - y / 100 + y / 400;
    lemma_leap_step(y);
    assert(leap_years_before(y + 1) == q);
    assert(leap_years_before(1970) == 477);
    assert(z == 365 * y + q + (153 * mp + 2) / 5 + d - 1);
    let h = hinnant(days);
    assert(h == (if m <= 2 { y + 1 } else { y }, m, d));
    if mp < 10 {
        assert(days_before_month(y, m) == common_days_before_month(m) + if is_leap_year(y) { 1int } else { 0int });
        assert(days_from_civil(y, m, d) == days);
        assert(days_in_month(y, m) == days_in_month(1, m));
    } else {
        assert(days_before_month(y + 1, m) == common_days_before_month(m));
        assert(days_from_civil(y + 1, m, d) == days);
    }
}

proof fn lemma_civil_from_days(days: int)
    requires
        days >= -719468,
    ensures
        civil_from_days(days) == hinnant(days),
        is_valid_date(civil_from_days(days).0, civil_from_days(days).1, civil_from_days(days).2),
        days_from_civil(civil_from_days(days).0, civil_from_days(days).1, civil_from_days(days).2) == days,
{
    lemma_hinnant(days);
    let h = hinnant(days);
    assert(is_valid_date(h.0, h.1, h.2) && days_from_civil(h.0, h.1, h.2) == days);
    let c = civil_from_days(days);
    lemma_date_unique(c.0, c.1, c.2, h.0, h.1, h.2);
}

/// Every day from 0000-03-01 on has a calendar date, and counting the days from
/// 1970-01-01 to that date gives back the day.
pub proof fn lemma_civil_roundtrip(days: int)
    requires
        days >= -719468,
    ensures
        is_valid_date(civil_from_days(days).0, civil_from_days(days).1, civil_from_days(days).2),
        days_from_civil(civil_from_days(days).0, civil_from_days(days).1, civil_from_days(days).2)
            == days,
{
    lemma_civil_from_days(days);
}

/// The calendar day after `y`-`m`-`d`.
pub open spec fn next_date(y: int, m: int, d: int) -> (int, int, int) {
    if d < days_in_month(y, m) {
        (y, m, d + 1)
    } else if m < 12 {
        (y, m + 1, 1)
    } else {
        (y + 1, 1, 1)
    }
}

proof fn lemma_month_step(y: int, m: int)
    requires
        1 <= m < 12,
    ensures
        days_before_month(y, m + 1) == days_before_month(y, m) + days_in_month(y, m),
{
}

/// Day `days + 1` falls on the calendar day after day `days`, from 0000-03-01 on.
pub proof fn lemma_next_day(days: int)
    requires
        days >= -719468,
    ensures
        civil_from_days(days + 1) == next_date(
            civil_from_days(days).0,
            civil_from_days(days).1,
            civil_from_days(days).2,
        ),
{
    lemma_civil_from_days(days);
    lemma_civil_from_days(days + 1);
    let (y, m, d) = civil_from_days(days);
    let n = next_date(y, m, d);
    if d < days_in_month(y, m) {
        assert(days_from_civil(n.0, n.1, n.2) == days + 1);
    } else if m < 12 {
        lemma_month_step(y, m);
        assert(days_from_civil(n.0, n.1, n.2) == days + 1);
    } else {
        lemma_leap_step(y);
        assert(days_from_civil(n.0, n.1, n.2) == days + 1);
    }
    assert(is_valid_date(n.0, n.1, n.2));
    let c = civil_from_days(days + 1);
    lemma_date_unique(c.0, c.1, c.2, n.0, n.1, n.2);
}

/// Day 0 is 1970-01-01 and day -1 is 1969-12-31.
pub proof fn lemma_epoch_dates()
    ensures
        civil_from_days(0) == (1970int, 1int, 1int),
        civil_from_days(-1) == (1969int, 12int, 31int),
{
    lemma_civil_from_days(0);
    lemma_civil_from_days(-1);
    let c0 = civil_from_days(0);
    let c1 = civil_from_days(-1);
    assert(leap_years_before(1970) == 477);
    assert(leap_years_before(1969) == 477);
    assert(days_from_civil(1970, 1, 1) == 0);
    assert(days_from_civil(1969, 12, 31) == -1);
    lemma_date_unique(c0.0, c0.1, c0.2, 1970, 1, 1);
    lemma_date_unique(c1.0, c1.1, c1.2, 1969, 12, 31);
}

/// The date `days` days after 1970-01-01, computed with the era-based algorithm of
/// H. Hinnant's `civil_from_days`; the year is reduced to 32 bits.
fn days_to_date(days: i64) -> (r: (i32, u32, u32))
    requires
        -719468 <= days <= 213503982334601,
    ensures
        r.0 == civil_from_days(days as int).0 as i32,
        r.1 == civil_from_days(days as int).1,
        r.2 == civil_from_days(days as int).2,
{
    proof {
        lemma_civil_from_days(days as int);
        lemma_year_of_era((days as int + 719468) % 146097);
        lemma_month_of_year(0);
    }
    let z = days + 719468;
    let era = z / 146097;
    let doe = (z - era * 146097) as u32;
    proof {
        lemma_year_of_era(doe as int);
    }
    let yoe = (doe - doe / 1460 + doe / 36524 - doe / 146096) / 365;
    let y = yoe as i64 + era * 400;
    let doy = doe - (365 * yoe + yoe / 4 - yoe / 100);
    proof {
        lemma_month_of_year(doy as int);
    }
    let mp = (5 * doy + 2) / 153;
    let d = doy - (153 * mp + 2) / 5 + 1;
    let m = if mp < 10 {
        mp + 3
    } else {
        mp - 9
    };
    let year = if m <= 2 {
        y + 1
    } else {
        y
    };
    (#[verifier::truncate] (year as i32), m, d)
}

/// The `{:04}` rendering of a year: zero-padded to four characters, sign included.
pub open spec fn year_text(y: i32) -> Seq<char> {
    if y < 0 {
        seq!['-'] + text::zero_padded((-(y as int)) as nat, 3)
    } else {
        text::zero_padded(y as nat, 4)
    }
}

/// The nanoseconds of a timestamp as RFC 3339 fractional seconds: empty when zero,
/// else a `.` and the nine digits without their trailing zeros.
pub open spec fn nanos_text(nanos: nat) -> Seq<char> {
    if nanos == 0 {
        seq![]
    } else {
        seq!['.'] + text::trim_trailing_zeros(text::fixed_digits(nanos, 9))
    }
}

/// RFC 3339 in UTC with nanosecond precision, for `t` nanoseconds after the epoch.
pub open spec fn rfc3339_nano(t: nat) -> Seq<char> {
    let secs = t / 1_000_000_000;
    let days = secs / 86400;
    let tod = secs % 86400;
    let date = civil_from_days(days as int);
    year_text(date.0 as i32) + seq!['-'] + text::zero_padded(date.1 as nat, 2) + seq!['-']
        + text::zero_padded(date.2 as nat, 2) + seq!['T'] + text::zero_padded(tod / 3600, 2) + seq![
        ':',
    ] + text::zero_padded(tod % 3600 / 60, 2) + seq![':'] + text::zero_padded(tod % 60, 2)
        + nanos_text(t % 1_000_000_000) + seq!['Z']
}

/// Formats a timestamp as RFC 3339 in UTC with nanosecond precision
/// (e.g. "2001-09-09T01:46:40.123456789Z").
pub fn format_rfc3339_nano(t: SystemTime) -> (s: String)
    ensures
        s@ == rfc3339_nano(t@),
{
    let dur = t.since_epoch();
    let secs = dur.as_secs();
    let nanos = dur.subsec_nanos();
    let days = (secs / 86400) as i64;
    let time_of_day = secs % 86400;
    let hours = time_of_day / 3600;
    let minutes = (time_of_day % 3600) / 60;
    let seconds = time_of_day % 60;
    let (year, month, day) = days_to_date(days);
    let mut out = String::new();
    if year < 0 {
        push_char(&mut out, '-');
        push_zero_padded(&mut out, (0 - (year as i64)) as u128, 3);
    } else {
        push_zero_padded(&mut out, year as u128, 4);
    }
    assert(out@ =~= year_text(year));
    push_char(&mut out, '-');
    push_zero_padded(&mut out, month as u128, 2);
    push_char(&mut out, '-');
    push_zero_padded(&mut out, day as u128, 2);
    push_char(&mut out, 'T');
    push_zero_padded(&mut out, hours as u128, 2);
    push_char(&mut out, ':');
    push_zero_padded(&mut out, minutes as u128, 2);
    push_char(&mut out, ':');
    push_zero_padded(&mut out, seconds as u128, 2);
    let ghost head = out@;
    if nanos != 0 {
        push_go_fraction(&mut out, nanos as u64, 9);
        proof {
            lemma_nonzero_fraction(nanos as nat);
        }
    }
    assert(out@ =~= head + nanos_text(nanos as nat));
    push_char(&mut out, 'Z');
    assert(out@ =~= rfc3339_nano(t@));
    out
}

/// A nonzero count of nanoseconds keeps a digit after its trailing zeros are dropped.
proof fn lemma_nonzero_fraction(n: nat)
    requires
        0 < n < 1_000_000_000,
    ensures
        nanos_text(n) == go_fraction(n, 9),
{
    assert(pow10(9) == 1_000_000_000) by {
        reveal_with_fuel(pow10, 10);
    }
    lemma_fixed_digits_nonzero(n, 9);
}

proof fn lemma_fixed_digits_nonzero(n: nat, w: nat)
    requires
        0 < n,
        n < pow10(w),
    ensures
        text::trim_trailing_zeros(text::fixed_digits(n, w)).len() > 0,
    decreases w,
{
    if w > 0 {
        let f = text::fixed_digits(n, w);
        if n % 10 == 0 {
            assert(n / 10 > 0);
            assert(n / 10 < pow10((w - 1) as nat));
            lemma_fixed_digits_nonzero(n / 10, (w - 1) as nat);
            assert(f.last() == '0');
            assert(f.drop_last() == text::fixed_digits(n / 10, (w - 1) as nat));
        } else {
            assert(f.last() != '0');
        }
    }
}

spec fn pow10(w: nat) -> nat
    decreases w,
{
    if w == 0 {
        1
    } else {
        10 * pow10((w - 1) as nat)
    }
}

} // verus!
