//! How long a model stays resident.
use vstd::prelude::*;

use crate::decimal;
use crate::ieee::Format;
use crate::json;
use crate::json::Json;
use crate::text;

verus! {

/// Nanoseconds in a second.
pub const SECOND: u128 = 1_000_000_000;

/// Residency granted where nothing else is said, in seconds.
pub const DEFAULT_SECS: u64 = 300;

/// Sixty, as a double.
pub const SIXTY: u64 = 0x404e_0000_0000_0000;

/// Three thousand six hundred, as a double.
pub const HOUR: u64 = 0x40ac_2000_0000_0000;

/// Requested residency after a request.
#[derive(Clone, Copy, PartialEq, Eq, Debug, Structural)]
pub enum KeepAlive {
    Default,
    Seconds(u64),
    Forever,
    Now,
}

/// Where the first ASCII letter stands, from `i` on.
pub open spec fn letter_from(s: Seq<char>, i: int) -> int
    decreases s.len() - i,
{
    if 0 <= i < s.len() && !('a' <= text::lower(s[i]) <= 'z') {
        letter_from(s, i + 1)
    } else {
        i
    }
}

/// The double that a decimal without exponent spells: digits with an optional
/// plus before and an optional point among them.
pub open spec fn amount(s: Seq<char>) -> Option<int> {
    let a = if s.len() > 0 && s[0] == '+' {
        1int
    } else {
        0int
    };
    let b = json::digits_end(s, a);
    let c = if b < s.len() && s[b] == '.' {
        b + 1
    } else {
        b
    };
    let d = if c > b {
        json::digits_end(s, c)
    } else {
        c
    };
    let m = json::digit_seq(s, a, b) + json::digit_seq(s, c, d);
    if d == s.len() && m.len() > 0 {
        Some(decimal::of_decimal(false, decimal::digits_value(m), -(d - c)))
    } else {
        None
    }
}

/// A number of seconds as a residency.
pub open spec fn of_seconds(n: int) -> KeepAlive {
    if Format::F64.less(n, 0) {
        KeepAlive::Forever
    } else if Format::F64.equal(n, 0) {
        KeepAlive::Now
    } else {
        KeepAlive::Seconds(Format::F64.truncated(n) as u64)
    }
}

/// Seconds that a duration stands for, with its unit.
pub open spec fn scaled(n: int, unit: Seq<char>) -> Option<int> {
    if unit == ""@ || unit == "s"@ {
        Some(n)
    } else if unit == "m"@ {
        Some(Format::F64.product(n, SIXTY as int))
    } else if unit == "h"@ {
        Some(Format::F64.product(n, HOUR as int))
    } else {
        None
    }
}

/// The residency that a text asks for; what is no duration asks for nothing.
pub open spec fn of_text(raw: Seq<char>) -> KeepAlive {
    let s = text::trim(raw);
    let i = letter_from(s, 0);
    if s == "0"@ {
        KeepAlive::Now
    } else if s.len() > 0 && s[0] == '-' {
        KeepAlive::Forever
    } else {
        match amount(text::trim(s.take(i))) {
            None => KeepAlive::Default,
            Some(n) => match scaled(n, text::trim(s.skip(i))) {
                None => KeepAlive::Default,
                Some(n) => if Format::F64.less(n, 0) || Format::F64.equal(n, 0) {
                    KeepAlive::Now
                } else {
                    KeepAlive::Seconds(Format::F64.truncated(n) as u64)
                },
            },
        }
    }
}

fn read_amount(s: &Vec<char>) -> (r: Option<u64>)
    ensures
        match r {
            Some(n) => amount(s@) == Some(n as int),
            None => amount(s@) is None,
        },
{
    let n: usize = s.len();
    let a: usize = if n > 0 && s[0] == '+' {
        1
    } else {
        0
    };
    let b: usize = json::digits_from(s, a);
    let c: usize = if b < n && s[b] == '.' {
        b + 1
    } else {
        b
    };
    let d: usize = if c > b {
        json::digits_from(s, c)
    } else {
        c
    };
    proof {
        json::lemma_digits_end(s@, a as int);
        if c > b {
            json::lemma_digits_end(s@, c as int);
        }
    }
    let mut m: Vec<u8> = Vec::new();
    json::push_digits(s, a, b, &mut m);
    json::push_digits(s, c, d, &mut m);
    proof {
        assert(m@ =~= json::digit_seq(s@, a as int, b as int) + json::digit_seq(
            s@,
            c as int,
            d as int,
        ));
    }
    if d != n || m.len() == 0 {
        return None;
    }
    let places: usize = d - c;
    Some(decimal::decimal_to_f64(false, &m, -(places as i128)))
}

fn slice_of(v: &Vec<char>, from: usize, to: usize) -> (r: Vec<char>)
    requires
        from <= to <= v@.len(),
    ensures
        r@ == v@.subrange(from as int, to as int),
{
    let mut r: Vec<char> = Vec::new();
    let mut i: usize = from;
    while i < to
        invariant
            from <= i <= to <= v@.len(),
            r@ =~= v@.subrange(from as int, i as int),
        decreases to - i,
    {
        r.push(v[i]);
        i = i + 1;
    }
    r
}

fn from_text(raw: &str) -> (r: KeepAlive)
    ensures
        r == of_text(raw@),
{
    let all: Vec<char> = text::to_chars(raw);
    let s: Vec<char> = text::trimmed(&all);
    if text::reads(&s, "0") {
        return KeepAlive::Now;
    }
    if s.len() > 0 && s[0] == '-' {
        return KeepAlive::Forever;
    }
    let n: usize = s.len();
    let mut i: usize = 0;
    while i < n && !('a' <= text::to_lower(s[i]) && text::to_lower(s[i]) <= 'z')
        invariant
            i <= n,
            n == s@.len(),
            letter_from(s@, 0) == letter_from(s@, i as int),
        decreases n - i,
    {
        i = i + 1;
    }
    let num: Vec<char> = text::trimmed(&slice_of(&s, 0, i));
    let unit: Vec<char> = text::trimmed(&slice_of(&s, i, n));
    proof {
        assert(s@.subrange(0, i as int) =~= s@.take(i as int));
        assert(s@.subrange(i as int, n as int) =~= s@.skip(i as int));
    }
    let v: u64 = match read_amount(&num) {
        Some(v) => v,
        None => return KeepAlive::Default,
    };
    let secs: u64 = if text::reads(&unit, "") || text::reads(&unit, "s") {
        v
    } else if text::reads(&unit, "m") {
        Format::F64.multiply(v, SIXTY)
    } else if text::reads(&unit, "h") {
        Format::F64.multiply(v, HOUR)
    } else {
        return KeepAlive::Default;
    };
    if Format::F64.lt(secs, 0) || Format::F64.eq_value(secs, 0) {
        KeepAlive::Now
    } else {
        KeepAlive::Seconds(Format::F64.trunc_u64(secs))
    }
}

impl KeepAlive {
    /// The `keep_alive` field of a request: seconds, a duration, or nothing.
    pub fn parse(v: Option<&Json>) -> (r: KeepAlive)
        ensures
            r == (match v {
                None => KeepAlive::Default,
                Some(j) => match j@ {
                    json::Value::Num(n) => of_seconds(n as int),
                    json::Value::Str(s) => of_text(s),
                    _ => KeepAlive::Default,
                },
            }),
    {
        match v {
            None => KeepAlive::Default,
            Some(j) => match j {
                Json::Num(n) => if Format::F64.lt(*n, 0) {
                    KeepAlive::Forever
                } else if Format::F64.eq_value(*n, 0) {
                    KeepAlive::Now
                } else {
                    KeepAlive::Seconds(Format::F64.trunc_u64(*n))
                },
                Json::Str(s) => from_text(s.as_str()),
                _ => KeepAlive::Default,
            },
        }
    }
}

/// The two texts agree but for the case of ASCII letters.
pub open spec fn same_folded(a: Seq<char>, b: Seq<char>) -> bool {
    a.len() == b.len() && forall|i: int|
        0 <= i < a.len() ==> text::lower(#[trigger] a[i]) == text::lower(b[i])
}

fn folds_to(a: &Vec<char>, b: &Vec<char>) -> (r: bool)
    ensures
        r == same_folded(a@, b@),
{
    if a.len() != b.len() {
        return false;
    }
    let mut i: usize = 0;
    while i < a.len()
        invariant
            i <= a@.len(),
            a@.len() == b@.len(),
            forall|k: int| 0 <= k < i ==> text::lower(#[trigger] a@[k]) == text::lower(b@[k]),
        decreases a@.len() - i,
    {
        if text::to_lower(a[i]) != text::to_lower(b[i]) {
            assert(text::lower(a@[i as int]) != text::lower(b@[i as int]));
            return false;
        }
        i = i + 1;
    }
    true
}

/// The window that a setting grants, `None` for ever. What is no duration
/// grants the default.
pub open spec fn window_of(setting: Option<Seq<char>>) -> Option<u64> {
    match setting {
        None => Some(DEFAULT_SECS),
        Some(raw) => if same_folded(text::trim(raw), "forever"@) {
            None
        } else {
            match of_text(raw) {
                KeepAlive::Forever => None,
                KeepAlive::Seconds(s) => Some(s),
                KeepAlive::Now => Some(0),
                KeepAlive::Default => Some(DEFAULT_SECS),
            }
        },
    }
}

pub fn default_window(setting: Option<&str>) -> (r: Option<u64>)
    ensures
        r == window_of(match setting {
            Some(s) => Some(s@),
            None => None,
        }),
{
    match setting {
        None => Some(DEFAULT_SECS),
        Some(raw) => {
            let all: Vec<char> = text::to_chars(raw);
            let s: Vec<char> = text::trimmed(&all);
            let f: Vec<char> = text::to_chars("forever");
            if folds_to(&s, &f) {
                return None;
            }
            match from_text(raw) {
                KeepAlive::Forever => None,
                KeepAlive::Seconds(s) => Some(s),
                KeepAlive::Now => Some(0),
                KeepAlive::Default => Some(DEFAULT_SECS),
            }
        },
    }
}

/// The single place that a resident model takes. Times are in nanoseconds.
pub struct Residency {
    pub resident: Option<String>,
    pub expires_at: Option<u128>,
    /// Granted where a request does not say; `None` for ever.
    pub default_secs: Option<u64>,
}

/// The model's window has passed.
pub open spec fn due(r: Residency, now: int) -> bool {
    r.resident is Some && r.expires_at is Some && r.expires_at->0 <= now
}

/// Seconds that a request grants; `None` where no window runs after it.
pub open spec fn granted(r: Residency, ka: KeepAlive) -> Option<u64> {
    match ka {
        KeepAlive::Default => r.default_secs,
        KeepAlive::Seconds(s) => Some(s),
        _ => None,
    }
}

/// The window that a request at `now` grants ends at a time of the clock.
pub open spec fn in_time(r: Residency, ka: KeepAlive, now: int) -> bool {
    granted(r, ka) matches Some(s) ==> now + s * SECOND <= u128::MAX
}

/// The residency after a request that ended at `now`.
pub open spec fn touched(r: Residency, ka: KeepAlive, now: int) -> Residency {
    if ka is Now {
        evicted(r)
    } else {
        Residency {
            expires_at: match granted(r, ka) {
                Some(s) => Some((now + s * SECOND) as u128),
                None => None,
            },
            ..r
        }
    }
}

/// Nothing is resident; the window is kept.
pub open spec fn evicted(r: Residency) -> Residency {
    Residency { resident: None, ..r }
}

/// Whole seconds until the resident model is released; `None` where nothing is
/// resident or it stays for ever.
pub open spec fn left(r: Residency, now: int) -> Option<u64> {
    if r.resident is Some && r.expires_at is Some {
        Some(
            (if r.expires_at->0 > now {
                (r.expires_at->0 - now) / (SECOND as int)
            } else {
                0
            }) as u64,
        )
    } else {
        None
    }
}

/// No window is reported where nothing is resident, however it came to that:
/// in every such state, after a release whatever window a request granted, and
/// after a request that asks for the release.
pub proof fn law_nothing_expires_where_nothing_is_resident(
    r: Residency,
    ka: KeepAlive,
    now: int,
    t: int,
)
    ensures
        r.resident is None ==> left(r, t) is None,
        left(evicted(touched(r, ka, now)), t) is None,
        left(touched(r, KeepAlive::Now, now), t) is None,
{
}

/// A touched model becomes due when its window has passed and not before; one
/// kept for ever never does.
pub proof fn law_windows_run_from_the_last_request(r: Residency, ka: KeepAlive, now: int, t: int)
    requires
        0 <= now,
        in_time(r, ka, now),
        r.resident is Some,
    ensures
        ka matches KeepAlive::Seconds(s) ==> due(touched(r, ka, now), t) == (t >= now + s
            * SECOND),
        ka is Forever ==> !due(touched(r, ka, now), t),
        ka is Now ==> touched(r, ka, now).resident is None,
{
    if let KeepAlive::Seconds(s) = ka {
        assert(granted(r, ka) == Some(s));
    }
}

impl Residency {
    /// Refresh the window after a request.
    pub fn touch(&mut self, ka: KeepAlive, now: u128)
        requires
            in_time(*old(self), ka, now as int),
        ensures
            *final(self) == touched(*old(self), ka, now as int),
    {
        let secs: Option<u64> = match ka {
            KeepAlive::Default => self.default_secs,
            KeepAlive::Seconds(s) => Some(s),
            KeepAlive::Forever => None,
            KeepAlive::Now => {
                self.evict();
                return;
            },
        };
        self.expires_at = match secs {
            Some(s) => {
                assert(s * SECOND <= u64::MAX * SECOND) by (nonlinear_arith)
                    requires
                        s <= u64::MAX,
                        SECOND == 1_000_000_000,
                ;
                Some(now + (s as u128) * SECOND)
            },
            None => None,
        };
    }

    /// Release the resident model if its window has passed.
    pub fn sweep(&mut self, now: u128) -> (r: bool)
        ensures
            r == due(*old(self), now as int),
            *final(self) == (if r {
                evicted(*old(self))
            } else {
                *old(self)
            }),
    {
        let over: bool = match self.expires_at {
            Some(t) => t <= now,
            None => false,
        };
        if self.resident.is_some() && over {
            self.evict();
            true
        } else {
            false
        }
    }

    /// Whole seconds until the resident model is released; `None` where
    /// nothing is resident or it stays for ever.
    pub fn expires_in_secs(&self, now: u128) -> (r: Option<u64>)
        requires
            self.resident is Some && self.expires_at is Some ==> self.expires_at->0 <= now
                + u64::MAX * SECOND,
        ensures
            r == left(*self, now as int),
    {
        if self.resident.is_none() {
            return None;
        }
        match self.expires_at {
            Some(t) => if t > now {
                let d: u128 = (t - now) / SECOND;
                assert(d <= u64::MAX);
                Some(d as u64)
            } else {
                Some(0)
            },
            None => None,
        }
    }

    /// Make room for `name`: whether it has to be loaded. Another model is
    /// released first.
    pub fn ensure(&mut self, name: &str) -> (r: bool)
        ensures
            r == !(old(self).resident is Some && old(self).resident->0@ == name@),
            *final(self) == (if r {
                evicted(*old(self))
            } else {
                *old(self)
            }),
    {
        let same: bool = match &self.resident {
            Some(m) => text::same(m.as_str(), name),
            None => false,
        };
        if same {
            return false;
        }
        self.evict();
        true
    }

    /// Release the resident model.
    pub fn evict(&mut self)
        ensures
            *final(self) == evicted(*old(self)),
    {
        self.resident = None;
    }

    /// After a fault of the device nothing is resident and no window runs.
    pub fn recover(&mut self)
        ensures
            *final(self) == (Residency { resident: None, expires_at: None, ..*old(self) }),
    {
        self.resident = None;
        self.expires_at = None;
    }
}

// After a fault of the device.

/// Attempts to set the device up again.
pub const ATTEMPTS: usize = 5;

/// Milliseconds after an attempt that failed.
pub const PAUSE_MS: u64 = 300;

/// What the process leaves behind where the device cannot be recovered, for
/// its supervisor.
pub const UNRECOVERABLE: i32 = 86;

/// A step of the recovery that was made.
#[derive(Clone, Copy, PartialEq, Eq, Debug, Structural)]
pub enum Tried {
    Reset,
    /// The attempt of this number, from one on, to set the device up.
    Setup { attempt: usize },
}

/// What the recovery does next.
#[derive(Clone, Copy, PartialEq, Eq, Debug, Structural)]
pub enum Recovery {
    /// Wait, then make this attempt.
    Setup { attempt: usize, wait_ms: u64 },
    /// The device is there again.
    Serve,
    /// Wait, then end the process.
    Exit { wait_ms: u64, code: i32 },
}

/// A device that cannot be reset is given up at once; one that was reset is
/// set up in up to five attempts, with a pause after each that fails.
pub open spec fn recovery(tried: Tried, ok: bool) -> Recovery {
    match tried {
        Tried::Reset => if ok {
            Recovery::Setup { attempt: 1, wait_ms: 0 }
        } else {
            Recovery::Exit { wait_ms: 0, code: UNRECOVERABLE }
        },
        Tried::Setup { attempt } => if ok {
            Recovery::Serve
        } else if attempt < ATTEMPTS {
            Recovery::Setup { attempt: (attempt + 1) as usize, wait_ms: PAUSE_MS }
        } else {
            Recovery::Exit { wait_ms: PAUSE_MS, code: UNRECOVERABLE }
        },
    }
}

/// What follows a step of the recovery.
pub fn next_recovery(tried: Tried, ok: bool) -> (r: Recovery)
    ensures
        r == recovery(tried, ok),
{
    match tried {
        Tried::Reset => if ok {
            Recovery::Setup { attempt: 1, wait_ms: 0 }
        } else {
            Recovery::Exit { wait_ms: 0, code: UNRECOVERABLE }
        },
        Tried::Setup { attempt } => if ok {
            Recovery::Serve
        } else if attempt < ATTEMPTS {
            Recovery::Setup { attempt: attempt + 1, wait_ms: PAUSE_MS }
        } else {
            Recovery::Exit { wait_ms: PAUSE_MS, code: UNRECOVERABLE }
        },
    }
}

/// How a recovery ends that is at attempt `n`, and the attempts made by then;
/// `ok` says which attempts succeed.
pub open spec fn outcome(ok: spec_fn(int) -> bool, n: int) -> (Recovery, int)
    decreases ATTEMPTS - n,
{
    match recovery(Tried::Setup { attempt: n as usize }, ok(n)) {
        Recovery::Setup { attempt, .. } => if n < attempt <= ATTEMPTS {
            outcome(ok, attempt as int)
        } else {
            (Recovery::Serve, n)
        },
        end => (end, n),
    }
}

/// A recovery serves with the first attempt that succeeds, and ends the
/// process after five that fail.
pub proof fn law_recovery_makes_five_attempts(ok: spec_fn(int) -> bool, n: int)
    requires
        1 <= n <= ATTEMPTS,
    ensures
        ({
            let (end, made) = outcome(ok, n);
            &&& n <= made <= ATTEMPTS
            &&& forall|i: int| n <= i < made ==> !#[trigger] ok(i)
            &&& ok(made) ==> end == Recovery::Serve
            &&& !ok(made) ==> made == ATTEMPTS && end == (Recovery::Exit {
                wait_ms: PAUSE_MS,
                code: UNRECOVERABLE,
            })
        }),
    decreases ATTEMPTS - n,
{
    if !ok(n) && n < ATTEMPTS {
        law_recovery_makes_five_attempts(ok, n + 1);
    }
}

} // verus!
