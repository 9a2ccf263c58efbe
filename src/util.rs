use vstd::prelude::*;

verus! {

/// Bounds of the row-major index `y * w + x` of a cell of a `w`-wide grid.
pub proof fn lemma_index_bound(x: int, y: int, w: int, h: int)
    requires
        0 <= x < w,
        0 <= y < h,
    ensures
        0 <= y * w + x < h * w,
        y * w + x < w * h,
        y * w + x >= y * w,
        y * w + w <= h * w,
{
    assert(h * w == w * h) by (nonlinear_arith);
    assert(0 <= y * w + x < h * w) by (nonlinear_arith)
        requires
            0 <= x < w,
            0 <= y < h,
    ;
    assert(y * w + w <= h * w) by (nonlinear_arith)
        requires
            0 <= y < h,
            0 <= w,
    ;
}

/// Distinct cells of a `w`-wide grid have distinct row-major indices.
pub proof fn lemma_index_unique(x1: int, y1: int, x2: int, y2: int, w: int)
    requires
        0 <= x1 < w,
        0 <= x2 < w,
        0 <= y1,
        0 <= y2,
        y1 * w + x1 == y2 * w + x2,
    ensures
        x1 == x2,
        y1 == y2,
{
    if y1 < y2 {
        assert(y1 * w + x1 < y2 * w) by (nonlinear_arith)
            requires
                y1 < y2,
                0 <= x1 < w,
        ;
    } else if y2 < y1 {
        assert(y2 * w + x2 < y1 * w) by (nonlinear_arith)
            requires
                y2 < y1,
                0 <= x2 < w,
        ;
    }
}

/// An integer offset on the board grid.
#[derive(Clone, Copy, Debug, PartialEq, Eq, Structural)]
pub struct Position {
    pub x: i32,
    pub y: i32,
}

/// `v` limited to the range of an `i32`.
pub open spec fn saturate_i32(v: int) -> int {
    if v > i32::MAX {
        i32::MAX as int
    } else if v < i32::MIN {
        i32::MIN as int
    } else {
        v
    }
}

impl Position {
    pub fn new(x: i32, y: i32) -> (r: Self)
        ensures
            r.x == x,
            r.y == y,
    {
        Self { x, y }
    }

    pub fn origin() -> (r: Self)
        ensures
            r.x == 0,
            r.y == 0,
    {
        Self::new(0, 0)
    }

    /// Moves horizontally by `offset`, saturating at the bounds of `i32`.
    pub fn add_x(&self, offset: i32) -> (r: Self)
        ensures
            r.x == saturate_i32(self.x + offset),
            r.y == self.y,
    {
        Self { x: saturating_add_i32(self.x, offset), y: self.y }
    }

    /// Moves vertically by `offset`, saturating at the bounds of `i32`.
    pub fn add_y(&self, offset: i32) -> (r: Self)
        ensures
            r.x == self.x,
            r.y == saturate_i32(self.y + offset),
    {
        Self { x: self.x, y: saturating_add_i32(self.y, offset) }
    }
}

fn saturating_add_i32(a: i32, b: i32) -> (r: i32)
    ensures
        r == saturate_i32(a + b),
{
    let s: i64 = a as i64 + b as i64;
    if s > i32::MAX as i64 {
        i32::MAX
    } else if s < i32::MIN as i64 {
        i32::MIN
    } else {
        s as i32
    }
}

/// A clock that accumulates elapsed time across suspend / resume cycles.
///
/// Time is fed in by `update` with non-decreasing timestamps. While running,
/// the elapsed time at a timestamp `t` is the accumulator plus the time since
/// the last resume; while suspended it is the accumulator alone.
pub struct Clock {
    accumulator: u64,
    suspended: bool,
    curr_ts: Option<u64>,
    prev_ts: Option<u64>,
    reference_ts: Option<u64>,
}

impl Clock {
    /// The clock's internal invariant.
    pub closed spec fn wf(&self) -> bool {
        match self.curr_ts {
            None => self.accumulator == 0 && self.reference_ts.is_none() && self.prev_ts.is_none(),
            Some(c) => match self.reference_ts {
                None => false,
                Some(r) => {
                    &&& r <= c
                    &&& if self.suspended {
                        self.accumulator <= c
                    } else {
                        self.accumulator <= r
                    }
                    &&& match self.prev_ts {
                        None => true,
                        Some(p) => p <= c,
                    }
                },
            },
        }
    }

    pub closed spec fn spec_suspended(&self) -> bool {
        self.suspended
    }

    pub closed spec fn spec_curr(&self) -> Option<u64> {
        self.curr_ts
    }

    pub closed spec fn spec_prev(&self) -> Option<u64> {
        self.prev_ts
    }

    /// Time since the last resume at `ts`; nothing before the resume counts.
    pub closed spec fn since_resume_spec(&self, ts: Option<u64>) -> int {
        match (self.reference_ts, ts) {
            (Some(r), Some(t)) => if t >= r {
                t - r
            } else {
                0
            },
            _ => 0,
        }
    }

    /// Elapsed time at `ts`.
    pub closed spec fn elapsed_at(&self, ts: Option<u64>) -> int {
        if self.suspended {
            self.accumulator as int
        } else {
            self.accumulator + self.since_resume_spec(ts)
        }
    }

    /// Elapsed time at the update before the latest.
    pub closed spec fn elapsed_before(&self) -> int {
        self.elapsed_at(self.prev_ts)
    }

    /// Elapsed time at the latest update.
    pub closed spec fn elapsed_spec(&self) -> int {
        self.elapsed_at(self.curr_ts)
    }

    /// The elapsed time after an update at `ts`: unchanged while suspended
    /// or before the first update, else grown by the time since the latest.
    pub open spec fn elapsed_after_update(&self, ts: int) -> int {
        if self.spec_suspended() {
            self.elapsed_spec()
        } else if self.spec_curr().is_some() {
            self.elapsed_spec() + (ts - self.latest())
        } else {
            0
        }
    }

    /// While suspended, the elapsed time stands still.
    pub proof fn lemma_suspended(&self)
        requires
            self.spec_suspended(),
        ensures
            self.elapsed_before() == self.elapsed_spec(),
    {
    }

    /// Latest timestamp fed in, or 0 before the first update.
    pub closed spec fn latest(&self) -> int {
        match self.curr_ts {
            Some(c) => c as int,
            None => 0,
        }
    }

    pub fn new() -> (r: Self)
        ensures
            r.wf(),
            !r.spec_suspended(),
            r.spec_curr().is_none(),
            r.spec_prev().is_none(),
            r.elapsed_spec() == 0,
            r.latest() == 0,
    {
        Self { accumulator: 0, suspended: false, curr_ts: None, prev_ts: None, reference_ts: None }
    }

    fn since_resume(&self, ts: Option<u64>) -> (r: u64)
        requires
            self.wf(),
            ts.is_some() ==> self.curr_ts.is_some() && ts.unwrap() <= self.curr_ts.unwrap(),
        ensures
            r == self.since_resume_spec(ts),
    {
        match (self.reference_ts, ts) {
            (Some(r), Some(t)) => if t >= r {
                t - r
            } else {
                0
            },
            _ => 0,
        }
    }

    fn elapsed_until(&self, ts: Option<u64>) -> (r: u64)
        requires
            self.wf(),
            ts.is_some() ==> self.curr_ts.is_some() && ts.unwrap() <= self.curr_ts.unwrap(),
        ensures
            r == self.elapsed_at(ts),
            r <= self.latest(),
    {
        if self.suspended {
            self.accumulator
        } else {
            self.accumulator + self.since_resume(ts)
        }
    }

    pub fn elapsed(&self) -> (r: u64)
        requires
            self.wf(),
        ensures
            r == self.elapsed_spec(),
            r <= self.latest(),
    {
        self.elapsed_until(self.curr_ts)
    }

    /// Whether the elapsed time, less `bias` (and no less than zero), has
    /// crossed a multiple of `divisor` between the previous update and the
    /// latest one. Never true for a zero divisor.
    pub fn has_passed_multiple_of(&self, divisor: u64, bias: u64) -> (r: bool)
        requires
            self.wf(),
        ensures
            r == passed_multiple(self.elapsed_before(), self.elapsed_spec(), divisor as int, bias as int),
            self.spec_suspended() ==> !r,
    {
        if divisor == 0 {
            return false;
        }
        let e_prev = self.elapsed_until(self.prev_ts);
        let e_curr = self.elapsed_until(self.curr_ts);
        let prev = if e_prev > bias {
            (e_prev - bias) / divisor
        } else {
            0
        };
        let curr = if e_curr > bias {
            (e_curr - bias) / divisor
        } else {
            0
        };
        curr > prev
    }

    pub fn is_suspended(&self) -> (r: bool)
        ensures
            r == self.spec_suspended(),
    {
        self.suspended
    }

    /// Stops the accumulation of time; nothing happens if already suspended.
    pub fn suspend(&mut self)
        requires
            old(self).wf(),
        ensures
            final(self).wf(),
            final(self).spec_suspended(),
            final(self).elapsed_before() == final(self).elapsed_spec(),
            final(self).spec_curr() == old(self).spec_curr(),
            final(self).spec_prev() == old(self).spec_prev(),
            final(self).elapsed_spec() == old(self).elapsed_spec(),
            final(self).latest() == old(self).latest(),
    {
        if !self.suspended {
            let s = self.since_resume(self.curr_ts);
            self.accumulator = self.accumulator + s;
            self.suspended = true;
        }
    }

    /// Restarts the accumulation of time from the latest update; nothing
    /// happens if not suspended.
    pub fn resume(&mut self)
        requires
            old(self).wf(),
        ensures
            final(self).wf(),
            !final(self).spec_suspended(),
            final(self).spec_curr() == old(self).spec_curr(),
            final(self).spec_prev() == old(self).spec_prev(),
            final(self).elapsed_spec() == old(self).elapsed_spec(),
            final(self).latest() == old(self).latest(),
    {
        if self.suspended {
            self.reference_ts = self.curr_ts;
            self.suspended = false;
        }
    }

    /// Suspends the clock if `toggle` holds, resumes it otherwise.
    pub fn toggle(&mut self, toggle: bool)
        requires
            old(self).wf(),
        ensures
            final(self).wf(),
            final(self).spec_suspended() == toggle,
            toggle ==> final(self).elapsed_before() == final(self).elapsed_spec(),
            final(self).spec_curr() == old(self).spec_curr(),
            final(self).spec_prev() == old(self).spec_prev(),
            final(self).elapsed_spec() == old(self).elapsed_spec(),
            final(self).latest() == old(self).latest(),
    {
        if toggle {
            self.suspend();
        } else {
            self.resume();
        }
    }

    /// Feeds in the timestamp of a new frame.
    pub fn update(&mut self, timestamp: u64)
        requires
            old(self).wf(),
            old(self).latest() <= timestamp,
        ensures
            final(self).wf(),
            final(self).spec_suspended() == old(self).spec_suspended(),
            final(self).spec_curr() == Some(timestamp),
            final(self).latest() == timestamp,
            final(self).spec_prev() == old(self).spec_curr(),
            final(self).elapsed_before() == old(self).elapsed_spec(),
            old(self).spec_suspended() ==> final(self).elapsed_spec() == old(self).elapsed_spec(),
            !old(self).spec_suspended() && old(self).spec_curr().is_some() ==> final(self).elapsed_spec()
                == old(self).elapsed_spec() + (timestamp - old(self).latest()),
            old(self).spec_curr().is_none() ==> final(self).elapsed_spec() == 0,
            final(self).elapsed_spec() == old(self).elapsed_after_update(timestamp as int),
    {
        if self.reference_ts.is_none() {
            self.reference_ts = Some(timestamp);
        }
        self.prev_ts = self.curr_ts;
        self.curr_ts = Some(timestamp);
    }
}

/// The index of the multiple of `divisor` reached by `elapsed - bias`,
/// counting from zero.
pub open spec fn multiple_index(elapsed: int, divisor: int, bias: int) -> int {
    if elapsed > bias {
        (elapsed - bias) / divisor
    } else {
        0
    }
}

/// Whether a new multiple of `divisor` was reached between two elapsed times.
pub open spec fn passed_multiple(prev: int, curr: int, divisor: int, bias: int) -> bool {
    divisor > 0 && multiple_index(curr, divisor, bias) > multiple_index(prev, divisor, bias)
}

/// One step of the generator: `seed * 1103515245 + 12345` modulo 2^32.
pub open spec fn lcg_step(seed: u32) -> u32 {
    ((seed as int * 1103515245 + 12345) % 0x1_0000_0000) as u32
}

/// A linear congruential pseudo-random generator.
pub struct LinearCongruentialGenerator {
    seed: u32,
}

impl LinearCongruentialGenerator {
    pub closed spec fn state(&self) -> u32 {
        self.seed
    }

    /// A generator whose state is `seed * 12345` modulo 2^32.
    pub fn new(seed: u32) -> (r: Self)
        ensures
            r.state() == (seed as int * 12345) % 0x1_0000_0000,
    {
        Self { seed: ((seed as u64 * 12345) % 0x1_0000_0000) as u32 }
    }

    /// Advances the state by one step and returns the new state.
    pub fn next(&mut self) -> (r: u32)
        ensures
            r == lcg_step(old(self).state()),
            final(self).state() == r,
    {
        let x = ((self.seed as u64 * 1103515245 + 12345) % 0x1_0000_0000) as u32;
        self.seed = x;
        x
    }
}

/// `v` limited to the range `[min, max]`: `min` below it, `max` above it.
pub fn clamp(v: i64, min: i64, max: i64) -> (r: i64)
    ensures
        v < min ==> r == min,
        min <= v && v > max ==> r == max,
        min <= v <= max ==> r == v,
{
    if v < min {
        min
    } else if v > max {
        max
    } else {
        v
    }
}

/// The pairs of a Fisher-Yates shuffle of the indices `min .. max`: for `i`
/// from `max - min - 1` down to 1, the pair `(min + i, min + j)` with `j`
/// drawn from `0 ..= i`. The `k`-th draw takes `randoms[k]` as a fraction
/// of 2^32, so that `j = randoms[k] * (i + 1) / 2^32`.
pub open spec fn index_pair(min: int, max: int, randoms: Seq<u32>, k: int) -> (usize, usize) {
    let i = max - min - 1 - k;
    ((min + i) as usize, (min + randoms[k] as int * (i + 1) / 0x1_0000_0000) as usize)
}

pub fn random_index_pairs(min: usize, max: usize, randoms: &Vec<u32>) -> (r: Vec<(usize, usize)>)
    requires
        min <= max,
        max - min <= randoms@.len() + 1,
    ensures
        r@.len() == if max - min >= 1 { max - min - 1 } else { 0 },
        forall|k: int| 0 <= k < r@.len() ==> #[trigger] r@[k] == index_pair(min as int, max as int, randoms@, k),
        forall|k: int| 0 <= k < r@.len() ==> min <= (#[trigger] r@[k]).1 <= r@[k].0 < max,
{
    let mut r: Vec<(usize, usize)> = Vec::new();
    if max - min < 2 {
        return r;
    }
    let n = max - min;
    let mut i: usize = n - 1;
    while i >= 1
        invariant
            n == max - min,
            n >= 2,
            n <= randoms@.len() + 1,
            0 <= i <= n - 1,
            r@.len() == n - 1 - i,
            forall|k: int| 0 <= k < r@.len() ==> #[trigger] r@[k] == index_pair(min as int, max as int, randoms@, k),
            forall|k: int| 0 <= k < r@.len() ==> min <= (#[trigger] r@[k]).1 <= r@[k].0 < max,
        decreases i,
    {
        let k = n - 1 - i;
        let rnd = randoms[k] as u128;
        let m = i as u128 + 1;
        assert(rnd * m < 0x1_0000_0000 * m) by (nonlinear_arith)
            requires
                rnd < 0x1_0000_0000,
                m >= 2,
        ;
        assert(rnd * m <= 0x1_0000_0000 * 0x1_0000_0000_0000_0000) by (nonlinear_arith)
            requires
                rnd < 0x1_0000_0000,
                m <= 0x1_0000_0000_0000_0000,
        ;
        let j = (rnd * m / 0x1_0000_0000) as usize;
        proof {
            vstd::arithmetic::div_mod::lemma_multiply_divide_lt(rnd as int * m as int, 0x1_0000_0000, m as int);
        }
        r.push((i + min, j + min));
        if i == 1 {
            return r;
        }
        i = i - 1;
    }
    r
}

/// The decimal digit `d`.
pub open spec fn digit_char(d: int) -> char {
    if d == 0 { '0' } else if d == 1 { '1' } else if d == 2 { '2' } else if d == 3 { '3' } else if d == 4 { '4' }
    else if d == 5 { '5' } else if d == 6 { '6' } else if d == 7 { '7' } else if d == 8 { '8' } else { '9' }
}

/// `n` in decimal, without leading zeros.
pub open spec fn decimal(n: nat) -> Seq<char>
    decreases n,
{
    if n < 10 {
        seq![digit_char(n as int)]
    } else {
        decimal(n / 10).push(digit_char((n % 10) as int))
    }
}

/// `n` (below 100) as two decimal digits.
pub open spec fn two_digits(n: int) -> Seq<char> {
    seq![digit_char(n / 10), digit_char(n % 10)]
}

/// The display of a duration of `ms` milliseconds: `MM:SS.CC` below an
/// hour, `H:MM:SS.CC` from an hour on (minutes, seconds and hundredths).
pub open spec fn timestamp_text(ms: nat) -> Seq<char> {
    let hh = ms / 3_600_000;
    let mm = (ms / 60_000) % 60;
    let ss = (ms / 1000) % 60;
    let cs = (ms / 10) % 100;
    let tail = two_digits(mm as int) + seq![':'] + two_digits(ss as int) + seq!['.'] + two_digits(cs as int);
    if hh == 0 {
        tail
    } else {
        decimal(hh) + seq![':'] + tail
    }
}

fn digit_str(d: u64) -> (r: &'static str)
    requires
        d < 10,
    ensures
        r@ == seq![digit_char(d as int)],
{
    if d == 0 {
        proof {
            reveal_strlit("0");
        }
        "0"
    } else if d == 1 {
        proof {
            reveal_strlit("1");
        }
        "1"
    } else if d == 2 {
        proof {
            reveal_strlit("2");
        }
        "2"
    } else if d == 3 {
        proof {
            reveal_strlit("3");
        }
        "3"
    } else if d == 4 {
        proof {
            reveal_strlit("4");
        }
        "4"
    } else if d == 5 {
        proof {
            reveal_strlit("5");
        }
        "5"
    } else if d == 6 {
        proof {
            reveal_strlit("6");
        }
        "6"
    } else if d == 7 {
        proof {
            reveal_strlit("7");
        }
        "7"
    } else if d == 8 {
        proof {
            reveal_strlit("8");
        }
        "8"
    } else {
        proof {
            reveal_strlit("9");
        }
        "9"
    }
}

fn push_decimal(s: &mut String, n: u64)
    ensures
        final(s)@ == old(s)@ + decimal(n as nat),
    decreases n,
{
    if n >= 10 {
        push_decimal(s, n / 10);
    }
    s.append(digit_str(n % 10));
    proof {
        if n < 10 {
            assert(old(s)@ + decimal(n as nat) =~= old(s)@ + seq![digit_char(n as int)]);
        } else {
            assert(decimal(n as nat) == decimal((n / 10) as nat).push(digit_char((n % 10) as int)));
        }
    }
}

fn push_two_digits(s: &mut String, n: u64)
    requires
        n < 100,
    ensures
        final(s)@ == old(s)@ + two_digits(n as int),
{
    s.append(digit_str(n / 10));
    s.append(digit_str(n % 10));
    assert(final(s)@ =~= old(s)@ + two_digits(n as int)) by {
        assert(two_digits(n as int) =~= seq![digit_char((n / 10) as int)] + seq![digit_char((n % 10) as int)]);
    }
}

/// The display of a duration of `timestamp` milliseconds, as
/// `timestamp_text` gives it.
pub fn format_timestamp(timestamp: u64) -> (r: String)
    ensures
        r@ == timestamp_text(timestamp as nat),
{
    let hh = timestamp / 3_600_000;
    let mm = (timestamp / 60_000) % 60;
    let ss = (timestamp / 1000) % 60;
    let cs = (timestamp / 10) % 100;
    let mut s = String::new();
    if hh != 0 {
        push_decimal(&mut s, hh);
        proof {
            reveal_strlit(":");
        }
        s.append(":");
    }
    proof {
        reveal_strlit(":");
        reveal_strlit(".");
    }
    push_two_digits(&mut s, mm);
    s.append(":");
    push_two_digits(&mut s, ss);
    s.append(".");
    push_two_digits(&mut s, cs);
    assert(s@ =~= timestamp_text(timestamp as nat));
    s
}

/// The markup of the statistics panel: the time, then the score, the
/// number of cleared lines and the level in decimal, each in a row of its
/// own with its name.
pub open spec fn stats_markup(elapsed: nat, score: nat, lines: nat, level: nat) -> Seq<char> {
    "<div><span class = \"name\">TIME</span><span class = \"value\">"@ + timestamp_text(elapsed)
        + "</span></div><div><span class = \"name\">SCORE</span><span class = \"value\">"@ + decimal(score)
        + "</span></div><div><span class = \"name\">LINES</span><span class = \"value\">"@ + decimal(lines)
        + "</span></div><div><span class = \"name\">LEVEL</span><span class = \"value\">"@ + decimal(level)
        + "</span></div>"@
}

/// The statistics panel: see `stats_markup`.
pub fn stats_html(elapsed: u64, score: u32, lines: u32, level: u32) -> (r: String)
    ensures
        r@ == stats_markup(elapsed as nat, score as nat, lines as nat, level as nat),
{
    let mut s = String::new();
    s.append("<div><span class = \"name\">TIME</span><span class = \"value\">");
    let t = format_timestamp(elapsed);
    s.append(t.as_str());
    s.append("</span></div><div><span class = \"name\">SCORE</span><span class = \"value\">");
    push_decimal(&mut s, score as u64);
    s.append("</span></div><div><span class = \"name\">LINES</span><span class = \"value\">");
    push_decimal(&mut s, lines as u64);
    s.append("</span></div><div><span class = \"name\">LEVEL</span><span class = \"value\">");
    push_decimal(&mut s, level as u64);
    s.append("</span></div>");
    assert(s@ =~= stats_markup(elapsed as nat, score as nat, lines as nat, level as nat));
    s
}

} // verus!
