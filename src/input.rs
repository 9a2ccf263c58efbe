use vstd::prelude::*;
use crate::util::Position;

verus! {

/// A logical button: (device id, code).
pub type InputId = (usize, usize);

/// The value stored for `key` in a list of entries: the last entry with that
/// key wins.
pub open spec fn find_last<K, V>(s: Seq<(K, V)>, key: K) -> Option<V>
    decreases s.len(),
{
    if s.len() == 0 {
        None
    } else if s.last().0 == key {
        Some(s.last().1)
    } else {
        find_last(s.drop_last(), key)
    }
}

/// Whether a button held since `press` fires on a frame that runs from
/// `t_prev` to `t_curr`: on the frame where it went down, then once the
/// initial delay `d` has passed, then each time another repeat delay `r`
/// has passed (never again if `r` is zero).
pub open spec fn repeat_fires(press: int, was_down: bool, t_prev: int, t_curr: int, d: int, r: int) -> bool {
    !was_down || (t_curr - press - d >= 0 && (t_prev - press - d < 0 || (r > 0 && (t_curr - press - d) / r
        > (t_prev - press - d) / r)))
}

/// Typematic repeat of a button pressed at `t0`, with initial delay `d` and
/// repeat delay `r`: it fires on the frame where it goes down; while held,
/// it does not fire on a frame ending before `t0 + d`; it fires on the frame
/// in which `t0 + d` is reached; and it fires on each frame in which a
/// further `t0 + d + k * r` (k >= 1) is reached.
pub proof fn lemma_repeat_timing(t0: int, d: int, r: int, k: int, t_prev: int, t_curr: int)
    requires
        d >= 0,
        r >= 0,
    ensures
        repeat_fires(t0, false, t_prev, t_curr, d, r),
        t_curr < t0 + d ==> !repeat_fires(t0, true, t_prev, t_curr, d, r),
        t_prev < t0 + d <= t_curr ==> repeat_fires(t0, true, t_prev, t_curr, d, r),
        r > 0 && k >= 1 && t0 + d <= t_prev < t0 + d + k * r <= t_curr ==> repeat_fires(t0, true, t_prev, t_curr, d, r),
{
    if r > 0 && k >= 1 && t0 + d <= t_prev < t0 + d + k * r <= t_curr {
        let a = t_curr - t0 - d;
        let b = t_prev - t0 - d;
        vstd::arithmetic::div_mod::lemma_div_is_ordered(k * r, a, r);
        vstd::arithmetic::div_mod::lemma_div_multiples_vanish(k, r);
        assert(r * k == k * r) by (nonlinear_arith);
        vstd::arithmetic::div_mod::lemma_fundamental_div_mod(b, r);
        let q = b / r;
        if q >= k {
            assert(r * q >= r * k) by (nonlinear_arith)
                requires
                    q >= k,
                    r > 0,
            ;
            assert(b % r >= 0) by {
                vstd::arithmetic::div_mod::lemma_mod_pos_bound(b, r);
            }
        }
        assert(a / r > b / r);
    }
}

/// Whether button `id` fires on the current frame, for initial delay `d`
/// and repeat delay `r`: see `repeat_fires`.
pub open spec fn repeat_due(b: ButtonInput, id: InputId, d: u64, r: u64) -> bool {
    match b.pressed_at(id) {
        Some(p) => repeat_fires(p as int, b.was_down(id), b.before() as int, b.now() as int, d as int, r as int),
        None => false,
    }
}

/// Button state: for each pressed button, the timestamp of its press, now and
/// at the previous frame.
pub struct ButtonInput {
    timestamp_curr: u64,
    timestamp_prev: u64,
    state_curr: Vec<(InputId, u64)>,
    state_prev: Vec<(InputId, u64)>,
}

fn find_button(s: &Vec<(InputId, u64)>, id: InputId) -> (r: Option<u64>)
    ensures
        r == find_last(s@, id),
{
    let mut i: usize = s.len();
    assert(s@.take(i as int) =~= s@);
    while i > 0
        invariant
            i <= s@.len(),
            find_last(s@, id) == find_last(s@.take(i as int), id),
        decreases i,
    {
        assert(s@.take(i as int).drop_last() =~= s@.take(i - 1));
        let (k, t) = s[i - 1];
        if k.0 == id.0 && k.1 == id.1 {
            return Some(t);
        }
        i = i - 1;
    }
    assert(s@.take(0) =~= Seq::<(InputId, u64)>::empty());
    None
}

fn copy_buttons(s: &Vec<(InputId, u64)>) -> (r: Vec<(InputId, u64)>)
    ensures
        r@ == s@,
{
    let mut r: Vec<(InputId, u64)> = Vec::new();
    let mut i: usize = 0;
    while i < s.len()
        invariant
            i <= s@.len(),
            r@ == s@.take(i as int),
        decreases s@.len() - i,
    {
        r.push(s[i]);
        i = i + 1;
        assert(r@ =~= s@.take(i as int));
    }
    assert(s@.take(s@.len() as int) =~= s@);
    r
}

impl ButtonInput {
    /// The press timestamp of `id` if it is down now.
    pub closed spec fn pressed_at(&self, id: InputId) -> Option<u64> {
        find_last(self.state_curr@, id)
    }

    /// Whether `id` was down at the previous frame.
    pub closed spec fn was_down(&self, id: InputId) -> bool {
        find_last(self.state_prev@, id).is_some()
    }

    pub closed spec fn now(&self) -> u64 {
        self.timestamp_curr
    }

    pub closed spec fn before(&self) -> u64 {
        self.timestamp_prev
    }

    pub fn new() -> (b: Self)
        ensures
            b.now() == 0,
            b.before() == 0,
            forall|id: InputId| #[trigger] b.pressed_at(id).is_none() && !b.was_down(id),
    {
        Self { timestamp_curr: 0, timestamp_prev: 0, state_curr: Vec::new(), state_prev: Vec::new() }
    }

    /// Starts a new frame at `timestamp`: what is down now becomes what was
    /// down at the previous frame.
    pub fn update(&mut self, timestamp: u64)
        ensures
            final(self).now() == timestamp,
            final(self).before() == old(self).now(),
            forall|id: InputId| #[trigger] final(self).pressed_at(id) == old(self).pressed_at(id),
            forall|id: InputId| #[trigger] final(self).was_down(id) == old(self).pressed_at(id).is_some(),
    {
        self.timestamp_prev = self.timestamp_curr;
        self.timestamp_curr = timestamp;
        self.state_prev = copy_buttons(&self.state_curr);
    }

    /// Records that `id` went down at the current frame's timestamp, unless it
    /// is down already.
    pub fn button_press(&mut self, input_id: InputId)
        ensures
            final(self).now() == old(self).now(),
            final(self).before() == old(self).before(),
            final(self).pressed_at(input_id) == if old(self).pressed_at(input_id).is_some() {
                old(self).pressed_at(input_id)
            } else {
                Some(old(self).now())
            },
            forall|id: InputId| id != input_id ==> #[trigger] final(self).pressed_at(id) == old(self).pressed_at(id),
            forall|id: InputId| #[trigger] final(self).was_down(id) == old(self).was_down(id),
    {
        if find_button(&self.state_curr, input_id).is_none() {
            let ghost s = self.state_curr@;
            self.state_curr.push((input_id, self.timestamp_curr));
            assert(self.state_curr@.drop_last() =~= s);
        }
    }

    /// Records that `id` went up.
    pub fn button_release(&mut self, input_id: InputId)
        ensures
            final(self).now() == old(self).now(),
            final(self).before() == old(self).before(),
            final(self).pressed_at(input_id).is_none(),
            forall|id: InputId| id != input_id ==> #[trigger] final(self).pressed_at(id) == old(self).pressed_at(id),
            forall|id: InputId| #[trigger] final(self).was_down(id) == old(self).was_down(id),
    {
        let mut r: Vec<(InputId, u64)> = Vec::new();
        let mut i: usize = 0;
        while i < self.state_curr.len()
            invariant
                i <= self.state_curr@.len(),
                self.state_curr == old(self).state_curr,
                find_last(r@, input_id).is_none(),
                forall|id: InputId| id != input_id ==> #[trigger] find_last(r@, id) == find_last(self.state_curr@.take(i as int), id),
            decreases self.state_curr@.len() - i,
        {
            let e = self.state_curr[i];
            let ghost before = r@;
            assert(self.state_curr@.take(i + 1).drop_last() =~= self.state_curr@.take(i as int));
            if !(e.0.0 == input_id.0 && e.0.1 == input_id.1) {
                r.push(e);
                assert(r@.drop_last() =~= before);
            }
            assert forall|id: InputId| id != input_id implies #[trigger] find_last(r@, id) == find_last(self.state_curr@.take(i + 1), id) by {
                let t = self.state_curr@.take(i + 1);
                assert(t.last() == e);
                assert(t.drop_last() =~= self.state_curr@.take(i as int));
                if e.0 == id {
                    assert(!(e.0.0 == input_id.0 && e.0.1 == input_id.1));
                    assert(r@.last() == e);
                } else {
                    assert(find_last(t, id) == find_last(t.drop_last(), id));
                    if !(e.0.0 == input_id.0 && e.0.1 == input_id.1) {
                        assert(find_last(r@, id) == find_last(r@.drop_last(), id));
                    }
                }
            }
            i = i + 1;
        }
        assert(self.state_curr@.take(self.state_curr@.len() as int) =~= self.state_curr@);
        self.state_curr = r;
    }

    pub fn get_button_press_timestamp(&self, input_id: InputId) -> (r: Option<u64>)
        ensures
            r == self.pressed_at(input_id),
    {
        find_button(&self.state_curr, input_id)
    }

    pub fn is_pressed(&self, input_id: InputId) -> (r: bool)
        ensures
            r == self.pressed_at(input_id).is_some(),
    {
        find_button(&self.state_curr, input_id).is_some()
    }

    /// Down now and up at the previous frame.
    pub fn is_triggered(&self, input_id: InputId) -> (r: bool)
        ensures
            r == (self.pressed_at(input_id).is_some() && !self.was_down(input_id)),
    {
        find_button(&self.state_curr, input_id).is_some() && find_button(&self.state_prev, input_id).is_none()
    }

    /// Down now, and either triggered at this frame or due to repeat: see
    /// `repeat_fires`.
    pub fn is_triggered_or_repeat(&self, input_id: InputId, initial_delay: u64, repeat_delay: u64) -> (r: bool)
        ensures
            r == repeat_due(*self, input_id, initial_delay, repeat_delay),
            r == match self.pressed_at(input_id) {
                Some(p) => repeat_fires(p as int, self.was_down(input_id), self.before() as int, self.now() as int, initial_delay as int, repeat_delay as int),
                None => false,
            },
    {
        match find_button(&self.state_curr, input_id) {
            None => false,
            Some(p) => {
                if find_button(&self.state_prev, input_id).is_none() {
                    return true;
                }
                let tc = self.timestamp_curr;
                let tp = self.timestamp_prev;
                let curr_reached = tc >= p && tc - p >= initial_delay;
                if !curr_reached {
                    return false;
                }
                let prev_reached = tp >= p && tp - p >= initial_delay;
                if !prev_reached {
                    return true;
                }
                if repeat_delay == 0 {
                    return false;
                }
                (tc - p - initial_delay) / repeat_delay > (tp - p - initial_delay) / repeat_delay
            },
        }
    }
}

/// A touch sample: where and when.
#[derive(Clone, Copy, Debug, PartialEq, Eq, Structural)]
pub struct Touch {
    pub position: Position,
    pub timestamp: u64,
}

impl Touch {
    pub fn new(position: Position, timestamp: u64) -> (t: Self)
        ensures
            t.position == position,
            t.timestamp == timestamp,
    {
        Self { position, timestamp }
    }
}

/// A touch id with its first and latest samples.
pub type TouchEntry = (i32, (Touch, Touch));

/// A touch id with its first sample, its sample at the previous frame and
/// its latest sample.
pub type Motion = (i32, Touch, Touch, Touch);

/// No two entries share a touch id.
pub open spec fn unique_ids(s: Seq<TouchEntry>) -> bool {
    forall|i: int, j: int| 0 <= i < j < s.len() ==> (#[trigger] s[i]).0 != (#[trigger] s[j]).0
}

pub open spec fn dx_of(start: Touch, end: Touch) -> int {
    end.position.x - start.position.x
}

pub open spec fn dy_of(start: Touch, end: Touch) -> int {
    end.position.y - start.position.y
}

pub open spec fn abs(v: int) -> int {
    if v < 0 { -v } else { v }
}

/// The square of the distance between two samples.
pub open spec fn distance_sq(start: Touch, end: Touch) -> int {
    dx_of(start, end) * dx_of(start, end) + dy_of(start, end) * dy_of(start, end)
}

/// The kinds of finished touch that can be asked for.
#[derive(Clone, Copy, Debug, PartialEq, Eq, Structural)]
pub enum Gesture {
    /// Moved farther than the given distance.
    Swipe,
    /// A swipe leftwards: the horizontal move is more than twice the
    /// vertical one, and the vertical one is less than half the distance.
    SwipeLeft,
    SwipeRight,
    SwipeUp,
    SwipeDown,
    /// Moved less than the given distance, in less than the given period.
    Tap,
}

/// Whether a finished touch is a gesture of kind `g`, for the distance
/// threshold `distance` and the period threshold `period` (taps only).
pub open spec fn is_gesture(g: Gesture, distance: u32, period: u64, e: TouchEntry) -> bool {
    let (s, t) = e.1;
    let dx = dx_of(s, t);
    let dy = dy_of(s, t);
    let half = distance as int / 2;
    let swipe = distance_sq(s, t) > distance as int * distance as int;
    match g {
        Gesture::Swipe => swipe,
        Gesture::SwipeLeft => swipe && dx < 0 && abs(dx) > 2 * abs(dy) && abs(dy) < half,
        Gesture::SwipeRight => swipe && dx > 0 && abs(dx) > 2 * abs(dy) && abs(dy) < half,
        Gesture::SwipeUp => swipe && dy < 0 && abs(dy) > 2 * abs(dx) && abs(dx) < half,
        Gesture::SwipeDown => swipe && dy > 0 && abs(dy) > 2 * abs(dx) && abs(dx) < half,
        Gesture::Tap => distance_sq(s, t) < distance as int * distance as int && t.timestamp - s.timestamp
            < period,
    }
}

/// The motion of an active touch since the previous frame, if it was active
/// then too.
pub open spec fn motion_of(prev: Seq<TouchEntry>, e: TouchEntry) -> Option<Motion> {
    match find_last(prev, e.0) {
        Some(p) => Some((e.0, e.1.0, p.1, e.1.1)),
        None => None,
    }
}

fn gesture_test(g: Gesture, distance: u32, period: u64, e: TouchEntry) -> (r: bool)
    ensures
        r == is_gesture(g, distance, period, e),
{
    let (s, t) = e.1;
    let dx: i128 = t.position.x as i128 - s.position.x as i128;
    let dy: i128 = t.position.y as i128 - s.position.y as i128;
    assert(0 <= dx * dx <= 0x1_0000_0000_0000_0000 && 0 <= dy * dy <= 0x1_0000_0000_0000_0000) by (nonlinear_arith)
        requires
            -0x1_0000_0000 <= dx <= 0x1_0000_0000,
            -0x1_0000_0000 <= dy <= 0x1_0000_0000,
    ;
    let d: i128 = distance as i128;
    assert(0 <= d * d <= 0x1_0000_0000_0000_0000) by (nonlinear_arith)
        requires
            0 <= d <= 0x1_0000_0000,
    ;
    let dsq = dx * dx + dy * dy;
    let swipe = dsq > d * d;
    let adx = if dx < 0 { -dx } else { dx };
    let ady = if dy < 0 { -dy } else { dy };
    let half = d / 2;
    match g {
        Gesture::Swipe => swipe,
        Gesture::SwipeLeft => swipe && dx < 0 && adx > 2 * ady && ady < half,
        Gesture::SwipeRight => swipe && dx > 0 && adx > 2 * ady && ady < half,
        Gesture::SwipeUp => swipe && dy < 0 && ady > 2 * adx && adx < half,
        Gesture::SwipeDown => swipe && dy > 0 && ady > 2 * adx && adx < half,
        Gesture::Tap => dsq < d * d && (t.timestamp as i128 - s.timestamp as i128) < period as i128,
    }
}

fn find_touch(s: &Vec<TouchEntry>, id: i32) -> (r: Option<(Touch, Touch)>)
    ensures
        r == find_last(s@, id),
{
    let mut i: usize = s.len();
    assert(s@.take(i as int) =~= s@);
    while i > 0
        invariant
            i <= s@.len(),
            find_last(s@, id) == find_last(s@.take(i as int), id),
        decreases i,
    {
        assert(s@.take(i as int).drop_last() =~= s@.take(i - 1));
        let e = s[i - 1];
        if e.0 == id {
            return Some(e.1);
        }
        i = i - 1;
    }
    assert(s@.take(0) =~= Seq::<TouchEntry>::empty());
    None
}

/// `s` without the entry of `id`, and that entry.
fn take_touch(s: &Vec<TouchEntry>, id: i32) -> (r: (Vec<TouchEntry>, Option<(Touch, Touch)>))
    requires
        unique_ids(s@),
    ensures
        unique_ids(r.0@),
        r.1 == find_last(s@, id),
        find_last(r.0@, id).is_none(),
        forall|k: i32| k != id ==> #[trigger] find_last(r.0@, k) == find_last(s@, k),
{
    let mut r: Vec<TouchEntry> = Vec::new();
    let mut i: usize = 0;
    while i < s.len()
        invariant
            unique_ids(s@),
            i <= s@.len(),
            unique_ids(r@),
            find_last(r@, id).is_none(),
            forall|k: i32| k != id ==> #[trigger] find_last(r@, k) == find_last(s@.take(i as int), k),
            forall|a: int| 0 <= a < r@.len() ==> exists|b: int| 0 <= b < i && (#[trigger] r@[a]).0 == s@[b].0,
        decreases s@.len() - i,
    {
        let e = s[i];
        let ghost before = r@;
        let ghost t = s@.take(i + 1);
        assert(t.drop_last() =~= s@.take(i as int));
        assert(t.last() == e);
        if e.0 != id {
            r.push(e);
            assert(r@.drop_last() =~= before);
            assert forall|a: int, c: int| 0 <= a < c < r@.len() implies (#[trigger] r@[a]).0 != (#[trigger] r@[c]).0 by {
                if c == r@.len() - 1 {
                    let b = choose|b: int| 0 <= b < i && before[a].0 == s@[b].0;
                    assert(s@[b].0 != s@[i as int].0);
                } else {
                    assert(r@[a] == before[a] && r@[c] == before[c]);
                }
            }
            assert forall|a: int| 0 <= a < r@.len() implies exists|b: int| 0 <= b < i + 1 && (#[trigger] r@[a]).0 == s@[b].0 by {
                if a == r@.len() - 1 {
                    assert(r@[a].0 == s@[i as int].0);
                } else {
                    assert(r@[a] == before[a]);
                    let b = choose|b: int| 0 <= b < i && before[a].0 == s@[b].0;
                    assert(r@[a].0 == s@[b].0);
                }
            }
        } else {
            assert forall|a: int| 0 <= a < r@.len() implies exists|b: int| 0 <= b < i + 1 && (#[trigger] r@[a]).0 == s@[b].0 by {
                let b = choose|b: int| 0 <= b < i && r@[a].0 == s@[b].0;
                assert(r@[a].0 == s@[b].0);
            }
        }
        assert forall|k: i32| k != id implies #[trigger] find_last(r@, k) == find_last(t, k) by {
            if e.0 == k {
                assert(r@.last() == e);
            } else {
                assert(find_last(t, k) == find_last(t.drop_last(), k));
                if e.0 != id {
                    assert(find_last(r@, k) == find_last(r@.drop_last(), k));
                }
            }
        }
        i = i + 1;
    }
    assert(s@.take(s@.len() as int) =~= s@);
    let found = find_touch(s, id);
    (r, found)
}

/// `s` with `id` set to `v`.
fn put_touch(s: &Vec<TouchEntry>, id: i32, v: (Touch, Touch)) -> (r: Vec<TouchEntry>)
    requires
        unique_ids(s@),
    ensures
        unique_ids(r@),
        find_last(r@, id) == Some(v),
        forall|k: i32| k != id ==> #[trigger] find_last(r@, k) == find_last(s@, k),
{
    let (mut r, _) = take_touch(s, id);
    let ghost before = r@;
    r.push((id, v));
    assert(r@.drop_last() =~= before);
    assert forall|a: int, c: int| 0 <= a < c < r@.len() implies (#[trigger] r@[a]).0 != (#[trigger] r@[c]).0 by {
        if c == r@.len() - 1 {
            if before[a].0 == id {
                lemma_find_last_some(before, a);
            }
        } else {
            assert(r@[a] == before[a] && r@[c] == before[c]);
        }
    }
    assert forall|k: i32| k != id implies #[trigger] find_last(r@, k) == find_last(s@, k) by {
        assert(find_last(r@, k) == find_last(r@.drop_last(), k));
    }
    r
}

/// An entry with the key of position `i` makes `find_last` find something.
proof fn lemma_find_last_some(s: Seq<TouchEntry>, i: int)
    requires
        0 <= i < s.len(),
    ensures
        find_last(s, s[i].0).is_some(),
    decreases s.len(),
{
    if s.last().0 != s[i].0 {
        assert(i < s.len() - 1);
        assert(s.drop_last()[i] == s[i]);
        lemma_find_last_some(s.drop_last(), i);
    }
}

/// Touch state: the touches active now and at the previous frame, each with
/// its first and latest samples, and the touches that ended during the
/// current frame.
pub struct TouchInput {
    timestamp: u64,
    finished: Vec<TouchEntry>,
    active_curr: Vec<TouchEntry>,
    active_prev: Vec<TouchEntry>,
}

impl TouchInput {
    pub closed spec fn wf(&self) -> bool {
        unique_ids(self.finished@) && unique_ids(self.active_curr@) && unique_ids(self.active_prev@)
    }

    pub closed spec fn now(&self) -> u64 {
        self.timestamp
    }

    /// The touches that ended during the current frame.
    pub closed spec fn finished(&self) -> Seq<TouchEntry> {
        self.finished@
    }

    /// The active touches.
    pub closed spec fn active(&self) -> Seq<TouchEntry> {
        self.active_curr@
    }

    /// The touches that were active at the previous frame.
    pub closed spec fn active_before(&self) -> Seq<TouchEntry> {
        self.active_prev@
    }

    pub fn new() -> (t: Self)
        ensures
            t.wf(),
            t.now() == 0,
            t.finished().len() == 0,
            t.active().len() == 0,
            t.active_before().len() == 0,
    {
        Self { timestamp: 0, finished: Vec::new(), active_curr: Vec::new(), active_prev: Vec::new() }
    }

    /// Starts a new frame at `timestamp`: the finished touches are
    /// forgotten, and the active touches become those of the previous frame.
    pub fn update(&mut self, timestamp: u64)
        requires
            old(self).wf(),
        ensures
            final(self).wf(),
            final(self).now() == timestamp,
            final(self).finished().len() == 0,
            final(self).active() == old(self).active(),
            final(self).active_before() == old(self).active(),
    {
        self.timestamp = timestamp;
        self.finished = Vec::new();
        let mut prev: Vec<TouchEntry> = Vec::new();
        let mut i: usize = 0;
        while i < self.active_curr.len()
            invariant
                i <= self.active_curr@.len(),
                prev@ == self.active_curr@.take(i as int),
            decreases self.active_curr@.len() - i,
        {
            prev.push(self.active_curr[i]);
            i = i + 1;
            assert(prev@ =~= self.active_curr@.take(i as int));
        }
        assert(self.active_curr@.take(self.active_curr@.len() as int) =~= self.active_curr@);
        self.active_prev = prev;
    }

    /// A touch begins at (x, y).
    pub fn touch_start(&mut self, touch_id: i32, x: i32, y: i32)
        requires
            old(self).wf(),
        ensures
            final(self).wf(),
            final(self).now() == old(self).now(),
            final(self).finished() == old(self).finished(),
            final(self).active_before() == old(self).active_before(),
            find_last(final(self).active(), touch_id) == Some((
                Touch { position: Position { x, y }, timestamp: old(self).now() },
                Touch { position: Position { x, y }, timestamp: old(self).now() },
            )),
            forall|k: i32| k != touch_id ==> #[trigger] find_last(final(self).active(), k) == find_last(old(self).active(), k),
    {
        let touch = Touch::new(Position::new(x, y), self.timestamp);
        self.active_curr = put_touch(&self.active_curr, touch_id, (touch, touch));
    }

    /// A touch ends at (x, y): if it was active, it moves to the finished
    /// touches with (x, y) as its latest sample.
    pub fn touch_end(&mut self, touch_id: i32, x: i32, y: i32)
        requires
            old(self).wf(),
        ensures
            final(self).wf(),
            final(self).now() == old(self).now(),
            final(self).active_before() == old(self).active_before(),
            find_last(final(self).active(), touch_id).is_none(),
            forall|k: i32| k != touch_id ==> #[trigger] find_last(final(self).active(), k) == find_last(old(self).active(), k),
            find_last(final(self).finished(), touch_id) == match find_last(old(self).active(), touch_id) {
                Some(e) => Some((e.0, Touch { position: Position { x, y }, timestamp: old(self).now() })),
                None => find_last(old(self).finished(), touch_id),
            },
            forall|k: i32| k != touch_id ==> #[trigger] find_last(final(self).finished(), k) == find_last(old(self).finished(), k),
    {
        let (rest, found) = take_touch(&self.active_curr, touch_id);
        self.active_curr = rest;
        if let Some((start, _)) = found {
            let end = Touch::new(Position::new(x, y), self.timestamp);
            self.finished = put_touch(&self.finished, touch_id, (start, end));
        }
    }

    /// A touch is abandoned: it is no longer active and does not count as
    /// finished.
    pub fn touch_cancel(&mut self, touch_id: i32, x: i32, y: i32)
        requires
            old(self).wf(),
        ensures
            final(self).wf(),
            final(self).now() == old(self).now(),
            final(self).finished() == old(self).finished(),
            final(self).active_before() == old(self).active_before(),
            find_last(final(self).active(), touch_id).is_none(),
            forall|k: i32| k != touch_id ==> #[trigger] find_last(final(self).active(), k) == find_last(old(self).active(), k),
    {
        let (rest, _) = take_touch(&self.active_curr, touch_id);
        self.active_curr = rest;
    }

    /// An active touch moves to (x, y).
    pub fn touch_move(&mut self, touch_id: i32, x: i32, y: i32)
        requires
            old(self).wf(),
        ensures
            final(self).wf(),
            final(self).now() == old(self).now(),
            final(self).finished() == old(self).finished(),
            final(self).active_before() == old(self).active_before(),
            find_last(final(self).active(), touch_id) == match find_last(old(self).active(), touch_id) {
                Some(e) => Some((e.0, Touch { position: Position { x, y }, timestamp: old(self).now() })),
                None => None,
            },
            forall|k: i32| k != touch_id ==> #[trigger] find_last(final(self).active(), k) == find_last(old(self).active(), k),
    {
        if let Some((start, _)) = find_touch(&self.active_curr, touch_id) {
            let end = Touch::new(Position::new(x, y), self.timestamp);
            self.active_curr = put_touch(&self.active_curr, touch_id, (start, end));
        }
    }

    /// The finished touches that are gestures of kind `g`, in order.
    pub fn gestures(&self, g: Gesture, distance: u32, period: u64) -> (r: Vec<TouchEntry>)
        ensures
            r@ == self.finished().filter(|e: TouchEntry| is_gesture(g, distance, period, e)),
    {
        let ghost pred = |e: TouchEntry| is_gesture(g, distance, period, e);
        let mut r: Vec<TouchEntry> = Vec::new();
        let mut i: usize = 0;
        while i < self.finished.len()
            invariant
                i <= self.finished@.len(),
                pred == (|e: TouchEntry| is_gesture(g, distance, period, e)),
                r@ == self.finished@.take(i as int).filter(pred),
            decreases self.finished@.len() - i,
        {
            let e = self.finished[i];
            let ghost t = self.finished@.take(i + 1);
            assert(t.drop_last() =~= self.finished@.take(i as int));
            reveal(Seq::filter);
            if gesture_test(g, distance, period, e) {
                r.push(e);
            }
            i = i + 1;
        }
        assert(self.finished@.take(self.finished@.len() as int) =~= self.finished@);
        r
    }

    /// The finished touches that moved farther than `min_distance`.
    pub fn swipes(&self, min_distance: u32) -> (r: Vec<TouchEntry>)
        ensures
            r@ == self.finished().filter(|e: TouchEntry| is_gesture(Gesture::Swipe, min_distance, 0, e)),
    {
        self.gestures(Gesture::Swipe, min_distance, 0)
    }

    pub fn swipes_left(&self, min_distance: u32) -> (r: Vec<TouchEntry>)
        ensures
            r@ == self.finished().filter(|e: TouchEntry| is_gesture(Gesture::SwipeLeft, min_distance, 0, e)),
    {
        self.gestures(Gesture::SwipeLeft, min_distance, 0)
    }

    pub fn swipes_right(&self, min_distance: u32) -> (r: Vec<TouchEntry>)
        ensures
            r@ == self.finished().filter(|e: TouchEntry| is_gesture(Gesture::SwipeRight, min_distance, 0, e)),
    {
        self.gestures(Gesture::SwipeRight, min_distance, 0)
    }

    pub fn swipes_up(&self, min_distance: u32) -> (r: Vec<TouchEntry>)
        ensures
            r@ == self.finished().filter(|e: TouchEntry| is_gesture(Gesture::SwipeUp, min_distance, 0, e)),
    {
        self.gestures(Gesture::SwipeUp, min_distance, 0)
    }

    pub fn swipes_down(&self, min_distance: u32) -> (r: Vec<TouchEntry>)
        ensures
            r@ == self.finished().filter(|e: TouchEntry| is_gesture(Gesture::SwipeDown, min_distance, 0, e)),
    {
        self.gestures(Gesture::SwipeDown, min_distance, 0)
    }

    /// The finished touches that moved less than `max_distance` in less than
    /// `max_period`.
    pub fn taps(&self, max_distance: u32, max_period: u64) -> (r: Vec<TouchEntry>)
        ensures
            r@ == self.finished().filter(|e: TouchEntry| is_gesture(Gesture::Tap, max_distance, max_period, e)),
    {
        self.gestures(Gesture::Tap, max_distance, max_period)
    }

    /// For each active touch that was active at the previous frame too: its
    /// first sample, its sample then and its latest sample.
    pub fn motions(&self) -> (r: Vec<Motion>)
        ensures
            r@ == self.active().filter_map(|e: TouchEntry| motion_of(self.active_before(), e)),
    {
        let ghost f = |e: TouchEntry| motion_of(self.active_prev@, e);
        let mut r: Vec<Motion> = Vec::new();
        let mut i: usize = 0;
        while i < self.active_curr.len()
            invariant
                i <= self.active_curr@.len(),
                f == (|e: TouchEntry| motion_of(self.active_prev@, e)),
                r@ == self.active_curr@.take(i as int).filter_map(f),
            decreases self.active_curr@.len() - i,
        {
            let e = self.active_curr[i];
            let ghost t = self.active_curr@.take(i + 1);
            assert(t.drop_last() =~= self.active_curr@.take(i as int));
            assert(t.last() == e);
            if let Some((_, end_prev)) = find_touch(&self.active_prev, e.0) {
                r.push((e.0, e.1.0, end_prev, e.1.1));
            }
            i = i + 1;
        }
        assert(self.active_curr@.take(self.active_curr@.len() as int) =~= self.active_curr@);
        r
    }
}

} // verus!
