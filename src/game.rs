use vstd::prelude::*;
use crate::board::{Board, cleared_layout, full_rows};
use crate::gfx::{Animation, AnimationQueue, Block, Scheduled, alive, queue_frame, faded, point_blocks, GameOverAnimation, LineClearAnimation, TitleAnimation, WhooshAnimation};
use crate::input::{ButtonInput, Gesture, InputId, Motion, Touch, TouchEntry, TouchInput, find_last, is_gesture, motion_of, repeat_due};
use crate::piece::{Bag, Piece, catalog_piece, make_standard, lemma_catalog_piece, standard_stride, standard_block};
use crate::util::{Clock, Position, passed_multiple};

verus! {

/// The size of a block on a touch screen, in pixels.
pub const BLOCK_SIZE_PX: i32 = 50;

pub const INPUT_GAME_START: InputId = (0, 32);
pub const INPUT_GAME_STOP: InputId = (0, 27);
pub const INPUT_HARD_DROP: InputId = (0, 87);
pub const INPUT_SOFT_DROP: InputId = (0, 83);
pub const INPUT_MOVE_LEFT: InputId = (0, 65);
pub const INPUT_MOVE_RIGHT: InputId = (0, 68);
pub const INPUT_ROTATE_CW: InputId = (0, 39);
pub const INPUT_ROTATE_CCW: InputId = (0, 37);

/// Four frames at 60 frames per second, in milliseconds.
pub const INITIAL_DELAY_SOFT_DROP: u64 = 67;
pub const REPEAT_DELAY_SOFT_DROP: u64 = 67;
/// Twelve frames at 60 frames per second, in milliseconds.
pub const INITIAL_DELAY_MOVE: u64 = 200;
pub const REPEAT_DELAY_MOVE: u64 = 67;

pub const TOUCH_SWIPE_DISTANCE_THRESHOLD: u32 = 100;
pub const TOUCH_TAP_DISTANCE_THRESHOLD: u32 = 25;
pub const TOUCH_TAP_PERIOD_THRESHOLD: u64 = 500;

pub const ANIMATION_DURATION_HARD_DROP: u64 = 200;
pub const ANIMATION_DURATION_LINE_CLEAR: u64 = 1000;
pub const ANIMATION_DURATION_GAME_OVER: u64 = 3000;

pub const MAX_LEVEL: u32 = 20;

/// The largest timestamp the game accepts: the largest integer number of
/// milliseconds a host's double-precision clock holds exactly.
pub const MAX_TIMESTAMP: u64 = 0x20_0000_0000_0000;

/// The intensity, in thousandths, of the ghost that shows where the piece
/// would land.
pub const GHOST_INTENSITY: u32 = 400;

pub open spec fn pow2(n: nat) -> nat
    decreases n,
{
    if n == 0 {
        1
    } else {
        2 * pow2((n - 1) as nat)
    }
}

/// The points for clearing `n` rows at once: 100 for one, doubling with each
/// further row.
pub open spec fn line_points(n: int) -> int {
    if n <= 0 {
        0
    } else {
        100 * pow2((n - 1) as nat) as int
    }
}

/// `v` capped at `u32::MAX`.
pub open spec fn sat_u32(v: int) -> u32 {
    if v > u32::MAX {
        u32::MAX
    } else {
        v as u32
    }
}

/// The level reached after clearing `lines` rows: one more every ten rows,
/// up to `MAX_LEVEL`.
pub open spec fn level_for(lines: int) -> int {
    if 1 + lines / 10 > MAX_LEVEL {
        MAX_LEVEL as int
    } else {
        1 + lines / 10
    }
}

/// The points for clearing `n` rows at once, capped at `u32::MAX`.
pub fn score_for_lines(n: usize) -> (r: u32)
    ensures
        r == sat_u32(line_points(n as int)),
{
    if n == 0 {
        return 0;
    }
    let mut v: u64 = 100;
    let mut i: usize = 1;
    while i < n
        invariant
            1 <= i <= n,
            v <= u32::MAX ==> v == 100 * pow2((i - 1) as nat),
            v > u32::MAX ==> 100 * pow2((i - 1) as nat) > u32::MAX,
            v <= 2 * (u32::MAX as u64) + 2,
        decreases n - i,
    {
        if v <= u32::MAX as u64 {
            v = v * 2;
        }
        proof {
            assert(pow2(i as nat) == 2 * pow2((i - 1) as nat));
            assert(pow2(i as nat) >= pow2((i - 1) as nat));
        }
        i = i + 1;
    }
    if v > u32::MAX as u64 {
        u32::MAX
    } else {
        v as u32
    }
}

/// The gravity interval, in milliseconds, at each level from 1 to
/// `MAX_LEVEL`: about 1000 ms times 0.905 to the power `level - 1`.
pub open spec fn fall_intervals() -> Seq<u64> {
    seq![1000u64, 905, 819, 741, 671, 607, 549, 497, 450, 407, 368, 333, 302, 273, 247, 224, 202, 183, 166, 150]
}

/// The gravity interval at `level`, levels outside `1 ..= MAX_LEVEL`
/// taken as the nearest one.
pub open spec fn fall_interval(level: int) -> u64 {
    let l = if level < 1 { 1 } else if level > MAX_LEVEL { MAX_LEVEL as int } else { level };
    fall_intervals()[l - 1]
}

/// The pieces fall faster, or as fast, at each higher level, never faster
/// than one row per 150 ms and never slower than one per second.
pub proof fn lemma_fall_interval_decreasing(a: int, b: int)
    requires
        a <= b,
    ensures
        fall_interval(b) <= fall_interval(a),
        150 <= fall_interval(a) <= 1000,
{
    let s = fall_intervals();
    assert forall|i: int, j: int| 0 <= i <= j < 20 implies #[trigger] s[j] <= #[trigger] s[i] by {
        assert(forall|k: int| 0 <= k < 19 ==> #[trigger] s[k + 1] < s[k]);
        if i < j {
            lemma_seq_decreasing(s, i, j);
        }
    }
}

proof fn lemma_seq_decreasing(s: Seq<u64>, i: int, j: int)
    requires
        0 <= i < j < s.len(),
        forall|k: int| 0 <= k < s.len() - 1 ==> #[trigger] s[k + 1] < s[k],
    ensures
        s[j] < s[i],
    decreases j - i,
{
    if j > i + 1 {
        lemma_seq_decreasing(s, i, j - 1);
        assert(s[(j - 1) + 1] < s[j - 1]);
    } else {
        assert(s[i + 1] < s[i]);
    }
}

pub fn gravity_interval(level: u32) -> (r: u64)
    ensures
        r == fall_interval(level as int),
{
    if level <= 1 { 1000 } else if level == 2 { 905 } else if level == 3 { 819 } else if level == 4 { 741 }
    else if level == 5 { 671 } else if level == 6 { 607 } else if level == 7 { 549 } else if level == 8 { 497 }
    else if level == 9 { 450 } else if level == 10 { 407 } else if level == 11 { 368 } else if level == 12 { 333 }
    else if level == 13 { 302 } else if level == 14 { 273 } else if level == 15 { 247 } else if level == 16 { 224 }
    else if level == 17 { 202 } else if level == 18 { 183 } else if level == 19 { 166 } else { 150 }
}

/// The kicks tried, in order, when a rotation collides: column offsets
/// 0, 1, -1, 2, -2 on rows 0, 1, 2 below.
pub open spec fn kick(k: int) -> (int, int) {
    let xs = seq![0int, 1, -1, 2, -2];
    (xs[k % 5], k / 5)
}

/// The first kick, from index `k` on, that lets the piece stand in rotation
/// state `rot` near (px, py).
pub open spec fn first_kick(board: Board, piece: Piece, px: int, py: int, rot: int, k: int) -> Option<(int, int)>
    decreases 15 - k,
{
    if k < 0 || k >= 15 {
        None
    } else if !board.collides_at(&piece, px + kick(k).0, py + kick(k).1, rot) {
        Some((px + kick(k).0, py + kick(k).1))
    } else {
        first_kick(board, piece, px, py, rot, k + 1)
    }
}

/// One quarter turn in direction `dir` (1 clockwise, -1 anticlockwise) from
/// (px, py, rot): the placement of the first kick that fits, or no change.
pub open spec fn rotate_step(board: Board, piece: Piece, px: int, py: int, rot: int, dir: int) -> (int, int, int) {
    let nr = (rot + dir + 4) % 4;
    match first_kick(board, piece, px, py, nr, 0) {
        Some(p) => (p.0, p.1, nr),
        None => (px, py, rot),
    }
}

/// `n` quarter turns in direction `dir`.
pub open spec fn rotate_steps(board: Board, piece: Piece, px: int, py: int, rot: int, dir: int, n: nat) -> (int, int, int)
    decreases n,
{
    if n == 0 {
        (px, py, rot)
    } else {
        let (x, y, r) = rotate_steps(board, piece, px, py, rot, dir, (n - 1) as nat);
        rotate_step(board, piece, x, y, r, dir)
    }
}

proof fn lemma_one_turn(board: Board, piece: Piece, px: int, py: int, rot: int, dir: int)
    ensures
        rotate_steps(board, piece, px, py, rot, dir, 1) == rotate_step(board, piece, px, py, rot, dir),
{
    assert(rotate_steps(board, piece, px, py, rot, dir, 0) == (px, py, rot));
}

/// Turning a piece four quarter turns the same way, on a board where it fits
/// in every rotation state where it stands, brings it back to where it was.
pub proof fn lemma_four_turns(board: Board, piece: Piece, px: int, py: int, rot: int, dir: int)
    requires
        0 <= rot < 4,
        dir == 1 || dir == -1,
        forall|r: int| 0 <= r < 4 ==> !#[trigger] board.collides_at(&piece, px, py, r),
    ensures
        rotate_steps(board, piece, px, py, rot, dir, 4) == (px, py, rot),
{
    assert(kick(0) == (0int, 0int));
    let s1 = rotate_steps(board, piece, px, py, rot, dir, 1);
    let s2 = rotate_steps(board, piece, px, py, rot, dir, 2);
    let s3 = rotate_steps(board, piece, px, py, rot, dir, 3);
    let s4 = rotate_steps(board, piece, px, py, rot, dir, 4);
    assert(rotate_steps(board, piece, px, py, rot, dir, 0) == (px, py, rot));
    assert(!board.collides_at(&piece, px, py, (rot + dir + 4) % 4));
    assert(s1 == (px, py, (rot + dir + 4) % 4));
    assert(!board.collides_at(&piece, px, py, (s1.2 + dir + 4) % 4));
    assert(s2 == (px, py, (s1.2 + dir + 4) % 4));
    assert(!board.collides_at(&piece, px, py, (s2.2 + dir + 4) % 4));
    assert(s3 == (px, py, (s2.2 + dir + 4) % 4));
    assert(!board.collides_at(&piece, px, py, (s3.2 + dir + 4) % 4));
    assert(s4 == (px, py, (s3.2 + dir + 4) % 4));
}

/// How many of `n` unit steps by (dx, dy) from (px, py) the piece takes
/// before the first one that collides.
pub open spec fn free_run(board: Board, piece: Piece, px: int, py: int, rot: int, dx: int, dy: int, n: nat) -> nat
    decreases n,
{
    if n == 0 {
        0
    } else {
        let k = free_run(board, piece, px, py, rot, dx, dy, (n - 1) as nat);
        if k == n - 1 && !board.collides_at(&piece, px + dx * n, py + dy * n, rot) {
            n
        } else {
            k
        }
    }
}

/// Once a step collides, no further step is taken.
proof fn lemma_free_run_stops(board: Board, piece: Piece, px: int, py: int, rot: int, dx: int, dy: int, i: nat, m: nat)
    requires
        free_run(board, piece, px, py, rot, dx, dy, i) == i,
        board.collides_at(&piece, px + dx * (i + 1), py + dy * (i + 1), rot),
        m > i,
    ensures
        free_run(board, piece, px, py, rot, dx, dy, m) == i,
    decreases m,
{
    if m > i + 1 {
        lemma_free_run_stops(board, piece, px, py, rot, dx, dy, i, (m - 1) as nat);
    }
}

fn kick_offset(k: usize) -> (r: (i32, i32))
    requires
        k < 15,
    ensures
        r.0 == kick(k as int).0,
        r.1 == kick(k as int).1,
{
    let c = k % 5;
    let x: i32 = if c == 0 { 0 } else if c == 1 { 1 } else if c == 2 { -1 } else if c == 3 { 2 } else { -2 };
    (x, (k / 5) as i32)
}

/// Where a piece enters the board: the position `initial_position` gives
/// for rotation state 0.
pub open spec fn spawn_position(board: Board, piece: Piece) -> (int, int) {
    (board.spec_width() / 2 - (piece.min_x(0) + piece.max_x(0) + 1) / 2, -piece.min_y(0))
}

/// Whether row `y` is where the piece comes to rest falling from (px, py).
pub open spec fn is_drop_row(board: Board, piece: Piece, px: int, py: int, rot: int, y: int) -> bool {
    &&& y >= py
    &&& board.collides_at(&piece, px, y + 1, rot)
    &&& forall|y2: int| py <= y2 < y ==> !#[trigger] board.collides_at(&piece, px, y2 + 1, rot)
}

/// `a / b` rounded towards zero.
pub open spec fn div_trunc(a: int, b: int) -> int {
    if a >= 0 {
        a / b
    } else {
        -((-a) / b)
    }
}

fn blocks_moved(from: i32, to: i32) -> (r: i64)
    ensures
        r == div_trunc(to - from, BLOCK_SIZE_PX as int),
        -100_000_000 <= r <= 100_000_000,
{
    let d: i64 = to as i64 - from as i64;
    if d >= 0 {
        d / 50
    } else {
        -((-d) / 50)
    }
}

/// The input state shared by all the game's states.
pub struct Controller {
    pub button_input: ButtonInput,
    pub touch_input: TouchInput,
}

impl Controller {
    pub open spec fn wf(&self) -> bool {
        self.touch_input.wf()
    }

    pub fn new() -> (c: Self)
        ensures
            c.wf(),
    {
        Self { button_input: ButtonInput::new(), touch_input: TouchInput::new() }
    }
}

/// A change of the status text the host shows.
#[derive(Clone, Copy, Debug, PartialEq, Eq, Structural)]
pub enum Status {
    /// The title banner, and no statistics.
    TitleScreen,
    /// The game-over banner.
    GameOverScreen,
    /// No banner: a game is in play.
    Playing,
    /// The statistics of the game in play.
    Stats { elapsed: u64, score: u32, lines: u32, level: u32 },
}

/// What a frame asks the host to show: blocks to draw, in order, and status
/// changes.
pub struct Frame {
    pub blocks: Vec<Block>,
    pub status: Vec<Status>,
}

/// Whether press time `a` is later than `b`, a button that is up counting
/// as earliest.
pub open spec fn later(a: Option<u64>, b: Option<u64>) -> bool {
    match (a, b) {
        (Some(x), Some(y)) => x > y,
        (Some(_), None) => true,
        _ => false,
    }
}

fn later_press(a: Option<u64>, b: Option<u64>) -> (r: bool)
    ensures
        r == later(a, b),
{
    match (a, b) {
        (Some(x), Some(y)) => x > y,
        (Some(_), None) => true,
        _ => false,
    }
}

/// Whether `b` is `a` with at most the falling piece's placement changed.
pub open spec fn keeps_all_but_placement(a: RunningState, b: RunningState) -> bool {
    &&& b.spec_board() == a.spec_board()
    &&& b.spec_bag() == a.spec_bag()
    &&& b.spec_real_clock() == a.spec_real_clock()
    &&& b.spec_anim_clock() == a.spec_anim_clock()
    &&& b.spec_game_clock() == a.spec_game_clock()
    &&& b.spec_animations() == a.spec_animations()
    &&& b.spec_score() == a.spec_score()
    &&& b.spec_lines() == a.spec_lines()
    &&& b.spec_level() == a.spec_level()
    &&& b.spec_fall_timer() == a.spec_fall_timer()
    &&& b.spec_frame_index() == a.spec_frame_index()
    &&& b.now() == a.now()
}

/// Whether the falling piece of `s` does not fit at its entry position.
pub open spec fn spawn_blocked(s: RunningState) -> bool {
    let sp = spawn_position(s.spec_board(), s.piece());
    s.spec_board().collides_at(&s.piece(), sp.0, sp.1, 0)
}

/// Whether `e` is the line-clear effect of `rows`, `w` wide, from `start`.
pub open spec fn line_clear_entry(e: Scheduled, rows: Seq<usize>, w: int, start: int) -> bool {
    &&& e.start == start
    &&& e.end == Some((start + ANIMATION_DURATION_LINE_CLEAR) as u64)
    &&& match e.animation {
        Animation::LineClear(a) => a.rows@ == rows && a.width == w,
        _ => false,
    }
}

/// Whether `e` is the drop effect of the piece of `s` from its row down to
/// row `y`.
pub open spec fn whoosh_entry(e: Scheduled, s: RunningState, y: int) -> bool {
    let start = s.spec_anim_clock().elapsed_spec();
    &&& e.start == start
    &&& e.end == Some((start + ANIMATION_DURATION_HARD_DROP) as u64)
    &&& match e.animation {
        Animation::Whoosh(w) => w.points@ == s.piece().coords(s.spec_rotation()) && w.color == s.piece().spec_color()
            && w.x == s.spec_position().x && w.y1 == s.spec_position().y && w.y2 == y,
        _ => false,
    }
}

/// Whether `q` is `p` with `e` added at the end.
pub open spec fn pushed(p: Seq<Scheduled>, q: Seq<Scheduled>) -> bool {
    q.len() == p.len() + 1 && q.take(p.len() as int) == p
}

/// Whether `b` is `a` after its piece is locked: written into the board,
/// the full rows cleared and scored, and their line-clear effect queued.
pub open spec fn locked(a: RunningState, b: RunningState) -> bool {
    let w = a.spec_board().spec_width();
    let placed = a.spec_board().placed_rows(&a.piece(), a.spec_position().x as int, a.spec_position().y as int,
        a.spec_rotation());
    let rows = full_rows(placed, 0);
    let n = rows.len() as int;
    let q = a.spec_animations().entries();
    let q2 = b.spec_animations().entries();
    &&& b.spec_board().spec_width() == w
    &&& b.spec_board().spec_height() == a.spec_board().spec_height()
    &&& b.spec_board().rows() == cleared_layout(placed, w)
    &&& b.spec_score() == sat_u32(a.spec_score() + line_points(n))
    &&& b.spec_lines() == sat_u32(a.spec_lines() + n)
    &&& b.spec_level() == level_for(b.spec_lines() as int)
    &&& b.spec_bag() == a.spec_bag()
    &&& b.spec_position() == a.spec_position()
    &&& b.spec_rotation() == a.spec_rotation()
    &&& b.spec_real_clock() == a.spec_real_clock()
    &&& b.spec_anim_clock() == a.spec_anim_clock()
    &&& b.spec_game_clock() == a.spec_game_clock()
    &&& b.spec_fall_timer() == a.spec_fall_timer()
    &&& b.spec_frame_index() == a.spec_frame_index()
    &&& b.now() == a.now()
    &&& n == 0 ==> q2 == q
    &&& n > 0 ==> pushed(q, q2) && line_clear_entry(q2.last(), rows, w, a.spec_anim_clock().elapsed_spec())
}

/// Whether `b` is `a` after the next piece of the bag was brought in:
/// `fits` iff it fits at its entry position, where it then stands in
/// rotation state 0 with the fall timer restarted.
pub open spec fn spawned(a: RunningState, b: RunningState, fits: bool) -> bool {
    &&& b.spec_board() == a.spec_board()
    &&& b.spec_bag().pieces() == a.spec_bag().pieces()
    &&& b.spec_bag().index() == (a.spec_bag().index() + 1) % (a.spec_bag().pieces().len() as int)
    &&& b.spec_real_clock() == a.spec_real_clock()
    &&& b.spec_anim_clock() == a.spec_anim_clock()
    &&& b.spec_game_clock() == a.spec_game_clock()
    &&& b.spec_animations() == a.spec_animations()
    &&& b.spec_score() == a.spec_score()
    &&& b.spec_lines() == a.spec_lines()
    &&& b.spec_level() == a.spec_level()
    &&& b.spec_frame_index() == a.spec_frame_index()
    &&& b.now() == a.now()
    &&& fits == !spawn_blocked(b)
    &&& fits ==> b.spec_position().x == spawn_position(b.spec_board(), b.piece()).0
        && b.spec_position().y == spawn_position(b.spec_board(), b.piece()).1 && b.spec_rotation() == 0
        && b.spec_fall_timer() == a.spec_game_clock().elapsed_spec()
    &&& !fits ==> b.spec_position() == a.spec_position() && b.spec_rotation() == a.spec_rotation()
        && b.spec_fall_timer() == a.spec_fall_timer()
}

/// Whether `m` is `a` with its piece moved straight down to row `y`, with
/// the drop effect queued if it moved.
pub open spec fn dropped_to(a: RunningState, m: RunningState, y: int) -> bool {
    &&& is_drop_row(a.spec_board(), a.piece(), a.spec_position().x as int, a.spec_position().y as int, a.spec_rotation(), y)
    &&& m.spec_position().x == a.spec_position().x
    &&& m.spec_position().y == y
    &&& m.spec_rotation() == a.spec_rotation()
    &&& m.spec_board() == a.spec_board()
    &&& m.spec_bag() == a.spec_bag()
    &&& m.spec_real_clock() == a.spec_real_clock()
    &&& m.spec_anim_clock() == a.spec_anim_clock()
    &&& m.spec_game_clock() == a.spec_game_clock()
    &&& m.spec_score() == a.spec_score()
    &&& m.spec_lines() == a.spec_lines()
    &&& m.spec_level() == a.spec_level()
    &&& m.spec_fall_timer() == a.spec_fall_timer()
    &&& m.spec_frame_index() == a.spec_frame_index()
    &&& m.now() == a.now()
    &&& y == a.spec_position().y ==> m.spec_animations() == a.spec_animations()
    &&& y != a.spec_position().y ==> pushed(a.spec_animations().entries(), m.spec_animations().entries())
        && whoosh_entry(m.spec_animations().entries().last(), a, y)
}

/// Whether `b` is `a` after a hard drop: the piece falls to where it rests,
/// is locked there, and the next piece is brought in; `over` iff that piece
/// does not fit.
pub open spec fn hard_dropped(a: RunningState, b: RunningState, over: bool) -> bool {
    exists|m: RunningState, m2: RunningState, y: int| #![trigger dropped_to(a, m, y), locked(m, m2)]
        dropped_to(a, m, y) && locked(m, m2) && spawned(m2, b, !over)
}

/// Whether `b` is `a` with at most the falling piece's placement and the
/// fall timer changed.
pub open spec fn keeps_all_but_placement_and_timer(a: RunningState, b: RunningState) -> bool {
    &&& b.spec_board() == a.spec_board()
    &&& b.spec_bag() == a.spec_bag()
    &&& b.spec_real_clock() == a.spec_real_clock()
    &&& b.spec_anim_clock() == a.spec_anim_clock()
    &&& b.spec_game_clock() == a.spec_game_clock()
    &&& b.spec_animations() == a.spec_animations()
    &&& b.spec_score() == a.spec_score()
    &&& b.spec_lines() == a.spec_lines()
    &&& b.spec_level() == a.spec_level()
    &&& b.spec_frame_index() == a.spec_frame_index()
    &&& b.now() == a.now()
}

/// The column reached by moving `off` columns from (x, y), one at a time,
/// stopping before the first collision.
pub open spec fn slide_x(b: Board, p: Piece, rot: int, x: int, y: int, off: int) -> int {
    let step: int = if off > 0 { 1 } else { -1 };
    let n: nat = (if off < 0 { -off } else { off }) as nat;
    if off == 0 {
        x
    } else {
        x + step * free_run(b, p, x, y, rot, step, 0, n)
    }
}

/// The row reached by moving `off` rows down from (x, y), one at a time,
/// stopping before the first collision; never up.
pub open spec fn slide_y(b: Board, p: Piece, rot: int, x: int, y: int, off: int) -> int {
    if off <= 0 {
        y
    } else {
        y + free_run(b, p, x, y, rot, 0, 1, off as nat)
    }
}

/// The block columns and rows a drag moved since the previous frame.
pub open spec fn motion_offsets(m: Motion) -> (int, int) {
    (div_trunc(m.3.position.x - m.1.position.x, BLOCK_SIZE_PX as int) - div_trunc(m.2.position.x - m.1.position.x,
        BLOCK_SIZE_PX as int), div_trunc(m.3.position.y - m.1.position.y, BLOCK_SIZE_PX as int) - div_trunc(
        m.2.position.y - m.1.position.y, BLOCK_SIZE_PX as int))
}

/// The placement reached from (x, y) by following each drag in turn: its
/// columns, then its rows down; and whether, or `reset` already, some drag
/// moved the piece down all the rows it asked for.
pub open spec fn follow_motions(b: Board, p: Piece, rot: int, ms: Seq<Motion>, x: int, y: int, reset: bool) -> (int, int, bool)
    decreases ms.len(),
{
    if ms.len() == 0 {
        (x, y, reset)
    } else {
        let (ox, oy) = motion_offsets(ms[0]);
        if ox != 0 || oy != 0 {
            let x1 = slide_x(b, p, rot, x, y, ox);
            let y1 = slide_y(b, p, rot, x1, y, oy);
            follow_motions(b, p, rot, ms.skip(1), x1, y1, reset || (oy > 0 && y1 == y + oy))
        } else {
            follow_motions(b, p, rot, ms.skip(1), x, y, reset)
        }
    }
}

/// The drags of the active touches.
pub open spec fn motions_of(t: TouchInput) -> Seq<Motion> {
    t.active().filter_map(|e: TouchEntry| motion_of(t.active_before(), e))
}

/// The column step the move buttons ask for: towards the button pressed
/// later, if it fires on this frame.
pub open spec fn key_dx(c: Controller) -> int {
    let b = c.button_input;
    if repeat_due(b, INPUT_MOVE_LEFT, INITIAL_DELAY_MOVE, REPEAT_DELAY_MOVE) && later(b.pressed_at(INPUT_MOVE_LEFT),
        b.pressed_at(INPUT_MOVE_RIGHT)) {
        -1
    } else if repeat_due(b, INPUT_MOVE_RIGHT, INITIAL_DELAY_MOVE, REPEAT_DELAY_MOVE) && later(b.pressed_at(
        INPUT_MOVE_RIGHT), b.pressed_at(INPUT_MOVE_LEFT)) {
        1
    } else {
        0
    }
}

/// Where the move inputs take the piece of `s`: one column for the move
/// buttons, one row down for the soft-drop button, then the drags; and
/// whether some downward move asked for succeeded in full, which restarts
/// the fall timer.
pub open spec fn moved_by_input(s: RunningState, c: Controller) -> (int, int, bool) {
    let b = s.spec_board();
    let p = s.piece();
    let rot = s.spec_rotation();
    let x0 = s.spec_position().x as int;
    let y0 = s.spec_position().y as int;
    let x1 = slide_x(b, p, rot, x0, y0, key_dx(c));
    let soft = repeat_due(c.button_input, INPUT_SOFT_DROP, INITIAL_DELAY_SOFT_DROP, REPEAT_DELAY_SOFT_DROP);
    let y1 = if soft { slide_y(b, p, rot, x1, y0, 1) } else { y0 };
    follow_motions(b, p, rot, motions_of(c.touch_input), x1, y1, soft && y1 == y0 + 1)
}

/// Whether a tap ended at the current frame.
pub open spec fn tapped(t: TouchInput) -> bool {
    t.finished().filter(|e: TouchEntry| is_gesture(Gesture::Tap, TOUCH_TAP_DISTANCE_THRESHOLD, TOUCH_TAP_PERIOD_THRESHOLD, e)).len() > 0
}

/// Where the rotation inputs take the piece of `s`: a quarter turn for
/// one rotation button alone, then a clockwise one for a tap.
pub open spec fn rotated_by_input(s: RunningState, c: Controller) -> (int, int, int) {
    let b = s.spec_board();
    let p = s.piece();
    let cw = triggered(c.button_input, INPUT_ROTATE_CW);
    let ccw = triggered(c.button_input, INPUT_ROTATE_CCW);
    let start = (s.spec_position().x as int, s.spec_position().y as int, s.spec_rotation());
    let r1 = if cw && !ccw {
        rotate_step(b, p, start.0, start.1, start.2, 1)
    } else if ccw && !cw {
        rotate_step(b, p, start.0, start.1, start.2, -1)
    } else {
        start
    };
    if tapped(c.touch_input) {
        rotate_step(b, p, r1.0, r1.1, r1.2, 1)
    } else {
        r1
    }
}

/// Whether the hard-drop button went down or an upward swipe ended.
pub open spec fn drop_requested(c: Controller) -> bool {
    triggered(c.button_input, INPUT_HARD_DROP) || swiped_up(c.touch_input)
}

/// Whether gravity acts on `s`: its game clock has passed a multiple of the
/// level's fall interval after the fall timer.
pub open spec fn gravity_due(s: RunningState) -> bool {
    passed_multiple(s.spec_game_clock().elapsed_before(), s.spec_game_clock().elapsed_spec(),
        fall_interval(s.spec_level() as int) as int, s.spec_fall_timer() as int)
}

/// Whether `a` and `b` have boards of one size.
pub open spec fn same_size(a: RunningState, b: RunningState) -> bool {
    b.spec_board().spec_width() == a.spec_board().spec_width() && b.spec_board().spec_height() == a.spec_board().spec_height()
}

/// The statistics status of `s`.
pub open spec fn stats_of(s: RunningState) -> Status {
    Status::Stats {
        elapsed: s.spec_real_clock().elapsed_spec() as u64,
        score: s.spec_score(),
        lines: s.spec_lines(),
        level: s.spec_level(),
    }
}

/// Whether a frame of play that ended in state `s` added `after` to
/// `before`: the effects of queue `e` (which became the queue of `s`) at the
/// animation time, then, unless the game clock is suspended, the board, the
/// ghost at row `drop_y` where the piece would land, and the piece.
pub open spec fn frame_drawn(s: RunningState, e: Seq<Scheduled>, drop_y: int, before: Seq<Block>, after: Seq<Block>) -> bool {
    let t = s.spec_anim_clock().elapsed_spec();
    &&& s.spec_animations().entries() == e.filter(|x: Scheduled| alive(x, t))
    &&& if s.spec_game_clock().spec_suspended() {
        after == before + queue_frame(e, t)
    } else {
        &&& is_drop_row(s.spec_board(), s.piece(), s.spec_position().x as int, s.spec_position().y as int,
            s.spec_rotation(), drop_y)
        &&& after == before + queue_frame(e, t) + play_frame(s, drop_y)
    }
}

/// Locking a piece that completes exactly one row scores 100 points and one
/// line, and queues the line-clear effect of that row (while the totals are
/// below `u32::MAX`).
pub proof fn lemma_one_line_scores(a: RunningState, b: RunningState)
    requires
        locked(a, b),
        full_rows(a.spec_board().placed_rows(&a.piece(), a.spec_position().x as int, a.spec_position().y as int,
            a.spec_rotation()), 0).len() == 1,
        a.spec_score() + 100 <= u32::MAX,
        a.spec_lines() + 1 <= u32::MAX,
    ensures
        b.spec_score() == a.spec_score() + 100,
        b.spec_lines() == a.spec_lines() + 1,
        pushed(a.spec_animations().entries(), b.spec_animations().entries()),
        line_clear_entry(b.spec_animations().entries().last(), full_rows(a.spec_board().placed_rows(&a.piece(),
            a.spec_position().x as int, a.spec_position().y as int, a.spec_rotation()), 0),
            a.spec_board().spec_width(), a.spec_anim_clock().elapsed_spec()),
{
    assert(pow2(0) == 1);
    assert(line_points(1) == 100);
}

/// What a frame of play draws last: the board, the ghost of the piece at
/// row `drop_y`, and the piece.
pub open spec fn play_frame(s: RunningState, drop_y: int) -> Seq<Block> {
    let p = s.piece();
    let coords = p.coords(s.spec_rotation());
    let x = s.spec_position().x as int;
    s.spec_board().frame()
        + point_blocks(coords, x, drop_y, faded(p.spec_color(), GHOST_INTENSITY as int))
        + point_blocks(coords, x, s.spec_position().y as int, faded(p.spec_color(), 1000))
}

/// The game in play: the board, the falling piece, the clocks and the score.
///
/// Three clocks run from the frame timestamps: real time for the statistics,
/// animation time, which stops while no effect is queued, and game time,
/// which stops while a blocking effect runs, so that neither input nor
/// gravity acts during a line clear or a hard drop. Gravity moves the piece
/// each time game time passes a multiple of the level's fall interval after
/// the fall timer; the fall timer restarts when a piece enters and after
/// each downward move asked for by the player (the soft-drop button or a
/// drag) that succeeds, and at no other time.
pub struct RunningState {
    real_clock: Clock,
    anim_clock: Clock,
    game_clock: Clock,
    frame_index: u32,
    bag: Bag,
    board: Board,
    position: Position,
    rotation: usize,
    fall_timer: u64,
    score: u32,
    num_cleared_lines: u32,
    level: u32,
    animations: AnimationQueue,
    last_ts: u64,
}

impl RunningState {
    /// The falling piece.
    pub open spec fn piece(&self) -> Piece {
        self.spec_bag().pieces()[self.spec_bag().index()]
    }

    pub closed spec fn spec_bag(&self) -> Bag {
        self.bag
    }

    pub closed spec fn spec_game_clock(&self) -> Clock {
        self.game_clock
    }

    pub closed spec fn spec_real_clock(&self) -> Clock {
        self.real_clock
    }

    pub closed spec fn spec_anim_clock(&self) -> Clock {
        self.anim_clock
    }

    /// The queue of effects.
    pub closed spec fn spec_animations(&self) -> AnimationQueue {
        self.animations
    }

    /// The game time from which gravity counts.
    pub closed spec fn spec_fall_timer(&self) -> u64 {
        self.fall_timer
    }

    /// The number of frames run, modulo 2^32.
    pub closed spec fn spec_frame_index(&self) -> u32 {
        self.frame_index
    }

    /// Whether the falling piece stands where it fits.
    pub fn piece_fits(&self) -> (r: bool)
        requires
            self.parts_wf(),
        ensures
            r == !self.spec_board().collides_at(&self.piece(), self.spec_position().x as int,
                self.spec_position().y as int, self.spec_rotation()),
            r == self.wf(),
    {
        proof {
            self.bag.lemma_current();
        }
        !self.board.collides(self.bag.current(), &self.position, self.rotation)
    }

    /// What the invariant gives a caller.
    pub proof fn lemma_wf(&self)
        requires
            self.wf(),
        ensures
            0 <= self.spec_rotation() < 4,
            self.piece().wf(),
            self.spec_board().wf(),
            !self.spec_board().collides_at(&self.piece(), self.spec_position().x as int, self.spec_position().y as int,
                self.spec_rotation()),
            1 <= self.spec_level() <= MAX_LEVEL,
            self.spec_level() == level_for(self.spec_lines() as int),
    {
        self.bag.lemma_current();
    }

    pub closed spec fn spec_board(&self) -> Board {
        self.board
    }

    pub closed spec fn spec_position(&self) -> Position {
        self.position
    }

    pub closed spec fn spec_rotation(&self) -> int {
        self.rotation as int
    }

    pub closed spec fn spec_score(&self) -> u32 {
        self.score
    }

    pub closed spec fn spec_lines(&self) -> u32 {
        self.num_cleared_lines
    }

    pub closed spec fn spec_level(&self) -> u32 {
        self.level
    }

    /// The latest timestamp seen.
    pub closed spec fn now(&self) -> u64 {
        self.last_ts
    }

    /// Everything but the placement of the falling piece.
    pub closed spec fn parts_wf(&self) -> bool {
        &&& self.board.wf()
        &&& self.bag.wf()
        &&& self.real_clock.wf()
        &&& self.anim_clock.wf()
        &&& self.game_clock.wf()
        &&& self.animations.wf()
        &&& self.rotation < 4
        &&& 1 <= self.level <= MAX_LEVEL
        &&& self.level == level_for(self.num_cleared_lines as int)
        &&& self.last_ts <= MAX_TIMESTAMP
        &&& self.real_clock.latest() <= self.last_ts
        &&& self.anim_clock.latest() <= self.last_ts
        &&& self.game_clock.latest() <= self.last_ts
    }

    /// The state's invariant: its parts are well formed and the falling piece
    /// stands where it fits.
    pub closed spec fn wf(&self) -> bool {
        &&& self.parts_wf()
        &&& !self.board.collides_at(&self.piece(), self.position.x as int, self.position.y as int, self.rotation as int)
    }

    pub fn score(&self) -> (r: u32)
        ensures
            r == self.spec_score(),
    {
        self.score
    }

    pub fn num_cleared_lines(&self) -> (r: u32)
        ensures
            r == self.spec_lines(),
    {
        self.num_cleared_lines
    }

    pub fn level(&self) -> (r: u32)
        ensures
            r == self.spec_level(),
    {
        self.level
    }

    pub fn position(&self) -> (r: Position)
        ensures
            r == self.spec_position(),
    {
        self.position
    }

    pub fn rotation(&self) -> (r: usize)
        ensures
            r == self.spec_rotation(),
    {
        self.rotation
    }

    pub fn board(&self) -> (r: &Board)
        ensures
            *r == self.spec_board(),
    {
        &self.board
    }

    /// One unit step by (dx, dy) from the piece's fitting placement stays
    /// within `i32`.
    proof fn lemma_step_fits(&self, dx: int, dy: int)
        requires
            self.wf(),
            -1 <= dx <= 1,
            0 <= dy <= 1,
        ensures
            i32::MIN <= self.position.x + dx <= i32::MAX,
            i32::MIN <= self.position.y + dy <= i32::MAX,
    {
        let piece = self.piece();
        self.bag.lemma_current();
        self.board.lemma_dims();
        let (bx, by) = piece.lemma_block(self.rotation as int);
        piece.lemma_occupied_inside(self.rotation as int, bx, by);
        assert(!self.board.blocked(self.position.x + bx, self.position.y + by));
    }

    /// Moves the piece `|offset|` columns, to the right for a positive
    /// offset, one column at a time, stopping before the first step that
    /// collides. True iff every step was taken (false for a zero offset).
    pub fn move_piece_x(&mut self, offset: i32) -> (r: bool)
        requires
            old(self).wf(),
        ensures
            final(self).wf(),
            keeps_all_but_placement(*old(self), *final(self)),
            final(self).spec_rotation() == old(self).spec_rotation(),
            final(self).spec_position().y == old(self).spec_position().y,
            offset == 0 ==> !r && *final(self) == *old(self),
            ({
                let step: int = if offset > 0 { 1 } else { -1 };
                let n: nat = if offset < 0 { -offset as int } else { offset as int } as nat;
                let k = free_run(old(self).spec_board(), old(self).piece(), old(self).spec_position().x as int,
                    old(self).spec_position().y as int, old(self).spec_rotation(), step, 0, n);
                &&& final(self).spec_position().x == old(self).spec_position().x + step * k
                &&& r == (offset != 0 && k == n)
            }),
    {
        let step: i32 = if offset > 0 {
            1
        } else if offset < 0 {
            -1
        } else {
            return false;
        };
        let n: i64 = if offset < 0 { -(offset as i64) } else { offset as i64 };
        let ghost b = self.board;
        let ghost p = self.piece();
        let ghost x0 = self.position.x as int;
        let ghost y0 = self.position.y as int;
        let ghost rot = self.rotation as int;
        let mut i: i64 = 0;
        while i < n
            invariant
                self.wf(),
                b == old(self).board,
                rot == old(self).rotation,
                x0 == old(self).position.x,
                y0 == old(self).position.y,
                self.board == b,
                self.piece() == p,
                self.rotation == rot,
                *self == (RunningState { position: self.position, rotation: self.rotation, ..*old(self) }),
                0 <= i <= n,
                n == (if offset < 0 { -offset as int } else { offset as int }),
                step == (if offset > 0 { 1int } else { -1int }),
                self.position.y == y0,
                self.position.x == x0 + step * i,
                free_run(b, p, x0, y0, rot, step as int, 0, i as nat) == i,
            decreases n - i,
        {
            proof {
                self.lemma_step_fits(step as int, 0);
            }
            let new_position = self.position.add_x(step);
            assert(step * (i + 1) == step * i + step) by (nonlinear_arith);
            if self.board.collides(self.bag.current(), &new_position, self.rotation) {
                proof {
                    lemma_free_run_stops(b, p, x0, y0, rot, step as int, 0, i as nat, n as nat);
                }
                return false;
            }
            self.position = new_position;
            i = i + 1;
        }
        true
    }

    /// Moves the piece down `offset` rows, one row at a time, stopping
    /// before the first step that collides. True iff every step was taken
    /// (false for an offset that is not positive).
    pub fn move_piece_y(&mut self, offset: i32) -> (r: bool)
        requires
            old(self).wf(),
        ensures
            final(self).wf(),
            keeps_all_but_placement(*old(self), *final(self)),
            final(self).spec_rotation() == old(self).spec_rotation(),
            final(self).spec_position().x == old(self).spec_position().x,
            offset <= 0 ==> !r && *final(self) == *old(self),
            offset > 0 ==> ({
                let k = free_run(old(self).spec_board(), old(self).piece(), old(self).spec_position().x as int,
                    old(self).spec_position().y as int, old(self).spec_rotation(), 0, 1, offset as nat);
                &&& final(self).spec_position().y == old(self).spec_position().y + k
                &&& r == (k == offset)
            }),
    {
        if offset <= 0 {
            return false;
        }
        let ghost b = self.board;
        let ghost p = self.piece();
        let ghost x0 = self.position.x as int;
        let ghost y0 = self.position.y as int;
        let ghost rot = self.rotation as int;
        let mut i: i32 = 0;
        while i < offset
            invariant
                self.wf(),
                b == old(self).board,
                rot == old(self).rotation,
                x0 == old(self).position.x,
                y0 == old(self).position.y,
                self.board == b,
                self.piece() == p,
                self.rotation == rot,
                *self == (RunningState { position: self.position, rotation: self.rotation, ..*old(self) }),
                0 <= i <= offset,
                self.position.x == x0,
                self.position.y == y0 + i,
                free_run(b, p, x0, y0, rot, 0, 1, i as nat) == i,
            decreases offset - i,
        {
            proof {
                self.lemma_step_fits(0, 1);
            }
            let new_position = self.position.add_y(1);
            if self.board.collides(self.bag.current(), &new_position, self.rotation) {
                proof {
                    lemma_free_run_stops(b, p, x0, y0, rot, 0, 1, i as nat, offset as nat);
                }
                return false;
            }
            self.position = new_position;
            i = i + 1;
        }
        true
    }

    /// Turns the piece `|offset|` quarter turns, clockwise for a positive
    /// offset. Each turn takes the first kick that fits, or is skipped when
    /// none does. True iff the placement changed (false for a zero offset).
    pub fn rotate_piece(&mut self, offset: i32) -> (r: bool)
        requires
            old(self).wf(),
        ensures
            final(self).wf(),
            keeps_all_but_placement(*old(self), *final(self)),
            offset == 0 ==> !r && *final(self) == *old(self),
            offset != 0 ==> ({
                let dir: int = if offset > 0 { 1 } else { -1 };
                let n: nat = if offset < 0 { -offset as int } else { offset as int } as nat;
                let t = rotate_steps(old(self).spec_board(), old(self).piece(), old(self).spec_position().x as int,
                    old(self).spec_position().y as int, old(self).spec_rotation(), dir, n);
                &&& final(self).spec_position().x == t.0
                &&& final(self).spec_position().y == t.1
                &&& final(self).spec_rotation() == t.2
                &&& r == (final(self).spec_position() != old(self).spec_position() || final(self).spec_rotation() != old(self).spec_rotation())
            }),
    {
        if offset == 0 {
            return false;
        }
        let orig_position = self.position;
        let orig_rotation = self.rotation;
        let ghost dir: int = if offset > 0 { 1 } else { -1 };
        let n: i64 = if offset < 0 { -(offset as i64) } else { offset as i64 };
        let ghost b = self.board;
        let ghost p = self.piece();
        let mut i: i64 = 0;
        while i < n
            invariant
                self.wf(),
                b == old(self).board,
                p == old(self).piece(),
                self.board == b,
                self.piece() == p,
                *self == (RunningState { position: self.position, rotation: self.rotation, ..*old(self) }),
                0 <= i <= n,
                dir == (if offset > 0 { 1int } else { -1int }),
                (self.position.x as int, self.position.y as int, self.rotation as int) == rotate_steps(b, p,
                    old(self).position.x as int, old(self).position.y as int, old(self).rotation as int, dir, i as nat),
            decreases n - i,
        {
            let new_rotation: usize = if offset > 0 { (self.rotation + 1) % 4 } else { (self.rotation + 3) % 4 };
            assert(new_rotation == (self.rotation + dir + 4) % 4);
            let ghost x = self.position.x as int;
            let ghost y = self.position.y as int;
            let ghost nr = new_rotation as int;
            let ghost r0 = self.rotation as int;
            let mut found = false;
            let mut k: usize = 0;
            while k < 15 && !found
                invariant
                    self.wf(),
                    self.board == b,
                    self.piece() == p,
                    *self == (RunningState { position: self.position, rotation: self.rotation, ..*old(self) }),
                    nr == new_rotation,
                    nr < 4,
                    k <= 15,
                    !found ==> x == self.position.x && y == self.position.y && r0 == self.rotation,
                    !found ==> first_kick(b, p, x, y, nr, 0) == first_kick(b, p, x, y, nr, k as int),
                    found ==> first_kick(b, p, x, y, nr, 0) == Some((self.position.x as int, self.position.y as int)) && self.rotation == nr,
                decreases 15 - k + if found { 0int } else { 1 },
            {
                let (kx, ky) = kick_offset(k);
                let nx: i64 = self.position.x as i64 + kx as i64;
                let ny: i64 = self.position.y as i64 + ky as i64;
                if nx < i32::MIN as i64 || nx > i32::MAX as i64 || ny < i32::MIN as i64 || ny > i32::MAX as i64 {
                    proof {
                        self.bag.lemma_current();
                        self.board.lemma_dims();
                        let (bx, by) = p.lemma_block(nr);
                        p.lemma_occupied_inside(nr, bx, by);
                        assert(b.blocked(nx + bx, ny + by));
                        assert(b.collides_at(&p, x + kick(k as int).0, y + kick(k as int).1, nr));
                    }
                    k = k + 1;
                } else {
                    let pos = Position::new(nx as i32, ny as i32);
                    if !self.board.collides(self.bag.current(), &pos, new_rotation) {
                        self.position = pos;
                        self.rotation = new_rotation;
                        found = true;
                    } else {
                        k = k + 1;
                    }
                }
            }
            proof {
                let prev = rotate_steps(b, p, old(self).position.x as int, old(self).position.y as int, old(self).rotation as int, dir, i as nat);
                assert(prev == (x, y, r0));
                if !found {
                    assert(first_kick(b, p, x, y, nr, 15) == None::<(int, int)>);
                }
            }
            i = i + 1;
        }
        self.position != orig_position || self.rotation != orig_rotation
    }

    fn reset_fall_timer(&mut self)
        requires
            old(self).parts_wf(),
        ensures
            *final(self) == (RunningState { fall_timer: final(self).fall_timer, ..*old(self) }),
            final(self).fall_timer == old(self).game_clock.elapsed_spec(),
    {
        self.fall_timer = self.game_clock.elapsed();
    }

    /// Locks the piece: writes it into the board, clears the full rows,
    /// scores them and starts their line-clear animation.
    pub fn place_piece(&mut self)
        requires
            old(self).wf(),
        ensures
            final(self).parts_wf(),
            locked(*old(self), *final(self)),
    {
        proof {
            self.bag.lemma_current();
            let piece = self.piece();
            assert forall|bx: int, by: int| #[trigger] piece.occupied(self.rotation as int, bx, by) implies self.board.in_bounds(self.position.x + bx, self.position.y + by) by {
                assert(!self.board.blocked(self.position.x + bx, self.position.y + by));
            }
        }
        self.board.put_piece(self.bag.current(), &self.position, self.rotation);
        let cleared_lines = self.board.clear_lines();
        let n = cleared_lines.len();
        let points = score_for_lines(n);
        let total: u64 = self.score as u64 + points as u64;
        self.score = if total > u32::MAX as u64 { u32::MAX } else { total as u32 };
        let n32: u64 = if n > u32::MAX as usize { u32::MAX as u64 } else { n as u64 };
        let lines: u64 = self.num_cleared_lines as u64 + n32;
        self.num_cleared_lines = if lines > u32::MAX as u64 { u32::MAX } else { lines as u32 };
        let lv = 1 + self.num_cleared_lines / 10;
        self.level = if lv > MAX_LEVEL { MAX_LEVEL } else { lv };
        proof {
            assert(sat_u32(line_points(n as int)) <= u32::MAX);
            if line_points(n as int) > u32::MAX {
                assert(old(self).score + line_points(n as int) > u32::MAX);
            }
        }
        if n > 0 {
            let width = self.board.width();
            proof {
                self.board.lemma_dims();
            }
            let start = self.anim_clock.elapsed();
            let anim = LineClearAnimation::new(cleared_lines, width);
            let ghost q = self.animations.entries();
            self.animations.schedule(start, ANIMATION_DURATION_LINE_CLEAR, Animation::LineClear(anim));
            assert(self.animations.entries().take(q.len() as int) =~= q);
        }
    }

    /// Brings in the next piece of the bag at its entry position. False, with
    /// the falling piece left where it was, if it does not fit there.
    pub fn new_piece(&mut self) -> (r: bool)
        requires
            old(self).parts_wf(),
        ensures
            final(self).parts_wf(),
            r ==> final(self).wf(),
            spawned(*old(self), *final(self), r),
    {
        self.bag.advance();
        let rotation: usize = 0;
        proof {
            self.bag.lemma_current();
        }
        let position = self.board.initial_position(self.bag.current(), rotation);
        if self.board.collides(self.bag.current(), &position, rotation) {
            false
        } else {
            self.reset_fall_timer();
            self.rotation = rotation;
            self.position = position;
            true
        }
    }

    /// Drops the piece straight down to where it comes to rest, with a drop
    /// animation if it moved, and locks it there. Nothing happens while the
    /// game clock is suspended. True iff the next piece does not fit.
    pub fn hard_drop_piece(&mut self) -> (over: bool)
        requires
            old(self).wf(),
        ensures
            final(self).spec_frame_index() == old(self).spec_frame_index(),
            same_size(*old(self), *final(self)),
            final(self).parts_wf(),
            final(self).now() == old(self).now(),
            !over ==> final(self).wf(),
            old(self).spec_game_clock().spec_suspended() ==> !over && *final(self) == *old(self),
            !old(self).spec_game_clock().spec_suspended() ==> hard_dropped(*old(self), *final(self), over),
    {
        if self.game_clock.is_suspended() {
            return false;
        }
        proof {
            self.bag.lemma_current();
        }
        let drop_pos = self.board.find_drop_position(self.bag.current(), &self.position, self.rotation);
        if drop_pos != self.position {
            let piece = self.bag.current();
            let points = piece.iter_coords(self.rotation);
            let anim = WhooshAnimation::new(points, piece.get_color(), self.position.x, self.position.y, drop_pos.y);
            proof {
                let rot = self.rotation as int;
                assert forall|k: int| 0 <= k < anim.points@.len() implies (#[trigger] anim.points@[k]).0 <= i32::MAX && anim.points@[k].1 <= i32::MAX by {
                    piece.lemma_occupied_inside(rot, anim.points@[k].0 as int, anim.points@[k].1 as int);
                }
                assert forall|k: int| 0 <= k < anim.points@.len() implies 0 <= anim.x + (#[trigger] anim.points@[k]).0 && 0 <= anim.y1 + anim.points@[k].1 by {
                    assert(piece.occupied(rot, anim.points@[k].0 as int, anim.points@[k].1 as int));
                    assert(!self.board.blocked(self.position.x + anim.points@[k].0, self.position.y + anim.points@[k].1));
                }
            }
            let start = self.anim_clock.elapsed();
            self.animations.schedule(start, ANIMATION_DURATION_HARD_DROP, Animation::Whoosh(anim));
        }
        self.position = drop_pos;
        let ghost m = *self;
        assert(!self.board.collides_at(&self.piece(), drop_pos.x as int, drop_pos.y as int, self.rotation as int));
        self.place_piece();
        let ghost m2 = *self;
        let ok = self.new_piece();
        proof {
            assert(is_drop_row(old(self).spec_board(), old(self).piece(), old(self).spec_position().x as int,
                old(self).spec_position().y as int, old(self).spec_rotation(), drop_pos.y as int));
            if drop_pos.y != old(self).position.y {
                assert(m.animations.entries().take(old(self).animations.entries().len() as int) =~= old(self).animations.entries());
            }
            assert(dropped_to(*old(self), m, drop_pos.y as int));
            assert(locked(m, m2));
            assert(spawned(m2, *self, ok));
        }
        !ok
    }

    fn handle_input_misc(&mut self, controller: &Controller) -> (over: bool)
        requires
            old(self).wf(),
        ensures
            *final(self) == *old(self),
            over == triggered(controller.button_input, INPUT_GAME_STOP),
    {
        controller.button_input.is_triggered(INPUT_GAME_STOP)
    }

    /// A hard drop on its button or an upward swipe, while the game clock
    /// runs. True iff the game is over.
    fn handle_input_drop(&mut self, controller: &Controller) -> (over: bool)
        requires
            old(self).wf(),
        ensures
            final(self).spec_frame_index() == old(self).spec_frame_index(),
            same_size(*old(self), *final(self)),
            final(self).parts_wf(),
            !over ==> final(self).wf(),
            old(self).spec_game_clock().spec_suspended() || !drop_requested(*controller) ==> !over && *final(self) == *old(self),
            !old(self).spec_game_clock().spec_suspended() && drop_requested(*controller) ==> hard_dropped(*old(self), *final(self), over),
    {
        if self.game_clock.is_suspended() {
            return false;
        }
        if controller.button_input.is_triggered(INPUT_HARD_DROP) {
            return self.hard_drop_piece();
        }
        let swipes = controller.touch_input.swipes_up(TOUCH_SWIPE_DISTANCE_THRESHOLD);
        if swipes.len() > 0 {
            return self.hard_drop_piece();
        }
        false
    }

    /// Moves from the move and soft-drop buttons and from touch drags, while
    /// the game clock runs: see `moved_by_input`.
    fn handle_input_move(&mut self, controller: &Controller)
        requires
            old(self).wf(),
        ensures
            final(self).wf(),
            old(self).spec_game_clock().spec_suspended() ==> *final(self) == *old(self),
            !old(self).spec_game_clock().spec_suspended() ==> {
                &&& keeps_all_but_placement_and_timer(*old(self), *final(self))
                &&& final(self).spec_rotation() == old(self).spec_rotation()
                &&& final(self).spec_position().x == moved_by_input(*old(self), *controller).0
                &&& final(self).spec_position().y == moved_by_input(*old(self), *controller).1
                &&& final(self).spec_position().y >= old(self).spec_position().y
                &&& final(self).spec_fall_timer() as int == if moved_by_input(*old(self), *controller).2 {
                    old(self).spec_game_clock().elapsed_spec()
                } else {
                    old(self).spec_fall_timer() as int
                }
            },
    {
        if self.game_clock.is_suspended() {
            return;
        }
        let ghost b = self.board;
        let ghost p = self.piece();
        let ghost rot = self.rotation as int;
        let ts_left = controller.button_input.get_button_press_timestamp(INPUT_MOVE_LEFT);
        let ts_right = controller.button_input.get_button_press_timestamp(INPUT_MOVE_RIGHT);
        let is_left = controller.button_input.is_triggered_or_repeat(INPUT_MOVE_LEFT, INITIAL_DELAY_MOVE, REPEAT_DELAY_MOVE);
        let is_right = controller.button_input.is_triggered_or_repeat(INPUT_MOVE_RIGHT, INITIAL_DELAY_MOVE, REPEAT_DELAY_MOVE);
        if is_left && later_press(ts_left, ts_right) {
            self.move_piece_x(-1);
        } else if is_right && later_press(ts_right, ts_left) {
            self.move_piece_x(1);
        }
        let ghost x1 = self.position.x as int;
        assert(x1 == slide_x(b, p, rot, old(self).position.x as int, old(self).position.y as int, key_dx(*controller)));
        let is_soft_drop = controller.button_input.is_triggered_or_repeat(INPUT_SOFT_DROP, INITIAL_DELAY_SOFT_DROP, REPEAT_DELAY_SOFT_DROP);
        if is_soft_drop {
            if self.move_piece_y(1) {
                self.reset_fall_timer();
            }
        }
        let ghost y1 = self.position.y as int;
        let ghost r1 = repeat_due(controller.button_input, INPUT_SOFT_DROP, INITIAL_DELAY_SOFT_DROP, REPEAT_DELAY_SOFT_DROP)
            && y1 == old(self).position.y + 1;
        let ghost mut rs = r1;
        assert(self.fall_timer as int == if rs { old(self).game_clock.elapsed_spec() } else { old(self).fall_timer as int });
        assert(y1 == if repeat_due(controller.button_input, INPUT_SOFT_DROP, INITIAL_DELAY_SOFT_DROP, REPEAT_DELAY_SOFT_DROP) {
            slide_y(b, p, rot, x1, old(self).position.y as int, 1)
        } else {
            old(self).position.y as int
        });
        let motions = controller.touch_input.motions();
        let ghost ms = motions@;
        let mut i: usize = 0;
        assert(ms.skip(0) =~= ms);
        while i < motions.len()
            invariant
                self.wf(),
                b == old(self).board,
                p == old(self).piece(),
                rot == old(self).rotation,
                ms == motions@,
                i <= ms.len(),
                !self.game_clock.spec_suspended(),
                *self == (RunningState { position: self.position, fall_timer: self.fall_timer, ..*old(self) }),
                self.fall_timer as int == if rs { old(self).game_clock.elapsed_spec() } else { old(self).fall_timer as int },
                self.position.y >= old(self).position.y,
                follow_motions(b, p, rot, ms, x1, y1, r1) == follow_motions(b, p, rot, ms.skip(i as int), self.position.x as int,
                    self.position.y as int, rs),
            decreases ms.len() - i,
        {
            let (_, start, prev, curr) = motions[i];
            let x_offset = blocks_moved(start.position.x, curr.position.x) - blocks_moved(start.position.x, prev.position.x);
            let y_offset = blocks_moved(start.position.y, curr.position.y) - blocks_moved(start.position.y, prev.position.y);
            let ghost cx = self.position.x as int;
            let ghost cy = self.position.y as int;
            proof {
                assert(ms.skip(i as int)[0] == ms[i as int]);
                assert(ms.skip(i as int).skip(1) =~= ms.skip(i + 1));
                assert(motion_offsets(ms[i as int]) == (x_offset as int, y_offset as int));
            }
            if x_offset != 0 || y_offset != 0 {
                self.move_piece_x(x_offset as i32);
                let ghost xm = self.position.x as int;
                if self.move_piece_y(y_offset as i32) {
                    self.reset_fall_timer();
                }
                proof {
                    rs = rs || (y_offset > 0 && self.position.y == cy + y_offset);
                }
            }
            i = i + 1;
        }
        assert(ms.skip(ms.len() as int) =~= Seq::<Motion>::empty());
    }

    /// Rotation from the rotation buttons (one of them alone) and from taps,
    /// while the game clock runs: see `rotated_by_input`.
    fn handle_input_rotate(&mut self, controller: &Controller)
        requires
            old(self).wf(),
        ensures
            final(self).wf(),
            old(self).spec_game_clock().spec_suspended() ==> *final(self) == *old(self),
            !old(self).spec_game_clock().spec_suspended() ==> {
                &&& keeps_all_but_placement(*old(self), *final(self))
                &&& (final(self).spec_position().x as int, final(self).spec_position().y as int, final(self).spec_rotation())
                    == rotated_by_input(*old(self), *controller)
            },
    {
        if self.game_clock.is_suspended() {
            return;
        }
        let is_cw = controller.button_input.is_triggered(INPUT_ROTATE_CW);
        let is_ccw = controller.button_input.is_triggered(INPUT_ROTATE_CCW);
        proof {
            lemma_one_turn(self.board, self.piece(), self.position.x as int, self.position.y as int, self.rotation as int, 1);
            lemma_one_turn(self.board, self.piece(), self.position.x as int, self.position.y as int, self.rotation as int, -1);
        }
        if is_cw && !is_ccw {
            self.rotate_piece(1);
        } else if is_ccw && !is_cw {
            self.rotate_piece(-1);
        }
        let ghost mid = *self;
        let taps = controller.touch_input.taps(TOUCH_TAP_DISTANCE_THRESHOLD, TOUCH_TAP_PERIOD_THRESHOLD);
        proof {
            lemma_one_turn(self.board, self.piece(), self.position.x as int, self.position.y as int, self.rotation as int, 1);
        }
        if taps.len() > 0 {
            self.rotate_piece(1);
        }
        proof {
            let b = old(self).spec_board();
            let p = old(self).piece();
            assert(rotate_steps(b, p, old(self).position.x as int, old(self).position.y as int, old(self).rotation as int, 0, 0)
                == (old(self).position.x as int, old(self).position.y as int, old(self).rotation as int));
        }
    }

    /// Input in priority order: stop, hard drop, moves, rotation. True iff
    /// the game is over.
    fn handle_input(&mut self, controller: &Controller) -> (over: bool)
        requires
            old(self).wf(),
        ensures
            final(self).spec_frame_index() == old(self).spec_frame_index(),
            same_size(*old(self), *final(self)),
            final(self).parts_wf(),
            final(self).now() == old(self).now(),
            !over ==> final(self).wf(),
            triggered(controller.button_input, INPUT_GAME_STOP) ==> over && *final(self) == *old(self),
            over ==> triggered(controller.button_input, INPUT_GAME_STOP) || spawn_blocked(*final(self)),
            !triggered(controller.button_input, INPUT_GAME_STOP) && (old(self).spec_game_clock().spec_suspended()
                || !drop_requested(*controller)) ==> !over && final(self).spec_board() == old(self).spec_board()
                && final(self).spec_level() == old(self).spec_level() && final(self).spec_game_clock() == old(self).spec_game_clock()
                && (final(self).spec_fall_timer() == old(self).spec_fall_timer()
                || final(self).spec_fall_timer() == old(self).spec_game_clock().elapsed_spec()),
    {
        if self.handle_input_misc(controller) {
            return true;
        }
        if self.handle_input_drop(controller) {
            return true;
        }
        self.handle_input_move(controller);
        self.handle_input_rotate(controller);
        false
    }

    /// Moves the piece down a row each time the game clock passes a multiple
    /// of the level's fall interval, locking it when it cannot move. True iff
    /// the next piece does not fit.
    pub fn apply_gravity(&mut self) -> (over: bool)
        requires
            old(self).wf(),
        ensures
            final(self).spec_frame_index() == old(self).spec_frame_index(),
            same_size(*old(self), *final(self)),
            final(self).parts_wf(),
            final(self).now() == old(self).now(),
            !over ==> final(self).wf(),
            old(self).spec_game_clock().spec_suspended() || !gravity_due(*old(self)) ==> !over && *final(self) == *old(self),
            !old(self).spec_game_clock().spec_suspended() && gravity_due(*old(self)) ==> {
                let pos = old(self).spec_position();
                if !old(self).spec_board().collides_at(&old(self).piece(), pos.x as int, pos.y + 1, old(self).spec_rotation()) {
                    &&& !over
                    &&& keeps_all_but_placement(*old(self), *final(self))
                    &&& final(self).spec_position().x == pos.x
                    &&& final(self).spec_position().y == pos.y + 1
                    &&& final(self).spec_rotation() == old(self).spec_rotation()
                } else {
                    exists|m: RunningState| #[trigger] locked(*old(self), m) && spawned(m, *final(self), !over)
                }
            },
    {
        if self.game_clock.is_suspended() {
            return false;
        }
        let gravity = gravity_interval(self.level);
        if self.game_clock.has_passed_multiple_of(gravity, self.fall_timer) {
            proof {
                let pos = old(self).position;
                assert(free_run(self.board, self.piece(), pos.x as int, pos.y as int, self.rotation as int, 0, 1, 0) == 0);
                assert(pos.x + 0 * 1 == pos.x && pos.y + 1 * 1 == pos.y + 1);
                assert(free_run(self.board, self.piece(), pos.x as int, pos.y as int, self.rotation as int, 0, 1, 1)
                    == if !self.board.collides_at(&self.piece(), pos.x as int, pos.y + 1, self.rotation as int) { 1nat } else { 0nat });
            }
            if !self.move_piece_y(1) {
                self.place_piece();
                let ghost m = *self;
                if !self.new_piece() {
                    assert(locked(*old(self), m));
                    return true;
                }
                assert(locked(*old(self), m));
            }
        }
        false
    }

    /// Advances the effects and draws them, then, unless a blocking effect
    /// holds the game clock, the board, the ghost and the piece.
    fn render(&mut self, out: &mut Frame)
        requires
            old(self).wf(),
        ensures
            final(self).wf(),
            *final(self) == (RunningState { animations: final(self).animations, anim_clock: final(self).anim_clock,
                game_clock: final(self).game_clock, ..*old(self) }),
            final(self).game_clock.elapsed_spec() == old(self).game_clock.elapsed_spec(),
            exists|e: Seq<Scheduled>, drop_y: int| #[trigger] frame_drawn(*final(self), e, drop_y, old(out).blocks@, final(out).blocks@),
            final(out).status == old(out).status,
    {
        let empty = self.animations.is_empty();
        self.anim_clock.toggle(empty);
        let anim_ts = self.anim_clock.elapsed();
        let ghost e = self.animations.entries();
        let mut drawn = self.animations.tick(anim_ts);
        let ghost pre = drawn@;
        let ghost start = out.blocks@;
        out.blocks.append(&mut drawn);
        let ghost mut dy: int = 0;
        let block = self.animations.should_block();
        self.game_clock.toggle(block);
        if !self.game_clock.is_suspended() {
            let mut cells = self.board.draw();
            out.blocks.append(&mut cells);
            proof {
                self.bag.lemma_current();
            }
            let piece = self.bag.current();
            let drop_pos = self.board.find_drop_position(piece, &self.position, self.rotation);
            proof {
                let rot = self.rotation as int;
                assert forall|bx: int, by: int| #[trigger] piece.occupied(rot, bx, by) implies 0 <= drop_pos.x + bx && 0 <= drop_pos.y + by by {
                    assert(!self.board.blocked(drop_pos.x + bx, drop_pos.y + by));
                }
                assert forall|bx: int, by: int| #[trigger] piece.occupied(rot, bx, by) implies 0 <= self.position.x + bx && 0 <= self.position.y + by by {
                    assert(!self.board.blocked(self.position.x + bx, self.position.y + by));
                }
            }
            let mut ghost_blocks = piece.draw(&drop_pos, self.rotation, GHOST_INTENSITY);
            out.blocks.append(&mut ghost_blocks);
            let mut piece_blocks = piece.draw(&self.position, self.rotation, 1000);
            out.blocks.append(&mut piece_blocks);
            assert(out.blocks@ =~= start + pre + play_frame(*self, drop_pos.y as int));
            assert(is_drop_row(self.board, self.piece(), self.position.x as int, self.position.y as int, self.rotation as int, drop_pos.y as int));
            proof {
                dy = drop_pos.y as int;
            }
        }
        assert(frame_drawn(*self, e, dy, old(out).blocks@, out.blocks@));

    }

    /// One frame after the clocks were updated: input, gravity, animations,
    /// then the board, the ghost and the piece, and every other frame the
    /// statistics. True iff the game is over.
    fn update(&mut self, controller: &Controller, out: &mut Frame) -> (over: bool)
        requires
            old(self).wf(),
        ensures
            same_size(*old(self), *final(self)),
            final(self).parts_wf(),
            final(self).now() == old(self).now(),
            !over ==> final(self).wf(),
            triggered(controller.button_input, INPUT_GAME_STOP) ==> over,
            over ==> triggered(controller.button_input, INPUT_GAME_STOP) || spawn_blocked(*final(self)),
            !triggered(controller.button_input, INPUT_GAME_STOP)
                && (old(self).spec_game_clock().spec_suspended() || !drop_requested(*controller))
                && !gravity_due(*old(self)) ==> !over,
            over ==> final(out).blocks@ == old(out).blocks@ && final(out).status@ == old(out).status@,
            !over ==> exists|e: Seq<Scheduled>, drop_y: int| #[trigger] frame_drawn(*final(self), e, drop_y, old(out).blocks@, final(out).blocks@),
            !over ==> final(out).status@ == if old(self).spec_frame_index() % 2 == 0 {
                old(out).status@.push(stats_of(*final(self)))
            } else {
                old(out).status@
            },
    {
        if self.handle_input(controller) {
            return true;
        }
        let ghost after_input = *self;
        if self.apply_gravity() {
            proof {
                let (m) = choose|m: RunningState| #[trigger] locked(after_input, m) && spawned(m, *self, false);
            }
            return true;
        }
        let ghost blocks0 = out.blocks@;
        self.render(out);
        let ghost (e, d) = choose|e: Seq<Scheduled>, d: int| #[trigger] frame_drawn(*self, e, d, blocks0, out.blocks@);
        if self.frame_index % 2 == 0 {
            let elapsed = self.real_clock.elapsed();
            out.status.push(Status::Stats { elapsed, score: self.score, lines: self.num_cleared_lines, level: self.level });
        }
        assert(frame_drawn(*self, e, d, old(out).blocks@, out.blocks@));
        false
    }

    /// Runs one frame at `timestamp`. True iff the game is over.
    pub fn tick(&mut self, timestamp: u64, controller: &Controller, out: &mut Frame) -> (over: bool)
        requires
            old(self).wf(),
            old(self).now() <= timestamp <= MAX_TIMESTAMP,
        ensures
            same_size(*old(self), *final(self)),
            final(self).parts_wf(),
            final(self).now() == timestamp,
            !over ==> final(self).wf(),
            triggered(controller.button_input, INPUT_GAME_STOP) ==> over,
            over ==> triggered(controller.button_input, INPUT_GAME_STOP) || spawn_blocked(*final(self)),
            !triggered(controller.button_input, INPUT_GAME_STOP)
                && (old(self).spec_game_clock().spec_suspended() || !drop_requested(*controller))
                && !passed_multiple(old(self).spec_game_clock().elapsed_spec(),
                    old(self).spec_game_clock().elapsed_after_update(timestamp as int), fall_interval(old(self).spec_level() as int) as int,
                    old(self).spec_fall_timer() as int) ==> !over,
            over ==> final(out).blocks@ == old(out).blocks@ && final(out).status@ == old(out).status@,
            !over ==> exists|e: Seq<Scheduled>, drop_y: int| #[trigger] frame_drawn(*final(self), e, drop_y, old(out).blocks@, final(out).blocks@),
            !over ==> final(out).status@ == if old(self).spec_frame_index() % 2 == 0 {
                old(out).status@.push(stats_of(*final(self)))
            } else {
                old(out).status@
            },
    {
        self.last_ts = timestamp;
        self.real_clock.update(timestamp);
        self.anim_clock.update(timestamp);
        self.game_clock.update(timestamp);
        let over = self.update(controller, out);
        let ghost mid = *self;
        self.frame_index = if self.frame_index < u32::MAX { self.frame_index + 1 } else { 0 };
        proof {
            assert forall|d: int| play_frame(mid, d) == play_frame(*self, d) by {
                assert(mid.piece() == self.piece());
            }
            if !over {
                let (e, d) = choose|e: Seq<Scheduled>, d: int| #[trigger] frame_drawn(mid, e, d, old(out).blocks@, out.blocks@);
                assert(play_frame(mid, d) == play_frame(*self, d));
                assert(frame_drawn(*self, e, d, old(out).blocks@, out.blocks@));
                assert(stats_of(mid) == stats_of(*self));
            }
        }
        over
    }

    /// The board's size stays playable.
    pub proof fn lemma_parts(&self)
        requires
            self.parts_wf(),
        ensures
            self.spec_board().spec_width() <= i32::MAX,
            self.spec_board().spec_height() <= i32::MAX,
            self.spec_board().spec_width() * self.spec_board().spec_height() <= usize::MAX,
    {
        self.board.lemma_dims();
    }

    /// A new game on an empty `board_width` by `board_height` board, with
    /// the first standard piece entering at the top.
    pub fn new(timestamp: u64, board_width: usize, board_height: usize) -> (s: Self)
        requires
            board_width <= i32::MAX,
            board_height <= i32::MAX,
            board_width * board_height <= usize::MAX,
            timestamp <= MAX_TIMESTAMP,
        ensures
            s.parts_wf(),
            s.wf() <==> !spawn_blocked(s),
            4 <= board_width && 1 <= board_height ==> !spawn_blocked(s),
            s.now() == timestamp,
            s.spec_board().is_empty(),
            s.spec_board().spec_width() == board_width,
            s.spec_board().spec_height() == board_height,
            s.spec_rotation() == 0,
            s.spec_score() == 0,
            s.spec_lines() == 0,
            s.spec_level() == 1,
            s.spec_bag().index() == 0,
            s.spec_bag().pieces().len() == 7,
            forall|i: int| 0 <= i < 7 ==> catalog_piece(#[trigger] s.spec_bag().pieces()[i], i, standard_stride(i),
                |x: int, y: int| standard_block(i, x, y)),
            s.spec_position().x == spawn_position(s.spec_board(), s.piece()).0,
            s.spec_position().y == spawn_position(s.spec_board(), s.piece()).1,
            s.spec_animations().entries().len() == 0,
            s.spec_frame_index() == 0,
            s.spec_fall_timer() == 0,
    {
        let board = Board::new(board_width, board_height);
        let pieces = make_standard();
        proof {
            assert forall|i: int| 0 <= i < pieces@.len() implies (#[trigger] pieces@[i]).wf() by {
                lemma_catalog_piece(pieces@[i], i, standard_stride(i), |x: int, y: int| standard_block(i, x, y));
            }
            lemma_catalog_piece(pieces@[0], 0, standard_stride(0), |x: int, y: int| standard_block(0, x, y));
        }
        let bag = Bag::new(pieces);
        let rotation: usize = 0;
        let position = board.initial_position(bag.current(), rotation);
        proof {
            let p = pieces@[0];
            assert(p.occupied(0, 0, 1));
            assert(p.occupied(0, 3, 1));
            assert(p.is_min_x(0, 0));
            assert(p.is_max_x(0, 3));
            assert(p.is_min_y(0, 1));
            let a = p.min_x(0);
            assert(p.is_min_x(0, a));
            let b = p.max_x(0);
            assert(p.is_max_x(0, b));
            let c = p.min_y(0);
            assert(p.is_min_y(0, c));
            let (ax, ay) = choose|x: int, y: int| p.occupied(0, x, y) && x == a;
            let (bx, by) = choose|x: int, y: int| p.occupied(0, x, y) && x == b;
            let (cx, cy) = choose|x: int, y: int| p.occupied(0, x, y) && y == c;
            assert(a == 0 && b == 3 && c == 1);
            if 4 <= board_width && 1 <= board_height {
                assert forall|bx2: int, by2: int| #[trigger] p.occupied(0, bx2, by2) implies !board.blocked(position.x + bx2, position.y + by2) by {
                    assert(standard_block(0, bx2, by2));
                    assert(by2 == 1 && 0 <= bx2 < 4);
                    assert(position.x == board_width / 2 - 2);
                    assert(position.y == -1);
                    assert(board.in_bounds(position.x + bx2, position.y + by2));
                    assert(board.cell(position.x + bx2, position.y + by2).is_none());
                }
            }
        }
        let mut animations = AnimationQueue::new();
        Self {
            real_clock: Clock::new(),
            anim_clock: Clock::new(),
            game_clock: Clock::new(),
            frame_index: 0,
            bag,
            board,
            position,
            rotation,
            fall_timer: 0,
            score: 0,
            num_cleared_lines: 0,
            level: 1,
            animations,
            last_ts: timestamp,
        }
    }
}

/// Whether button `id` went down at the current frame.
pub open spec fn triggered(b: ButtonInput, id: InputId) -> bool {
    b.pressed_at(id).is_some() && !b.was_down(id)
}

/// Whether a touch that ended at the current frame was an upward swipe.
pub open spec fn swiped_up(t: TouchInput) -> bool {
    t.finished().filter(|e: TouchEntry| is_gesture(Gesture::SwipeUp, TOUCH_SWIPE_DISTANCE_THRESHOLD, 0, e)).len() > 0
}

/// Whether a board size is one the game plays on.
pub fn playable_size(w: usize, h: usize) -> (r: bool)
    ensures
        r == playable(w as int, h as int),
{
    if w < 4 || h < 4 || w > i32::MAX as usize || h > i32::MAX as usize {
        return false;
    }
    w.checked_mul(h).is_some()
}

/// The title screen: a sparkle of pieces until a game is started.
pub struct TitleState {
    board_width: usize,
    board_height: usize,
    animations: AnimationQueue,
}

/// Whether a board size is one the game plays on.
pub open spec fn playable(w: int, h: int) -> bool {
    4 <= w <= i32::MAX && 4 <= h <= i32::MAX && w * h <= usize::MAX
}

impl TitleState {
    /// The queue of effects.
    pub closed spec fn spec_animations(&self) -> AnimationQueue {
        self.animations
    }

    /// A playable board size, and only effects that do not block.
    pub closed spec fn wf(&self) -> bool {
        &&& playable(self.board_width as int, self.board_height as int)
        &&& self.animations.wf()
        &&& forall|i: int| 0 <= i < self.animations.entries().len() ==> !(#[trigger] self.animations.entries()[i]).animation.blocking()
    }

    pub fn new(board_width: usize, board_height: usize) -> (t: Self)
        requires
            playable(board_width as int, board_height as int),
        ensures
            t.wf(),
    {
        let mut animations = AnimationQueue::new();
        animations.endless(Animation::Title(TitleAnimation::new(board_width, board_height)));
        Self { board_width, board_height, animations }
    }

    /// Runs one frame: draws the animations and, unless one of them blocks,
    /// starts a game on the start button or an upward swipe.
    pub fn tick(&mut self, timestamp: u64, controller: &Controller, out: &mut Frame) -> (r: Option<RunningState>)
        requires
            old(self).wf(),
            timestamp <= MAX_TIMESTAMP,
        ensures
            final(self).wf(),
            r.is_some() == (triggered(controller.button_input, INPUT_GAME_START) || swiped_up(controller.touch_input)),
            final(out).blocks@ == old(out).blocks@ + queue_frame(old(self).spec_animations().entries(), timestamp as int),
            final(out).status == old(out).status,
            r matches Some(s) ==> s.wf() && s.now() == timestamp && s.spec_board().is_empty() && s.spec_score() == 0
                && playable(s.spec_board().spec_width(), s.spec_board().spec_height()),
    {
        let ghost before = self.animations.entries();
        let mut drawn = self.animations.tick(timestamp);
        assert forall|i: int| 0 <= i < self.animations.entries().len() implies !(#[trigger] self.animations.entries()[i]).animation.blocking() by {
            assert(before.contains(self.animations.entries()[i]));
        }
        out.blocks.append(&mut drawn);
        if self.animations.should_block() {
            return None;
        }
        if controller.button_input.is_triggered(INPUT_GAME_START) {
            return Some(RunningState::new(timestamp, self.board_width, self.board_height));
        }
        let swipes = controller.touch_input.swipes_up(TOUCH_SWIPE_DISTANCE_THRESHOLD);
        if swipes.len() > 0 {
            return Some(RunningState::new(timestamp, self.board_width, self.board_height));
        }
        None
    }
}

/// The end of a game: the game-over wipe, then back to the title screen.
pub struct GameOverState {
    board_width: usize,
    board_height: usize,
    animations: AnimationQueue,
}

impl GameOverState {
    pub closed spec fn wf(&self) -> bool {
        playable(self.board_width as int, self.board_height as int) && self.animations.wf()
    }

    /// Whether the game-over wipe is still running.
    pub closed spec fn blocks(&self) -> bool {
        self.animations.blocks()
    }

    /// The queue of effects.
    pub closed spec fn spec_animations(&self) -> AnimationQueue {
        self.animations
    }

    /// Whether a blocking effect is still due after `ts`.
    pub open spec fn blocks_after(&self, ts: int) -> bool {
        let q = self.spec_animations().entries();
        exists|i: int| 0 <= i < q.len() && (#[trigger] q[i]).animation.blocking() && alive(q[i], ts)
    }

    pub fn new(timestamp: u64, board_width: usize, board_height: usize) -> (g: Self)
        requires
            playable(board_width as int, board_height as int),
            timestamp <= MAX_TIMESTAMP,
        ensures
            g.wf(),
            g.blocks(),
    {
        let mut animations = AnimationQueue::new();
        let anim = GameOverAnimation::new(board_width, board_height);
        animations.schedule(timestamp, ANIMATION_DURATION_GAME_OVER, Animation::GameOver(anim));
        assert(animations.entries()[0].animation.blocking());
        Self { board_width, board_height, animations }
    }

    /// Runs one frame: draws the wipe and, once it is over, returns to the
    /// title screen on the start or stop button or an upward swipe.
    pub fn tick(&mut self, timestamp: u64, controller: &Controller, out: &mut Frame) -> (r: Option<TitleState>)
        requires
            old(self).wf(),
        ensures
            final(self).wf(),
            r matches Some(t) ==> t.wf(),
            r.is_some() == (!old(self).blocks_after(timestamp as int) && (triggered(controller.button_input, INPUT_GAME_START)
                || triggered(controller.button_input, INPUT_GAME_STOP) || swiped_up(controller.touch_input))),
            final(out).blocks@ == old(out).blocks@ + queue_frame(old(self).spec_animations().entries(), timestamp as int),
            final(out).status == old(out).status,
    {
        let ghost q = self.animations.entries();
        let ghost pred = |e: Scheduled| alive(e, timestamp as int);
        let mut drawn = self.animations.tick(timestamp);
        out.blocks.append(&mut drawn);
        proof {
            broadcast use vstd::seq_lib::group_filter_ensures;
            let f = self.animations.entries();
            assert(f == q.filter(pred));
            if old(self).blocks_after(timestamp as int) {
                let i = choose|i: int| 0 <= i < q.len() && (#[trigger] q[i]).animation.blocking() && alive(q[i], timestamp as int);
                assert(q.filter(pred).contains(q[i]));
                let j = choose|j: int| 0 <= j < f.len() && f[j] == q[i];
                assert(f[j].animation.blocking());
                assert(self.animations.blocks());
            }
            if self.animations.blocks() {
                let j = choose|j: int| 0 <= j < f.len() && (#[trigger] f[j]).animation.blocking();
                assert(q.contains(f[j]));
                assert(pred(q.filter(pred)[j]));
                let i = choose|i: int| 0 <= i < q.len() && q[i] == f[j];
                assert(old(self).blocks_after(timestamp as int));
            }
        }
        if self.animations.should_block() {
            return None;
        }
        let is_start = controller.button_input.is_triggered(INPUT_GAME_START);
        let is_stop = controller.button_input.is_triggered(INPUT_GAME_STOP);
        if is_start || is_stop {
            return Some(TitleState::new(self.board_width, self.board_height));
        }
        let swipes = controller.touch_input.swipes_up(TOUCH_SWIPE_DISTANCE_THRESHOLD);
        if swipes.len() > 0 {
            return Some(TitleState::new(self.board_width, self.board_height));
        }
        None
    }
}

/// The state the game is in.
pub enum GameState {
    Title(TitleState),
    Running(RunningState),
    GameOver(GameOverState),
}

/// The whole game: the input state and the current state.
pub struct Game {
    controller: Controller,
    state: GameState,
    last_ts: u64,
    pending: Vec<Status>,
}

impl Game {
    pub closed spec fn wf(&self) -> bool {
        &&& self.controller.wf()
        &&& self.last_ts <= MAX_TIMESTAMP
        &&& match self.state {
            GameState::Title(t) => t.wf(),
            GameState::Running(r) => r.wf() && r.now() <= self.last_ts
                && playable(r.spec_board().spec_width(), r.spec_board().spec_height()),
            GameState::GameOver(g) => g.wf(),
        }
    }

    /// The latest timestamp seen.
    pub closed spec fn now(&self) -> u64 {
        self.last_ts
    }

    pub closed spec fn spec_state(&self) -> &GameState {
        &self.state
    }

    pub closed spec fn spec_controller(&self) -> Controller {
        self.controller
    }

    /// The latest timestamp seen.
    pub fn last_timestamp(&self) -> (r: u64)
        ensures
            r == self.now(),
    {
        self.last_ts
    }

    /// A game on a `board_width` by `board_height` board, at the title
    /// screen.
    pub fn new(timestamp: u64, board_width: usize, board_height: usize) -> (g: Self)
        requires
            playable(board_width as int, board_height as int),
            timestamp <= MAX_TIMESTAMP,
        ensures
            g.wf(),
            g.now() == timestamp,
            g.spec_state() is Title,
    {
        let mut pending: Vec<Status> = Vec::new();
        pending.push(Status::TitleScreen);
        Self {
            controller: Controller::new(),
            state: GameState::Title(TitleState::new(board_width, board_height)),
            last_ts: timestamp,
            pending,
        }
    }

    /// A key went down (`state != 0`) or up: the button `(0, key_code)`
    /// is pressed or released.
    pub fn key_handler(&mut self, key_code: i32, state: i32)
        requires
            old(self).wf(),
        ensures
            final(self).wf(),
            final(self).now() == old(self).now(),
            final(self).spec_state() == old(self).spec_state(),
            key_code >= 0 && state != 0 ==> final(self).spec_controller().button_input.pressed_at((0, key_code as usize)).is_some(),
            key_code >= 0 && state == 0 ==> final(self).spec_controller().button_input.pressed_at((0, key_code as usize)).is_none(),
    {
        let code: usize = #[verifier::truncate] (key_code as usize);
        if state != 0 {
            self.controller.button_input.button_press((0, code));
        } else {
            self.controller.button_input.button_release((0, code));
        }
    }

    /// Passes the event to the touch state: see `TouchInput::touch_start`.
    pub fn touch_start_handler(&mut self, touch_id: i32, x: i32, y: i32)
        requires
            old(self).wf(),
        ensures
            final(self).wf(),
            final(self).now() == old(self).now(),
            final(self).spec_state() == old(self).spec_state(),
            final(self).spec_controller().button_input == old(self).spec_controller().button_input,
            final(self).spec_controller().touch_input.finished() == old(self).spec_controller().touch_input.finished(),
            final(self).spec_controller().touch_input.active_before() == old(self).spec_controller().touch_input.active_before(),
            find_last(final(self).spec_controller().touch_input.active(), touch_id) == Some((
                Touch { position: Position { x, y }, timestamp: old(self).spec_controller().touch_input.now() },
                Touch { position: Position { x, y }, timestamp: old(self).spec_controller().touch_input.now() },
            )),
            forall|k: i32| k != touch_id ==> #[trigger] find_last(final(self).spec_controller().touch_input.active(), k) == find_last(old(self).spec_controller().touch_input.active(), k),
    {
        self.controller.touch_input.touch_start(touch_id, x, y);
    }

    /// Passes the event to the touch state: see `TouchInput::touch_end`.
    pub fn touch_end_handler(&mut self, touch_id: i32, x: i32, y: i32)
        requires
            old(self).wf(),
        ensures
            final(self).wf(),
            final(self).now() == old(self).now(),
            final(self).spec_state() == old(self).spec_state(),
            final(self).spec_controller().button_input == old(self).spec_controller().button_input,
            final(self).spec_controller().touch_input.active_before() == old(self).spec_controller().touch_input.active_before(),
            find_last(final(self).spec_controller().touch_input.active(), touch_id).is_none(),
            forall|k: i32| k != touch_id ==> #[trigger] find_last(final(self).spec_controller().touch_input.active(), k) == find_last(old(self).spec_controller().touch_input.active(), k),
            find_last(final(self).spec_controller().touch_input.finished(), touch_id) == match find_last(old(self).spec_controller().touch_input.active(), touch_id) {
                Some(e) => Some((e.0, Touch { position: Position { x, y }, timestamp: old(self).spec_controller().touch_input.now() })),
                None => find_last(old(self).spec_controller().touch_input.finished(), touch_id),
            },
            forall|k: i32| k != touch_id ==> #[trigger] find_last(final(self).spec_controller().touch_input.finished(), k) == find_last(old(self).spec_controller().touch_input.finished(), k),
    {
        self.controller.touch_input.touch_end(touch_id, x, y);
    }

    /// Passes the event to the touch state: see `TouchInput::touch_cancel`.
    pub fn touch_cancel_handler(&mut self, touch_id: i32, x: i32, y: i32)
        requires
            old(self).wf(),
        ensures
            final(self).wf(),
            final(self).now() == old(self).now(),
            final(self).spec_state() == old(self).spec_state(),
            final(self).spec_controller().button_input == old(self).spec_controller().button_input,
            final(self).spec_controller().touch_input.finished() == old(self).spec_controller().touch_input.finished(),
            final(self).spec_controller().touch_input.active_before() == old(self).spec_controller().touch_input.active_before(),
            find_last(final(self).spec_controller().touch_input.active(), touch_id).is_none(),
            forall|k: i32| k != touch_id ==> #[trigger] find_last(final(self).spec_controller().touch_input.active(), k) == find_last(old(self).spec_controller().touch_input.active(), k),
    {
        self.controller.touch_input.touch_cancel(touch_id, x, y);
    }

    /// Passes the event to the touch state: see `TouchInput::touch_move`.
    pub fn touch_move_handler(&mut self, touch_id: i32, x: i32, y: i32)
        requires
            old(self).wf(),
        ensures
            final(self).wf(),
            final(self).now() == old(self).now(),
            final(self).spec_state() == old(self).spec_state(),
            final(self).spec_controller().button_input == old(self).spec_controller().button_input,
            final(self).spec_controller().touch_input.finished() == old(self).spec_controller().touch_input.finished(),
            final(self).spec_controller().touch_input.active_before() == old(self).spec_controller().touch_input.active_before(),
            find_last(final(self).spec_controller().touch_input.active(), touch_id) == match find_last(old(self).spec_controller().touch_input.active(), touch_id) {
                Some(e) => Some((e.0, Touch { position: Position { x, y }, timestamp: old(self).spec_controller().touch_input.now() })),
                None => None,
            },
            forall|k: i32| k != touch_id ==> #[trigger] find_last(final(self).spec_controller().touch_input.active(), k) == find_last(old(self).spec_controller().touch_input.active(), k),
    {
        self.controller.touch_input.touch_move(touch_id, x, y);
    }

    /// Runs one frame at `timestamp`: the current state's frame and its
    /// transition, then a new input frame. Returns what to show.
    pub fn tick(&mut self, timestamp: u64) -> (f: Frame)
        requires
            old(self).wf(),
            old(self).now() <= timestamp <= MAX_TIMESTAMP,
        ensures
            final(self).wf(),
            final(self).now() == timestamp,
            ({
                let b = old(self).spec_controller().button_input;
                let t = old(self).spec_controller().touch_input;
                match old(self).spec_state() {
                    GameState::Title(_) => if triggered(b, INPUT_GAME_START) || swiped_up(t) {
                        final(self).spec_state() is Running
                    } else {
                        final(self).spec_state() is Title
                    },
                    GameState::Running(r) => if triggered(b, INPUT_GAME_STOP) {
                        final(self).spec_state() is GameOver
                    } else {
                        &&& final(self).spec_state() is Running || final(self).spec_state() is GameOver
                        &&& (r.spec_game_clock().spec_suspended() || !drop_requested(old(self).spec_controller()))
                            && !passed_multiple(r.spec_game_clock().elapsed_spec(), r.spec_game_clock().elapsed_after_update(
                            timestamp as int), fall_interval(r.spec_level() as int) as int, r.spec_fall_timer() as int)
                            ==> final(self).spec_state() is Running
                    },
                    GameState::GameOver(g) => if !g.blocks_after(timestamp as int) && (triggered(b, INPUT_GAME_START)
                        || triggered(b, INPUT_GAME_STOP) || swiped_up(t)) {
                        final(self).spec_state() is Title
                    } else {
                        final(self).spec_state() is GameOver
                    },
                }
            }),
            old(self).spec_state() matches GameState::Title(t) ==> f.blocks@ == queue_frame(t.spec_animations().entries(),
                timestamp as int),
            old(self).spec_state() matches GameState::GameOver(g) ==> f.blocks@ == queue_frame(g.spec_animations().entries(),
                timestamp as int),
            old(self).spec_state() is Running ==> match final(self).spec_state() {
                GameState::Running(r) => exists|e: Seq<Scheduled>, drop_y: int| #[trigger] frame_drawn(*r, e, drop_y, Seq::empty(), f.blocks@),
                _ => true,
            },
            old(self).spec_state() is Title && final(self).spec_state() is Running ==> f.status@.len() > 0
                && f.status@.last() == Status::Playing,
            old(self).spec_state() is Running && final(self).spec_state() is GameOver ==> f.status@.len() > 0
                && f.status@.last() == Status::GameOverScreen,
            old(self).spec_state() is GameOver && final(self).spec_state() is Title ==> f.status@.len() > 0
                && f.status@.last() == Status::TitleScreen,
    {
        let mut status: Vec<Status> = Vec::new();
        std::mem::swap(&mut status, &mut self.pending);
        let mut out = Frame { blocks: Vec::new(), status };
        let next: Option<GameState> = match &mut self.state {
            GameState::Title(t) => {
                match t.tick(timestamp, &self.controller, &mut out) {
                    Some(r) => {
                        out.status.push(Status::Playing);
                        Some(GameState::Running(r))
                    },
                    None => None,
                }
            },
            GameState::Running(r) => {
                if r.tick(timestamp, &self.controller, &mut out) {
                    let w = r.board().width();
                    let h = r.board().height();
                    proof {
                        r.lemma_parts();
                    }
                    out.status.push(Status::GameOverScreen);
                    Some(GameState::GameOver(GameOverState::new(timestamp, w, h)))
                } else {
                    None
                }
            },
            GameState::GameOver(g) => {
                match g.tick(timestamp, &self.controller, &mut out) {
                    Some(t) => {
                        out.status.push(Status::TitleScreen);
                        Some(GameState::Title(t))
                    },
                    None => None,
                }
            },
        };
        if let Some(n) = next {
            self.state = n;
        }
        self.last_ts = timestamp;
        self.controller.button_input.update(timestamp);
        self.controller.touch_input.update(timestamp);
        out
    }
}

} // verus!
