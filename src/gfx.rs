use vstd::prelude::*;
use crate::piece::{Piece, make_standard, lemma_catalog_piece, standard_stride, standard_block};
use crate::util::{LinearCongruentialGenerator, lcg_step};

verus! {

/// A 24-bit colour.
#[derive(Clone, Copy, Debug, PartialEq, Eq, Structural)]
pub struct Color {
    pub r: u8,
    pub g: u8,
    pub b: u8,
}

/// The packed `0xRRGGBB` value of the channels.
pub open spec fn packed(r: u8, g: u8, b: u8) -> u32 {
    (r as int * 65536 + g as int * 256 + b as int) as u32
}

/// `a` and `b` blended by `t` thousandths of `b`, rounded to the nearest
/// integer (halves upwards).
pub open spec fn mix_channel(a: u8, b: u8, t: int) -> u8 {
    ((a as int * (1000 - t) + b as int * t + 500) / 1000) as u8
}

impl Color {
    pub fn black() -> (r: Self)
        ensures
            r == (Color { r: 0, g: 0, b: 0 }),
    {
        Self::rgb(0, 0, 0)
    }

    pub fn white() -> (r: Self)
        ensures
            r == (Color { r: 255, g: 255, b: 255 }),
    {
        Self::rgb(255, 255, 255)
    }

    pub fn rgb(r: u8, g: u8, b: u8) -> (c: Self)
        ensures
            c == (Color { r, g, b }),
    {
        Self { r, g, b }
    }

    /// The colour of a packed `0xRRGGBB` value; higher bits are ignored.
    pub fn from_argb32(value: u32) -> (c: Self)
        ensures
            c.r == (value / 65536) % 256,
            c.g == (value / 256) % 256,
            c.b == value % 256,
    {
        Self {
            r: ((value / 65536) % 256) as u8,
            g: ((value / 256) % 256) as u8,
            b: (value % 256) as u8,
        }
    }

    /// The packed `0xRRGGBB` value.
    pub fn to_argb32(&self) -> (v: u32)
        ensures
            v == packed(self.r, self.g, self.b),
            v < 0x1_000000,
    {
        self.r as u32 * 65536 + self.g as u32 * 256 + self.b as u32
    }

    /// This colour blended towards `other` by `t` thousandths.
    pub fn mix(&self, other: &Color, t: u32) -> (c: Self)
        requires
            t <= 1000,
        ensures
            c.r == mix_channel(self.r, other.r, t as int),
            c.g == mix_channel(self.g, other.g, t as int),
            c.b == mix_channel(self.b, other.b, t as int),
    {
        Self {
            r: mix_u8(self.r, other.r, t),
            g: mix_u8(self.g, other.g, t),
            b: mix_u8(self.b, other.b, t),
        }
    }

    /// This colour at `t` thousandths of its intensity (black at 0).
    pub fn fade(&self, t: u32) -> (c: Self)
        requires
            t <= 1000,
        ensures
            c.r == mix_channel(0, self.r, t as int),
            c.g == mix_channel(0, self.g, t as int),
            c.b == mix_channel(0, self.b, t as int),
    {
        Self::black().mix(self, t)
    }
}

fn mix_u8(a: u8, b: u8, t: u32) -> (r: u8)
    requires
        t <= 1000,
    ensures
        r == mix_channel(a, b, t as int),
{
    let a32 = a as u32;
    let b32 = b as u32;
    assert(a32 * (1000 - t) <= 255000 && b32 * t <= 255000) by (nonlinear_arith)
        requires
            a32 <= 255,
            b32 <= 255,
            t <= 1000,
    ;
    let n: u32 = a32 * (1000 - t) + b32 * t + 500;
    (n / 1000) as u8
}

/// A block to draw: column, row and packed colour.
pub type Block = (u32, u32, u32);

/// The packed value of `c` at `t` thousandths of its intensity.
pub open spec fn faded(c: Color, t: int) -> u32 {
    packed(mix_channel(0, c.r, t), mix_channel(0, c.g, t), mix_channel(0, c.b, t))
}

/// `w` blocks of colour `c` along row `y`, left to right.
pub open spec fn row_blocks(w: int, y: int, c: u32) -> Seq<Block> {
    Seq::new(w as nat, |x: int| (x as u32, y as u32, c))
}

/// The blocks `points` offset by (x, y), in colour `c`.
pub open spec fn point_blocks(points: Seq<(usize, usize)>, x: int, y: int, c: u32) -> Seq<Block> {
    Seq::new(points.len(), |k: int| ((x + points[k].0) as u32, (y + points[k].1) as u32, c))
}

/// Whether `points` offset by (x, y) all have coordinates that fit a `u32`.
pub open spec fn points_fit(points: Seq<(usize, usize)>, x: int, y: int) -> bool {
    forall|k: int| 0 <= k < points.len() ==> {
        &&& (#[trigger] points[k]).0 <= u32::MAX && points[k].1 <= u32::MAX
        &&& 0 <= x + points[k].0 <= u32::MAX && 0 <= y + points[k].1 <= u32::MAX
    }
}

pub(crate) fn push_row(r: &mut Vec<Block>, w: usize, y: u32, c: u32)
    requires
        w <= 0x1_0000_0000,
    ensures
        final(r)@ == old(r)@ + row_blocks(w as int, y as int, c),
{
    let ghost start = r@;
    let mut x: usize = 0;
    while x < w
        invariant
            w <= 0x1_0000_0000,
            x <= w,
            r@ == start + row_blocks(x as int, y as int, c),
        decreases w - x,
    {
        r.push((x as u32, y, c));
        x = x + 1;
        assert(r@ =~= start + row_blocks(x as int, y as int, c));
    }
}

pub(crate) fn push_points(r: &mut Vec<Block>, points: &Vec<(usize, usize)>, x: i64, y: i64, c: u32)
    requires
        points_fit(points@, x as int, y as int),
    ensures
        final(r)@ == old(r)@ + point_blocks(points@, x as int, y as int, c),
{
    let ghost start = r@;
    let mut k: usize = 0;
    while k < points.len()
        invariant
            points_fit(points@, x as int, y as int),
            k <= points@.len(),
            r@ == start + point_blocks(points@.take(k as int), x as int, y as int, c),
        decreases points@.len() - k,
    {
        let (bx, by) = points[k];
        assert(0 <= x + points@[k as int].0 <= u32::MAX);
        let px = (x + bx as i64) as u32;
        let py = (y + by as i64) as u32;
        r.push((px, py, c));
        k = k + 1;
        assert(r@ =~= start + point_blocks(points@.take(k as int), x as int, y as int, c));
    }
    assert(points@.take(points@.len() as int) =~= points@);
}

pub(crate) fn faded_value(c: Color, t: u32) -> (v: u32)
    requires
        t <= 1000,
    ensures
        v == faded(c, t as int),
{
    c.fade(t).to_argb32()
}

/// The colour of a line being cleared at `t` thousandths of the animation:
/// from white fading to black with an ease-out curve until 700, black after.
pub open spec fn line_clear_color(t: int) -> u32 {
    let t = if t > 1000 { 1000 } else { t };
    if t <= 700 {
        let u = 1000 - t * 1000 / 700;
        faded(Color { r: 255, g: 255, b: 255 }, u * (2000 - u) / 1000)
    } else {
        0
    }
}

/// The frame of a line-clear animation: each of `rows` drawn `w` wide.
pub open spec fn line_clear_frame(rows: Seq<usize>, w: int, c: u32) -> Seq<Block>
    decreases rows.len(),
{
    if rows.len() == 0 {
        Seq::empty()
    } else {
        line_clear_frame(rows.drop_last(), w, c) + row_blocks(w, rows.last() as int, c)
    }
}

/// Cleared rows flash white and fade to black.
pub struct LineClearAnimation {
    pub rows: Vec<usize>,
    pub width: usize,
}

impl LineClearAnimation {
    pub open spec fn wf(&self) -> bool {
        self.width <= 0x1_0000_0000
    }

    pub fn new(rows: Vec<usize>, width: usize) -> (a: Self)
        ensures
            a.rows == rows,
            a.width == width,
    {
        Self { rows, width }
    }

    /// The blocks to draw at `t` thousandths of the animation.
    pub fn draw(&self, t: u64) -> (r: Vec<Block>)
        requires
            self.wf(),
        ensures
            r@ == line_clear_frame(self.rows@, self.width as int, line_clear_color(t as int)),
    {
        let t: u32 = if t > 1000 { 1000 } else { t as u32 };
        let color: u32 = if t <= 700 {
            let u = 1000 - t * 1000 / 700;
            faded_value(Color::white(), crate::ease::quadratic_out(u))
        } else {
            0
        };
        let mut r: Vec<Block> = Vec::new();
        let mut i: usize = 0;
        while i < self.rows.len()
            invariant
                self.wf(),
                i <= self.rows@.len(),
                r@ == line_clear_frame(self.rows@.take(i as int), self.width as int, color),
            decreases self.rows@.len() - i,
        {
            push_row(&mut r, self.width, self.rows[i] as u32, color);
            assert(self.rows@.take(i + 1).drop_last() =~= self.rows@.take(i as int));
            i = i + 1;
        }
        assert(self.rows@.take(self.rows@.len() as int) =~= self.rows@);
        r
    }
}

/// The intensity, in thousandths, of row `y` of a drop trail from `y1` to
/// `y2` at `t` thousandths of the animation: the trail fades row by row,
/// the rows nearer the top first.
pub open spec fn trail_intensity(y: int, y1: int, y2: int, t: int) -> int {
    let t = if t > 1000 { 1000 } else { t };
    if t * (y2 - y1) <= 1000 * (y - y1 + 1) {
        1000 - t * (y2 - y1) / (y - y1 + 1)
    } else {
        0
    }
}

/// The trail rows `y1 .. y1 + n` of a drop animation.
pub open spec fn trail_frame(points: Seq<(usize, usize)>, c: Color, x: int, y1: int, y2: int, t: int, n: int) -> Seq<Block>
    decreases n,
{
    if n <= 0 {
        Seq::empty()
    } else {
        trail_frame(points, c, x, y1, y2, t, n - 1) + point_blocks(points, x, y1 + n - 1, faded(c, trail_intensity(y1 + n - 1, y1, y2, t)))
    }
}

/// A hard drop: the piece's blocks leave a fading trail from row `y1` down
/// to row `y2`, where the piece is drawn in full colour.
pub struct WhooshAnimation {
    pub points: Vec<(usize, usize)>,
    pub color: Color,
    pub x: i32,
    pub y1: i32,
    pub y2: i32,
}

impl WhooshAnimation {
    /// Every drawn block lies at non-negative coordinates.
    pub open spec fn wf(&self) -> bool {
        &&& self.y1 <= self.y2
        &&& forall|k: int| 0 <= k < self.points@.len() ==> (#[trigger] self.points@[k]).0 <= i32::MAX && self.points@[k].1 <= i32::MAX
        &&& forall|k: int| 0 <= k < self.points@.len() ==> 0 <= self.x + (#[trigger] self.points@[k]).0 && 0 <= self.y1 + self.points@[k].1
    }

    pub fn new(points: Vec<(usize, usize)>, color: Color, x: i32, y1: i32, y2: i32) -> (a: Self)
        ensures
            a.points == points,
            a.color == color,
            a.x == x,
            a.y1 == y1,
            a.y2 == y2,
    {
        Self { points, color, x, y1, y2 }
    }

    fn draw_points(&self, y: i32, color: u32, r: &mut Vec<Block>)
        requires
            self.wf(),
            self.y1 <= y <= self.y2,
        ensures
            final(r)@ == old(r)@ + point_blocks(self.points@, self.x as int, y as int, color),
    {
        assert(points_fit(self.points@, self.x as int, y as int)) by {
            assert forall|k: int| 0 <= k < self.points@.len() implies {
                &&& (#[trigger] self.points@[k]).0 <= u32::MAX && self.points@[k].1 <= u32::MAX
                &&& 0 <= self.x + self.points@[k].0 <= u32::MAX && 0 <= y + self.points@[k].1 <= u32::MAX
            } by {
                assert(0 <= self.y1 + self.points@[k].1);
            }
        }
        push_points(r, &self.points, self.x as i64, y as i64, color);
    }

    /// The blocks to draw at `t` thousandths of the animation: the trail
    /// rows, then the piece at `y2`.
    pub fn draw(&self, t: u64) -> (r: Vec<Block>)
        requires
            self.wf(),
        ensures
            r@ == trail_frame(self.points@, self.color, self.x as int, self.y1 as int, self.y2 as int, t as int, self.y2 - self.y1)
                + point_blocks(self.points@, self.x as int, self.y2 as int, packed(self.color.r, self.color.g, self.color.b)),
    {
        let tc: i64 = if t > 1000 { 1000 } else { t as i64 };
        let span: i64 = self.y2 as i64 - self.y1 as i64;
        let mut r: Vec<Block> = Vec::new();
        let mut y: i32 = self.y1;
        while y < self.y2
            invariant
                self.wf(),
                self.y1 <= y <= self.y2,
                tc == if t > 1000 { 1000 } else { t as int },
                span == self.y2 - self.y1,
                r@ == trail_frame(self.points@, self.color, self.x as int, self.y1 as int, self.y2 as int, t as int, y - self.y1),
            decreases self.y2 - y,
        {
            let rank: i64 = y as i64 - self.y1 as i64 + 1;
            assert(0 <= tc * span <= 1000 * 0x1_0000_0000) by (nonlinear_arith)
                requires
                    0 <= tc <= 1000,
                    0 <= span <= 0x1_0000_0000,
            ;
            let intensity: u32 = if tc * span <= 1000 * rank {
                assert((tc as int) * (span as int) / (rank as int) <= 1000) by {
                    vstd::arithmetic::div_mod::lemma_div_is_ordered(tc as int * span as int, 1000 * rank as int, rank as int);
                    vstd::arithmetic::div_mod::lemma_div_multiples_vanish(1000, rank as int);
                    assert(1000 * rank as int == rank as int * 1000) by (nonlinear_arith);
                }
                (1000 - tc * span / rank) as u32
            } else {
                0
            };
            let c = faded_value(self.color, intensity);
            self.draw_points(y, c, &mut r);
            y = y + 1;
        }
        let full = self.color.to_argb32();
        self.draw_points(self.y2, full, &mut r);
        r
    }
}

/// The frame of a game-over wipe: rows `tick_y + 1 .. k` black, row `tick_y`
/// white at `tick_t` thousandths, rows above left alone.
pub open spec fn wipe_frame(w: int, tick_y: int, tick_t: int, k: int) -> Seq<Block>
    decreases k,
{
    if k <= tick_y || k <= 0 {
        Seq::empty()
    } else {
        wipe_frame(w, tick_y, tick_t, k - 1) + row_blocks(w, k - 1, if k - 1 == tick_y {
            faded(Color { r: 255, g: 255, b: 255 }, tick_t)
        } else {
            0
        })
    }
}

/// The game-over wipe: a line that sweeps up from the bottom, darkening the
/// board below it.
pub struct GameOverAnimation {
    pub width: usize,
    pub height: usize,
}

impl GameOverAnimation {
    pub open spec fn wf(&self) -> bool {
        self.width <= 0x1_0000_0000 && self.height <= u32::MAX
    }

    /// The row and the intensity of the sweeping line at `t` thousandths.
    pub open spec fn tick(&self, t: int) -> (int, int) {
        let t = if t > 1000 { 1000 } else { t };
        let th = (1000 - t) * self.height;
        (th / 1000, th % 1000)
    }

    pub fn new(width: usize, height: usize) -> (a: Self)
        ensures
            a.width == width,
            a.height == height,
    {
        Self { width, height }
    }

    /// The blocks to draw at `t` thousandths of the animation.
    pub fn draw(&self, t: u64) -> (r: Vec<Block>)
        requires
            self.wf(),
        ensures
            r@ == wipe_frame(self.width as int, self.tick(t as int).0, self.tick(t as int).1, self.height as int),
    {
        let tc: u64 = if t > 1000 { 1000 } else { t };
        assert((1000 - tc) * self.height <= 1000 * 0x1_0000_0000) by (nonlinear_arith)
            requires
                tc <= 1000,
                self.height <= u32::MAX,
        ;
        let th: u64 = (1000 - tc) * self.height as u64;
        let tick_y: u64 = th / 1000;
        let tick_t: u32 = (th % 1000) as u32;
        let white = faded_value(Color::white(), tick_t);
        let mut r: Vec<Block> = Vec::new();
        let mut y: usize = 0;
        while y < self.height
            invariant
                self.wf(),
                y <= self.height,
                tick_y == self.tick(t as int).0,
                tick_t == self.tick(t as int).1,
                white == faded(Color { r: 255, g: 255, b: 255 }, tick_t as int),
                r@ == wipe_frame(self.width as int, tick_y as int, tick_t as int, y as int),
            decreases self.height - y,
        {
            if y as u64 >= tick_y {
                let c: u32 = if y as u64 == tick_y { white } else { 0 };
                push_row(&mut r, self.width, y as u32, c);
            }
            y = y + 1;
        }
        r
    }
}

/// `k` rows of `w` black blocks, top to bottom.
pub open spec fn blank_frame(w: int, k: int) -> Seq<Block>
    decreases k,
{
    if k <= 0 {
        Seq::empty()
    } else {
        blank_frame(w, k - 1) + row_blocks(w, k - 1, 0)
    }
}

/// The piece drawn by the title animation for generator seed `seed`: four
/// draws of the generator pick the piece, its rotation, and the column and
/// row of its bounding box, which lies inside the `w` by `h` board.
pub open spec fn title_piece_frame(pieces: Seq<Piece>, w: int, h: int, seed: u32) -> Seq<Block> {
    let s0 = ((seed as int * 12345) % 0x1_0000_0000) as u32;
    let s1 = lcg_step(s0);
    let s2 = lcg_step(s1);
    let s3 = lcg_step(s2);
    let s4 = lcg_step(s3);
    let p = pieces[s1 as int % (pieces.len() as int)];
    let rot = s2 as int % 4;
    let cx = s3 as int % (w - (p.max_x(rot) - p.min_x(rot))) - p.min_x(rot);
    let cy = s4 as int % (h - (p.max_y(rot) - p.min_y(rot))) - p.min_y(rot);
    point_blocks(p.coords(rot), cx, cy, packed(p.spec_color().r, p.spec_color().g, p.spec_color().b))
}

/// The generator seed of the title animation at `t` milliseconds: the
/// number of half seconds elapsed, saturated to a `u32`.
pub open spec fn title_seed(t: int) -> u32 {
    if t / 500 > u32::MAX {
        u32::MAX
    } else {
        (t / 500) as u32
    }
}

/// The frame of the title animation at `t` milliseconds: a black board, and
/// for the first 400 ms of each half second a randomly placed piece.
pub open spec fn title_frame(pieces: Seq<Piece>, w: int, h: int, t: int) -> Seq<Block> {
    blank_frame(w, h) + if t % 500 < 400 {
        title_piece_frame(pieces, w, h, title_seed(t))
    } else {
        Seq::empty()
    }
}

/// The title screen's endless sparkle of random pieces.
pub struct TitleAnimation {
    width: usize,
    height: usize,
    pieces: Vec<Piece>,
}

impl TitleAnimation {
    pub closed spec fn wf(&self) -> bool {
        &&& 4 <= self.width <= 0x1_0000_0000
        &&& 4 <= self.height <= u32::MAX
        &&& self.pieces@.len() > 0
        &&& forall|i: int| 0 <= i < self.pieces@.len() ==> (#[trigger] self.pieces@[i]).wf() && self.pieces@[i].stride() <= 4
    }

    pub closed spec fn spec_width(&self) -> int {
        self.width as int
    }

    pub closed spec fn spec_height(&self) -> int {
        self.height as int
    }

    /// The pieces it shows.
    pub closed spec fn pieces(&self) -> Seq<Piece> {
        self.pieces@
    }

    /// A title animation for a board of the given size, with the standard
    /// pieces.
    pub fn new(width: usize, height: usize) -> (a: Self)
        requires
            4 <= width <= 0x1_0000_0000,
            4 <= height <= u32::MAX,
        ensures
            a.wf(),
            a.spec_width() == width,
            a.spec_height() == height,
            a.pieces().len() == 7,
    {
        let pieces = make_standard();
        proof {
            assert forall|i: int| 0 <= i < pieces@.len() implies (#[trigger] pieces@[i]).wf() && pieces@[i].stride() <= 4 by {
                lemma_catalog_piece(pieces@[i], i, standard_stride(i), |x: int, y: int| standard_block(i, x, y));
            }
        }
        Self { width, height, pieces }
    }

    fn draw_piece(&self, rng: &mut LinearCongruentialGenerator, r: &mut Vec<Block>)
        requires
            self.wf(),
        ensures
            final(r)@ == old(r)@ + {
                let s1 = lcg_step(old(rng).state());
                let s2 = lcg_step(s1);
                let s3 = lcg_step(s2);
                let s4 = lcg_step(s3);
                let p = self.pieces@[s1 as int % (self.pieces@.len() as int)];
                let rot = s2 as int % 4;
                let cx = s3 as int % (self.width - (p.max_x(rot) - p.min_x(rot))) - p.min_x(rot);
                let cy = s4 as int % (self.height - (p.max_y(rot) - p.min_y(rot))) - p.min_y(rot);
                point_blocks(p.coords(rot), cx, cy, packed(p.spec_color().r, p.spec_color().g, p.spec_color().b))
            },
    {
        let index = (rng.next() as usize) % self.pieces.len();
        let rotation = (rng.next() as usize) % 4;
        let piece = &self.pieces[index];
        assert(piece.wf() && piece.stride() <= 4);
        let ((x1, y1), (x2, y2)) = piece.bounds(rotation);
        let cx: i64 = ((rng.next() as usize) % (self.width - (x2 - x1))) as i64 - x1 as i64;
        let cy: i64 = ((rng.next() as usize) % (self.height - (y2 - y1))) as i64 - y1 as i64;
        let coords = piece.iter_coords(rotation);
        let ghost rot = rotation as int;
        assert(points_fit(coords@, cx as int, cy as int)) by {
            assert forall|k: int| 0 <= k < coords@.len() implies {
                &&& (#[trigger] coords@[k]).0 <= u32::MAX && coords@[k].1 <= u32::MAX
                &&& 0 <= cx + coords@[k].0 <= u32::MAX && 0 <= cy + coords@[k].1 <= u32::MAX
            } by {
                assert(piece.occupied(rot, coords@[k].0 as int, coords@[k].1 as int));
            }
        }
        let color = piece.get_color().to_argb32();
        push_points(r, &coords, cx, cy, color);
    }

    /// The blocks to draw at `t` milliseconds.
    pub fn draw(&self, t: u64) -> (r: Vec<Block>)
        requires
            self.wf(),
        ensures
            r@ == title_frame(self.pieces(), self.spec_width(), self.spec_height(), t as int),
    {
        let mut r: Vec<Block> = Vec::new();
        let mut y: usize = 0;
        while y < self.height
            invariant
                self.wf(),
                y <= self.height,
                r@ == blank_frame(self.width as int, y as int),
            decreases self.height - y,
        {
            push_row(&mut r, self.width, y as u32, 0);
            y = y + 1;
        }
        if t % 500 >= 400 {
            assert(r@ =~= title_frame(self.pieces(), self.spec_width(), self.spec_height(), t as int));
            return r;
        }
        let q = t / 500;
        let seed: u32 = if q > u32::MAX as u64 { u32::MAX } else { q as u32 };
        let mut rng = LinearCongruentialGenerator::new(seed);
        self.draw_piece(&mut rng, &mut r);
        r
    }
}

/// The kinds of visual effect.
pub enum Animation {
    LineClear(LineClearAnimation),
    Whoosh(WhooshAnimation),
    Title(TitleAnimation),
    GameOver(GameOverAnimation),
}

impl Animation {
    pub open spec fn wf(&self) -> bool {
        match self {
            Animation::LineClear(a) => a.wf(),
            Animation::Whoosh(a) => a.wf(),
            Animation::Title(a) => a.wf(),
            Animation::GameOver(a) => a.wf(),
        }
    }

    /// Whether gameplay waits while this effect runs: a line clear, a hard
    /// drop or the game-over wipe does, the title sparkle does not.
    pub open spec fn blocking(&self) -> bool {
        match self {
            Animation::Title(_) => false,
            _ => true,
        }
    }

    /// The blocks drawn at progress `t`: thousandths of the duration, or
    /// milliseconds for an endless effect.
    pub open spec fn frame(&self, t: int) -> Seq<Block> {
        match self {
            Animation::LineClear(a) => line_clear_frame(a.rows@, a.width as int, line_clear_color(t)),
            Animation::Whoosh(a) => trail_frame(a.points@, a.color, a.x as int, a.y1 as int, a.y2 as int, t, a.y2 - a.y1)
                + point_blocks(a.points@, a.x as int, a.y2 as int, packed(a.color.r, a.color.g, a.color.b)),
            Animation::Title(a) => title_frame(a.pieces(), a.spec_width(), a.spec_height(), t),
            Animation::GameOver(a) => wipe_frame(a.width as int, a.tick(t).0, a.tick(t).1, a.height as int),
        }
    }

    pub fn should_block(&self) -> (r: bool)
        ensures
            r == self.blocking(),
    {
        match self {
            Animation::Title(_) => false,
            _ => true,
        }
    }

    pub fn draw(&self, t: u64) -> (r: Vec<Block>)
        requires
            self.wf(),
        ensures
            r@ == self.frame(t as int),
    {
        match self {
            Animation::LineClear(a) => a.draw(t),
            Animation::Whoosh(a) => a.draw(t),
            Animation::Title(a) => a.draw(t),
            Animation::GameOver(a) => a.draw(t),
        }
    }
}

/// An effect with its start and, unless endless, its end.
pub struct Scheduled {
    pub start: u64,
    pub end: Option<u64>,
    pub animation: Animation,
}

/// The progress of a scheduled effect at `ts`: thousandths of its duration
/// (1000 for an empty one), or milliseconds since its start for an endless
/// one; at most `u64::MAX`.
pub open spec fn progress(e: Scheduled, ts: int) -> int {
    let raw = match e.end {
        Some(end) => if end > e.start {
            (ts - e.start) * 1000 / (end - e.start)
        } else {
            1000
        },
        None => ts - e.start,
    };
    if raw > u64::MAX {
        u64::MAX as int
    } else {
        raw
    }
}

/// Whether a scheduled effect is still due after `ts`.
pub open spec fn alive(e: Scheduled, ts: int) -> bool {
    match e.end {
        Some(end) => ts < end,
        None => true,
    }
}

/// The blocks drawn at `ts` by the effects that have started, in order.
pub open spec fn queue_frame(entries: Seq<Scheduled>, ts: int) -> Seq<Block>
    decreases entries.len(),
{
    if entries.len() == 0 {
        Seq::empty()
    } else {
        let e = entries.last();
        queue_frame(entries.drop_last(), ts) + if ts >= e.start {
            e.animation.frame(progress(e, ts))
        } else {
            Seq::empty()
        }
    }
}

/// A queue of timed effects.
pub struct AnimationQueue {
    animations: Vec<Scheduled>,
}

impl AnimationQueue {
    pub closed spec fn entries(&self) -> Seq<Scheduled> {
        self.animations@
    }

    pub open spec fn wf(&self) -> bool {
        forall|i: int| 0 <= i < self.entries().len() ==> (#[trigger] self.entries()[i]).animation.wf()
    }

    /// Whether some effect in the queue holds up gameplay.
    pub open spec fn blocks(&self) -> bool {
        exists|i: int| 0 <= i < self.entries().len() && (#[trigger] self.entries()[i]).animation.blocking()
    }

    pub fn new() -> (q: Self)
        ensures
            q.wf(),
            q.entries().len() == 0,
    {
        Self { animations: Vec::new() }
    }

    pub fn is_empty(&self) -> (r: bool)
        ensures
            r == (self.entries().len() == 0),
    {
        self.animations.len() == 0
    }

    pub fn should_block(&self) -> (r: bool)
        ensures
            r == self.blocks(),
    {
        let mut i: usize = 0;
        while i < self.animations.len()
            invariant
                i <= self.entries().len(),
                forall|k: int| 0 <= k < i ==> !(#[trigger] self.entries()[k]).animation.blocking(),
            decreases self.entries().len() - i,
        {
            if self.animations[i].animation.should_block() {
                assert(self.entries()[i as int].animation.blocking());
                return true;
            }
            i = i + 1;
        }
        false
    }

    /// Adds an effect running from `start` for `duration` milliseconds.
    pub fn schedule(&mut self, start: u64, duration: u64, anim: Animation)
        requires
            old(self).wf(),
            anim.wf(),
            start + duration <= u64::MAX,
        ensures
            final(self).wf(),
            final(self).entries() == old(self).entries().push(Scheduled { start, end: Some((start + duration) as u64), animation: anim }),
    {
        self.animations.push(Scheduled { start, end: Some(start + duration), animation: anim });
    }

    /// Adds an effect that runs from time 0 for ever.
    pub fn endless(&mut self, anim: Animation)
        requires
            old(self).wf(),
            anim.wf(),
        ensures
            final(self).wf(),
            final(self).entries() == old(self).entries().push(Scheduled { start: 0, end: None, animation: anim }),
    {
        self.animations.push(Scheduled { start: 0, end: None, animation: anim });
    }

    /// Draws every effect that has started at `timestamp`, then drops those
    /// that are over.
    pub fn tick(&mut self, timestamp: u64) -> (r: Vec<Block>)
        requires
            old(self).wf(),
        ensures
            final(self).wf(),
            r@ == queue_frame(old(self).entries(), timestamp as int),
            final(self).entries() == old(self).entries().filter(|e: Scheduled| alive(e, timestamp as int)),
            forall|i: int| 0 <= i < final(self).entries().len() ==> old(self).entries().contains(#[trigger] final(self).entries()[i]),
    {
        let mut r: Vec<Block> = Vec::new();
        let mut i: usize = 0;
        while i < self.animations.len()
            invariant
                self.wf(),
                i <= self.entries().len(),
                r@ == queue_frame(self.entries().take(i as int), timestamp as int),
            decreases self.entries().len() - i,
        {
            let e = &self.animations[i];
            assert(self.entries().take(i + 1).drop_last() =~= self.entries().take(i as int));
            assert(self.entries().take(i + 1).last() == *e);
            if timestamp >= e.start {
                let d: u128 = (timestamp - e.start) as u128;
                let t: u128 = match e.end {
                    Some(end) => if end > e.start {
                        d * 1000 / ((end - e.start) as u128)
                    } else {
                        1000
                    },
                    None => d,
                };
                let t64: u64 = if t > u64::MAX as u128 { u64::MAX } else { t as u64 };
                assert(self.entries()[i as int].animation.wf());
                let frame = e.animation.draw(t64);
                let mut k: usize = 0;
                let ghost before = r@;
                while k < frame.len()
                    invariant
                        k <= frame@.len(),
                        r@ == before + frame@.take(k as int),
                    decreases frame@.len() - k,
                {
                    r.push(frame[k]);
                    k = k + 1;
                    assert(r@ =~= before + frame@.take(k as int));
                }
                assert(frame@.take(frame@.len() as int) =~= frame@);
            }
            i = i + 1;
        }
        assert(self.entries().take(self.entries().len() as int) =~= self.entries());
        let ghost all = self.entries();
        let ghost pred = |e: Scheduled| alive(e, timestamp as int);
        let ghost mut p: int = 0;
        let mut i: usize = 0;
        assert(all.take(0).filter(pred) =~= Seq::<Scheduled>::empty()) by {
            reveal(Seq::filter);
        }
        assert(all.skip(0) =~= all);
        while i < self.animations.len()
            invariant
                self.wf(),
                pred == (|e: Scheduled| alive(e, timestamp as int)),
                0 <= p <= all.len(),
                self.entries() == all.take(p).filter(pred) + all.skip(p),
                i == all.take(p).filter(pred).len(),
            decreases all.len() - p,
        {
            proof {
                broadcast use vstd::seq_lib::group_filter_ensures;
            }
            assert(self.entries()[i as int] == all[p]);
            let keep = match self.animations[i].end {
                Some(end) => timestamp < end,
                None => true,
            };
            proof {
                reveal(Seq::filter);
                assert(all.take(p + 1).drop_last() =~= all.take(p));
                assert(all.take(p + 1).last() == all[p]);
            }
            let ghost before = self.entries();
            if keep {
                i = i + 1;
                assert(self.entries() =~= all.take(p + 1).filter(pred) + all.skip(p + 1));
            } else {
                self.animations.remove(i);
                assert(self.entries() =~= all.take(p + 1).filter(pred) + all.skip(p + 1));
                assert forall|k: int| 0 <= k < self.entries().len() implies (#[trigger] self.entries()[k]).animation.wf() by {
                    if k < i {
                        assert(self.entries()[k] == before[k]);
                    } else {
                        assert(self.entries()[k] == before[k + 1]);
                    }
                }
            }
            proof {
                p = p + 1;
            }
        }
        proof {
            broadcast use vstd::seq_lib::group_filter_ensures;
            assert(all.take(p).filter(pred).len() + all.skip(p).len() == i);
            assert(p == all.len());
            assert(all.take(p) =~= all);
            assert(all.skip(p) =~= Seq::<Scheduled>::empty());
            assert(self.entries() =~= all.filter(pred));
            assert forall|k: int| 0 <= k < self.entries().len() implies all.contains(#[trigger] self.entries()[k]) by {
                assert(all.filter(pred).contains(self.entries()[k]));
                all.lemma_filter_contains_rev(pred, self.entries()[k]);
            }
        }
        r
    }
}

} // verus!
