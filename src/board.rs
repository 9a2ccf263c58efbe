use vstd::prelude::*;
use crate::gfx::{Color, packed};
use crate::piece::Piece;
use crate::util::{Position, lemma_index_bound, lemma_index_unique};

verus! {

/// The grid of placed blocks: `width * height` cells, each empty or holding
/// a colour, stored row by row.
pub struct Board {
    width: usize,
    height: usize,
    data: Vec<Option<Color>>,
}

/// The packed colour drawn for a cell: its colour, or 0 when empty.
pub open spec fn cell_color(c: Option<Color>) -> u32 {
    match c {
        Some(col) => packed(col.r, col.g, col.b),
        None => 0,
    }
}

/// A row is full when every cell of it holds a block.
pub open spec fn is_full(row: Seq<Option<Color>>) -> bool {
    forall|x: int| 0 <= x < row.len() ==> (#[trigger] row[x]).is_some()
}

/// A row of `w` empty cells.
pub open spec fn empty_row(w: int) -> Seq<Option<Color>> {
    Seq::new(w as nat, |x: int| None)
}

/// The rows of `rows` from `lo` down that are not full, top to bottom.
pub open spec fn kept_rows(rows: Seq<Seq<Option<Color>>>, lo: int) -> Seq<Seq<Option<Color>>>
    decreases rows.len() - lo,
{
    if lo < 0 || lo >= rows.len() {
        Seq::empty()
    } else if is_full(rows[lo]) {
        kept_rows(rows, lo + 1)
    } else {
        seq![rows[lo]] + kept_rows(rows, lo + 1)
    }
}

/// The indices of the full rows of `rows` from `lo` down, bottom to top.
pub open spec fn full_rows(rows: Seq<Seq<Option<Color>>>, lo: int) -> Seq<usize>
    decreases rows.len() - lo,
{
    if lo < 0 || lo >= rows.len() {
        Seq::empty()
    } else if is_full(rows[lo]) {
        full_rows(rows, lo + 1) + seq![lo as usize]
    } else {
        full_rows(rows, lo + 1)
    }
}

/// The rows after the full ones are removed: the others keep their order
/// and sink to the bottom, and empty rows fill the top.
pub open spec fn cleared_layout(rows: Seq<Seq<Option<Color>>>, w: int) -> Seq<Seq<Option<Color>>> {
    Seq::new((rows.len() - kept_rows(rows, 0).len()) as nat, |i: int| empty_row(w)) + kept_rows(rows, 0)
}

/// The number of filled cells of a row.
pub open spec fn row_count(row: Seq<Option<Color>>) -> int
    decreases row.len(),
{
    if row.len() == 0 {
        0
    } else {
        row_count(row.drop_last()) + if row.last().is_some() { 1int } else { 0int }
    }
}

/// The number of filled cells of a list of rows.
pub open spec fn grid_count(rows: Seq<Seq<Option<Color>>>) -> int
    decreases rows.len(),
{
    if rows.len() == 0 {
        0
    } else {
        grid_count(rows.drop_last()) + row_count(rows.last())
    }
}

proof fn lemma_kept_full_len(rows: Seq<Seq<Option<Color>>>, lo: int)
    requires
        0 <= lo <= rows.len(),
    ensures
        kept_rows(rows, lo).len() + full_rows(rows, lo).len() == rows.len() - lo,
    decreases rows.len() - lo,
{
    if lo < rows.len() {
        lemma_kept_full_len(rows, lo + 1);
    }
}

proof fn lemma_kept_suffix(rows: Seq<Seq<Option<Color>>>, lo: int, y: int)
    requires
        0 <= lo <= y <= rows.len(),
    ensures
        kept_rows(rows, y).len() <= kept_rows(rows, lo).len(),
        kept_rows(rows, lo).subrange(kept_rows(rows, lo).len() - kept_rows(rows, y).len(), kept_rows(rows, lo).len() as int)
            == kept_rows(rows, y),
    decreases y - lo,
{
    let k = kept_rows(rows, lo);
    if lo == y {
        assert(k.subrange(0, k.len() as int) =~= k);
    } else {
        lemma_kept_suffix(rows, lo + 1, y);
        let k1 = kept_rows(rows, lo + 1);
        let ky = kept_rows(rows, y);
        if is_full(rows[lo]) {
            assert(k == k1);
        } else {
            assert(k == seq![rows[lo]] + k1);
            assert(k.subrange(k.len() - ky.len(), k.len() as int) =~= k1.subrange(k1.len() - ky.len(), k1.len() as int));
        }
    }
}

proof fn lemma_grid_count_add(a: Seq<Seq<Option<Color>>>, b: Seq<Seq<Option<Color>>>)
    ensures
        grid_count(a + b) == grid_count(a) + grid_count(b),
    decreases b.len(),
{
    if b.len() == 0 {
        assert(a + b =~= a);
    } else {
        assert((a + b).drop_last() =~= a + b.drop_last());
        lemma_grid_count_add(a, b.drop_last());
    }
}

proof fn lemma_row_count_empty(w: int)
    requires
        w >= 0,
    ensures
        row_count(empty_row(w)) == 0,
    decreases w,
{
    if w > 0 {
        assert(empty_row(w).drop_last() =~= empty_row(w - 1));
        lemma_row_count_empty(w - 1);
    }
}

proof fn lemma_row_count_full(row: Seq<Option<Color>>)
    requires
        is_full(row),
    ensures
        row_count(row) == row.len(),
    decreases row.len(),
{
    if row.len() > 0 {
        lemma_row_count_full(row.drop_last());
    }
}

proof fn lemma_grid_count_empty(w: int, n: int)
    requires
        w >= 0,
        n >= 0,
    ensures
        grid_count(Seq::new(n as nat, |i: int| empty_row(w))) == 0,
    decreases n,
{
    if n > 0 {
        assert(Seq::new(n as nat, |i: int| empty_row(w)).drop_last() =~= Seq::new((n - 1) as nat, |i: int| empty_row(w)));
        lemma_grid_count_empty(w, n - 1);
        lemma_row_count_empty(w);
    }
}

proof fn lemma_count_kept(rows: Seq<Seq<Option<Color>>>, w: int, lo: int)
    requires
        0 <= lo <= rows.len(),
        forall|i: int| 0 <= i < rows.len() ==> (#[trigger] rows[i]).len() == w,
    ensures
        grid_count(rows.subrange(lo, rows.len() as int)) == grid_count(kept_rows(rows, lo)) + w * full_rows(rows, lo).len(),
    decreases rows.len() - lo,
{
    if lo == rows.len() {
        assert(rows.subrange(lo, rows.len() as int) =~= Seq::<Seq<Option<Color>>>::empty());
    } else {
        lemma_count_kept(rows, w, lo + 1);
        let tail = rows.subrange(lo + 1, rows.len() as int);
        assert(rows.subrange(lo, rows.len() as int) =~= seq![rows[lo]] + tail);
        lemma_grid_count_add(seq![rows[lo]], tail);
        assert(seq![rows[lo]].drop_last() =~= Seq::<Seq<Option<Color>>>::empty());
        assert(seq![rows[lo]].last() == rows[lo]);
        assert(grid_count(Seq::<Seq<Option<Color>>>::empty()) == 0);
        assert(grid_count(seq![rows[lo]]) == row_count(rows[lo]));
        if is_full(rows[lo]) {
            lemma_row_count_full(rows[lo]);
            assert(w * (full_rows(rows, lo + 1).len() + 1) == w * full_rows(rows, lo + 1).len() + w) by (nonlinear_arith);
        } else {
            lemma_grid_count_add(seq![rows[lo]], kept_rows(rows, lo + 1));
        }
    }
}

/// Clearing lines keeps the board's height, moves each row that is not full
/// down by the number of full rows below it, and removes exactly `w` filled
/// cells for each full row.
pub proof fn lemma_clear_lines_layout(rows: Seq<Seq<Option<Color>>>, w: int, y: int)
    requires
        w >= 0,
        forall|i: int| 0 <= i < rows.len() ==> (#[trigger] rows[i]).len() == w,
        0 <= y < rows.len(),
    ensures
        cleared_layout(rows, w).len() == rows.len(),
        y < full_rows(rows, 0).len() ==> cleared_layout(rows, w)[y] == empty_row(w),
        !is_full(rows[y]) ==> cleared_layout(rows, w)[y + full_rows(rows, y + 1).len()] == rows[y],
        grid_count(cleared_layout(rows, w)) == grid_count(rows) - w * full_rows(rows, 0).len(),
{
    lemma_kept_full_len(rows, 0);
    lemma_kept_full_len(rows, y);
    lemma_kept_suffix(rows, 0, y);
    let k0 = kept_rows(rows, 0);
    let ky = kept_rows(rows, y);
    let e = Seq::new((rows.len() - k0.len()) as nat, |i: int| empty_row(w));
    if !is_full(rows[y]) {
        assert(ky == seq![rows[y]] + kept_rows(rows, y + 1));
        assert(full_rows(rows, y) == full_rows(rows, y + 1));
        assert(k0.subrange(k0.len() - ky.len(), k0.len() as int)[0] == ky[0]);
        assert(cleared_layout(rows, w) == e + k0);
    }
    lemma_grid_count_add(e, k0);
    lemma_grid_count_empty(w, rows.len() - k0.len());
    lemma_count_kept(rows, w, 0);
    assert(rows.subrange(0, rows.len() as int) =~= rows);
}

/// A row as text: `X` for a filled cell, a space for an empty one.
pub open spec fn row_text(row: Seq<Option<Color>>) -> Seq<char> {
    Seq::new(row.len(), |x: int| if row[x].is_some() { 'X' } else { ' ' })
}

/// The first `k` rows as text, each followed by a newline.
pub open spec fn rows_text(rows: Seq<Seq<Option<Color>>>, k: int) -> Seq<char>
    decreases k,
{
    if k <= 0 {
        Seq::empty()
    } else {
        rows_text(rows, k - 1) + row_text(rows[k - 1]) + seq!['\n']
    }
}

proof fn lemma_kept_not_full(rows: Seq<Seq<Option<Color>>>, lo: int)
    requires
        0 <= lo <= rows.len(),
    ensures
        forall|i: int| 0 <= i < kept_rows(rows, lo).len() ==> !is_full(#[trigger] kept_rows(rows, lo)[i]),
    decreases rows.len() - lo,
{
    if lo < rows.len() {
        lemma_kept_not_full(rows, lo + 1);
        let k1 = kept_rows(rows, lo + 1);
        if !is_full(rows[lo]) {
            assert forall|i: int| 0 <= i < kept_rows(rows, lo).len() implies !is_full(#[trigger] kept_rows(rows, lo)[i]) by {
                if i > 0 {
                    assert(kept_rows(rows, lo)[i] == k1[i - 1]);
                }
            }
        }
    }
}

proof fn lemma_none_full(rows: Seq<Seq<Option<Color>>>, lo: int)
    requires
        0 <= lo <= rows.len(),
        forall|i: int| 0 <= i < rows.len() ==> !is_full(#[trigger] rows[i]),
    ensures
        kept_rows(rows, lo) == rows.subrange(lo, rows.len() as int),
        full_rows(rows, lo).len() == 0,
    decreases rows.len() - lo,
{
    if lo < rows.len() {
        lemma_none_full(rows, lo + 1);
        assert(rows.subrange(lo, rows.len() as int) =~= seq![rows[lo]] + rows.subrange(lo + 1, rows.len() as int));
    } else {
        assert(rows.subrange(lo, rows.len() as int) =~= Seq::<Seq<Option<Color>>>::empty());
    }
}

/// Clearing lines twice is clearing them once: after a clear no row of a
/// board at least one column wide is full.
pub proof fn lemma_clear_lines_twice(rows: Seq<Seq<Option<Color>>>, w: int)
    requires
        w > 0,
        forall|i: int| 0 <= i < rows.len() ==> (#[trigger] rows[i]).len() == w,
    ensures
        full_rows(cleared_layout(rows, w), 0).len() == 0,
        cleared_layout(cleared_layout(rows, w), w) == cleared_layout(rows, w),
{
    let c = cleared_layout(rows, w);
    let k0 = kept_rows(rows, 0);
    lemma_kept_full_len(rows, 0);
    lemma_kept_not_full(rows, 0);
    let n = rows.len() - k0.len();
    assert(!is_full(empty_row(w))) by {
        assert(empty_row(w)[0].is_none());
    }
    assert forall|i: int| 0 <= i < c.len() implies !is_full(#[trigger] c[i]) by {
        if i >= n {
            assert(c[i] == k0[i - n]);
        }
    }
    lemma_none_full(c, 0);
    assert(c.subrange(0, c.len() as int) =~= c);
    assert(cleared_layout(c, w) =~= c);
}

impl Board {
    /// The board's invariant: one cell per grid position, and a size whose
    /// coordinates fit in the `i32` of a position.
    pub closed spec fn wf(&self) -> bool {
        &&& self.data@.len() == self.width * self.height
        &&& self.width * self.height <= usize::MAX
        &&& self.width <= i32::MAX
        &&& self.height <= i32::MAX
    }

    pub closed spec fn spec_width(&self) -> int {
        self.width as int
    }

    pub closed spec fn spec_height(&self) -> int {
        self.height as int
    }

    /// The cell at column `x`, row `y` (row 0 at the top).
    pub closed spec fn cell(&self, x: int, y: int) -> Option<Color> {
        self.data@[y * self.width + x]
    }

    pub open spec fn in_bounds(&self, x: int, y: int) -> bool {
        0 <= x < self.spec_width() && 0 <= y < self.spec_height()
    }

    /// Whether a block cannot stand at (x, y): outside the grid, or on a
    /// filled cell.
    pub open spec fn blocked(&self, x: int, y: int) -> bool {
        !self.in_bounds(x, y) || self.cell(x, y).is_some()
    }

    /// Whether `piece` in rotation state `rotation`, placed with its matrix
    /// at (px, py), has a block on a blocked cell.
    pub open spec fn collides_at(&self, piece: &Piece, px: int, py: int, rotation: int) -> bool {
        exists|bx: int, by: int| #[trigger] piece.occupied(rotation, bx, by) && self.blocked(px + bx, py + by)
    }

    /// Whether every block of the placed piece lies inside the grid.
    pub open spec fn fits(&self, piece: &Piece, px: int, py: int, rotation: int) -> bool {
        forall|bx: int, by: int| #[trigger] piece.occupied(rotation, bx, by) ==> self.in_bounds(px + bx, py + by)
    }

    /// Whether the placed piece has a block on cell (x, y).
    pub open spec fn covers(piece: &Piece, px: int, py: int, rotation: int, x: int, y: int) -> bool {
        piece.occupied(rotation, x - px, y - py)
    }

    /// An empty board of `width` columns and `height` rows.
    pub fn new(width: usize, height: usize) -> (b: Self)
        requires
            width * height <= usize::MAX,
            width <= i32::MAX,
            height <= i32::MAX,
        ensures
            b.wf(),
            b.spec_width() == width,
            b.spec_height() == height,
            forall|x: int, y: int| b.in_bounds(x, y) ==> #[trigger] b.cell(x, y).is_none(),
    {
        let n = width * height;
        let mut data: Vec<Option<Color>> = Vec::new();
        let mut i: usize = 0;
        while i < n
            invariant
                i <= n,
                data@.len() == i,
                forall|k: int| 0 <= k < i ==> (#[trigger] data@[k]).is_none(),
            decreases n - i,
        {
            data.push(None);
            i = i + 1;
        }
        let b = Self { width, height, data };
        assert forall|x: int, y: int| b.in_bounds(x, y) implies #[trigger] b.cell(x, y).is_none() by {
            lemma_index_bound(x, y, width as int, height as int);
        }
        b
    }

    /// The cell at column `x`, row `y`.
    pub fn get_block(&self, x: usize, y: usize) -> (c: Option<Color>)
        requires
            self.wf(),
            x < self.spec_width(),
            y < self.spec_height(),
        ensures
            c == self.cell(x as int, y as int),
    {
        proof {
            lemma_index_bound(x as int, y as int, self.width as int, self.height as int);
            assert(self.data@.len() == self.data.len());
        }
        self.data[y * self.width + x]
    }

    fn set_block(&mut self, x: usize, y: usize, c: Option<Color>)
        requires
            old(self).wf(),
            x < old(self).width,
            y < old(self).height,
        ensures
            final(self).wf(),
            final(self).width == old(self).width,
            final(self).height == old(self).height,
            forall|x2: int, y2: int| old(self).in_bounds(x2, y2) ==> #[trigger] final(self).cell(x2, y2) == if x2 == x && y2 == y {
                c
            } else {
                old(self).cell(x2, y2)
            },
    {
        proof {
            lemma_index_bound(x as int, y as int, self.width as int, self.height as int);
            assert(self.data@.len() == self.data.len());
        }
        let ghost w = self.width as int;
        self.data.set(y * self.width + x, c);
        assert forall|x2: int, y2: int| old(self).in_bounds(x2, y2) implies #[trigger] self.cell(x2, y2) == if x2 == x && y2 == y {
            c
        } else {
            old(self).cell(x2, y2)
        } by {
            lemma_index_bound(x2, y2, w, self.height as int);
            if !(x2 == x && y2 == y) && y2 * w + x2 == y * w + x {
                lemma_index_unique(x2, y2, x as int, y as int, w);
            }
        }
    }

    /// Empties every cell; the size is kept.
    pub fn clear(&mut self)
        requires
            old(self).wf(),
        ensures
            final(self).wf(),
            final(self).spec_width() == old(self).spec_width(),
            final(self).spec_height() == old(self).spec_height(),
            forall|x: int, y: int| final(self).in_bounds(x, y) ==> #[trigger] final(self).cell(x, y).is_none(),
    {
        let n = self.data.len();
        let mut i: usize = 0;
        while i < n
            invariant
                self.wf(),
                n == self.width * self.height,
                self.width == old(self).width,
                self.height == old(self).height,
                i <= n,
                forall|k: int| 0 <= k < i ==> (#[trigger] self.data@[k]).is_none(),
            decreases n - i,
        {
            self.data.set(i, None);
            i = i + 1;
        }
        assert forall|x: int, y: int| self.in_bounds(x, y) implies #[trigger] self.cell(x, y).is_none() by {
            lemma_index_bound(x, y, self.width as int, self.height as int);
        }
    }

    /// Fills the cell at column `x`, row `y` with `color`.
    pub fn put_block(&mut self, x: usize, y: usize, color: Color)
        requires
            old(self).wf(),
            x < old(self).spec_width(),
            y < old(self).spec_height(),
        ensures
            final(self).wf(),
            final(self).spec_width() == old(self).spec_width(),
            final(self).spec_height() == old(self).spec_height(),
            forall|x2: int, y2: int| old(self).in_bounds(x2, y2) ==> #[trigger] final(self).cell(x2, y2) == if x2 == x && y2 == y {
                Some(color)
            } else {
                old(self).cell(x2, y2)
            },
    {
        self.set_block(x, y, Some(color));
    }

    /// One `(x, y, colour)` block to draw for every cell, row by row; an
    /// empty cell is drawn with colour 0.
    pub fn draw(&self) -> (r: Vec<(u32, u32, u32)>)
        requires
            self.wf(),
        ensures
            r@ == self.frame(),
            r@.len() == self.spec_width() * self.spec_height(),
            forall|x: int, y: int| #[trigger] self.in_bounds(x, y) ==> r@[y * self.spec_width() + x] == (
            x as u32, y as u32, cell_color(self.cell(x, y))),
    {
        let mut r: Vec<(u32, u32, u32)> = Vec::new();
        let w = self.width;
        let h = self.height;
        let mut y: usize = 0;
        while y < h
            invariant
                self.wf(),
                w == self.width,
                h == self.height,
                y <= h,
                r@.len() == y * w,
                forall|bx: int, by: int| 0 <= bx < w && 0 <= by < y ==> #[trigger] r@[by * w + bx] == (
                bx as u32, by as u32, cell_color(self.cell(bx, by))),
            decreases h - y,
        {
            let mut x: usize = 0;
            while x < w
                invariant
                    self.wf(),
                    w == self.width,
                    h == self.height,
                    y < h,
                    x <= w,
                    r@.len() == y * w + x,
                    forall|bx: int, by: int| 0 <= bx < w && 0 <= by < y ==> #[trigger] r@[by * w + bx] == (
                    bx as u32, by as u32, cell_color(self.cell(bx, by))),
                    forall|bx: int| 0 <= bx < x ==> #[trigger] r@[y * w + bx] == (
                    bx as u32, y as u32, cell_color(self.cell(bx, y as int))),
                decreases w - x,
            {
                let c = self.get_block(x, y);
                let color: u32 = match c {
                    Some(col) => col.to_argb32(),
                    None => 0,
                };
                let ghost old_r = r@;
                r.push((x as u32, y as u32, color));
                assert forall|bx: int, by: int| 0 <= bx < w && 0 <= by < y implies #[trigger] r@[by * w + bx] == (
                    bx as u32, by as u32, cell_color(self.cell(bx, by))) by {
                    lemma_index_bound(bx, by, w as int, y as int);
                    assert(r@[by * w + bx] == old_r[by * w + bx]);
                }
                x = x + 1;
            }
            proof {
                assert((y + 1) * w == y * w + w) by (nonlinear_arith);
            }
            y = y + 1;
        }
        assert(h * w == w * h) by (nonlinear_arith);
        assert forall|i: int| 0 <= i < r@.len() implies #[trigger] r@[i] == self.frame()[i] by {
            let x = i % (w as int);
            let y = i / (w as int);
            vstd::arithmetic::div_mod::lemma_fundamental_div_mod(i, w as int);
            vstd::arithmetic::div_mod::lemma_mod_pos_bound(i, w as int);
            assert(y * w + x == i) by (nonlinear_arith)
                requires
                    i == (w as int) * y + x,
            ;
            assert(0 <= y < h) by {
                vstd::arithmetic::div_mod::lemma_div_pos_is_pos(i, w as int);
                if y >= h {
                    assert(y * w >= h * w) by (nonlinear_arith)
                        requires
                            y >= h,
                            w >= 0,
                    ;
                }
            }
            assert(r@[y * w + x] == (x as u32, y as u32, cell_color(self.cell(x, y))));
        }
        assert(r@ =~= self.frame());
        r
    }

    /// Where `piece` enters the board: its blocks centred horizontally and
    /// its top row of blocks on row 0.
    pub fn initial_position(&self, piece: &Piece, rotation: usize) -> (p: Position)
        requires
            self.wf(),
            piece.wf(),
        ensures
            p.x == self.spec_width() / 2 - (piece.min_x(rotation as int) + piece.max_x(rotation as int) + 1) / 2,
            p.y == -piece.min_y(rotation as int),
    {
        let ((x1, y1), (x2, _)) = piece.bounds(rotation);
        proof {
            let (bx, by) = piece.lemma_block(rotation as int);
            piece.lemma_occupied_inside(rotation as int, bx, by);
        }
        Position::new((self.width / 2) as i32 - ((x1 + x2 + 1) / 2) as i32, -(y1 as i32))
    }

    /// Writes the piece's colour into every cell it covers.
    pub fn put_piece(&mut self, piece: &Piece, position: &Position, rotation: usize)
        requires
            old(self).wf(),
            piece.wf(),
            old(self).fits(piece, position.x as int, position.y as int, rotation as int),
        ensures
            final(self).wf(),
            final(self).spec_width() == old(self).spec_width(),
            final(self).spec_height() == old(self).spec_height(),
            forall|x: int, y: int| old(self).in_bounds(x, y) ==> #[trigger] final(self).cell(x, y) == if Self::covers(piece, position.x as int, position.y as int, rotation as int, x, y) {
                Some(piece.spec_color())
            } else {
                old(self).cell(x, y)
            },
            final(self).collides_at(piece, position.x as int, position.y as int, rotation as int),
            final(self).rows() == old(self).placed_rows(piece, position.x as int, position.y as int, rotation as int),
    {
        let coords = piece.iter_coords(rotation);
        let ghost px = position.x as int;
        let ghost py = position.y as int;
        let ghost rot = rotation as int;
        let mut i: usize = 0;
        while i < coords.len()
            invariant
                self.wf(),
                piece.wf(),
                px == position.x,
                py == position.y,
                rot == rotation,
                self.width == old(self).width,
                self.height == old(self).height,
                old(self).fits(piece, px, py, rot),
                i <= coords@.len(),
                forall|k: int| 0 <= k < coords@.len() ==> piece.occupied(rot, #[trigger] coords@[k].0 as int, coords@[k].1 as int),
                forall|bx: int, by: int| #[trigger] piece.occupied(rot, bx, by) ==> exists|k: int|
                    0 <= k < coords@.len() && coords@[k].0 == bx && coords@[k].1 == by,
                forall|k: int| 0 <= k < coords@.len() ==> (#[trigger] coords@[k]).0 < piece.stride() && coords@[k].1 < piece.stride(),
                forall|x: int, y: int| old(self).in_bounds(x, y) ==> #[trigger] self.cell(x, y) == if Self::covers(piece, px, py, rot, x, y) && exists|k: int| 0 <= k < i && coords@[k].0 == x - px && coords@[k].1 == y - py {
                    Some(piece.spec_color())
                } else {
                    old(self).cell(x, y)
                },
            decreases coords@.len() - i,
        {
            let (bx, by) = coords[i];
            assert(piece.occupied(rot, bx as int, by as int));
            proof {
                piece.lemma_occupied_inside(rot, bx as int, by as int);
            }
            assert(self.in_bounds(px + bx, py + by));
            let x = (position.x as i64 + bx as i64) as usize;
            let y = (position.y as i64 + by as i64) as usize;
            let ghost before = *self;
            self.set_block(x, y, Some(piece.get_color()));
            assert forall|x2: int, y2: int| old(self).in_bounds(x2, y2) implies #[trigger] self.cell(x2, y2) == if Self::covers(piece, px, py, rot, x2, y2) && exists|k: int| 0 <= k < i + 1 && coords@[k].0 == x2 - px && coords@[k].1 == y2 - py {
                Some(piece.spec_color())
            } else {
                old(self).cell(x2, y2)
            } by {
                assert(before.cell(x2, y2) == if Self::covers(piece, px, py, rot, x2, y2) && exists|k: int| 0 <= k < i && coords@[k].0 == x2 - px && coords@[k].1 == y2 - py {
                    Some(piece.spec_color())
                } else {
                    old(self).cell(x2, y2)
                });
                if x2 == x && y2 == y {
                    assert(coords@[i as int].0 == x2 - px && coords@[i as int].1 == y2 - py);
                } else {
                    if exists|k: int| 0 <= k < i + 1 && coords@[k].0 == x2 - px && coords@[k].1 == y2 - py {
                        let k = choose|k: int| 0 <= k < i + 1 && coords@[k].0 == x2 - px && coords@[k].1 == y2 - py;
                        assert(k != i);
                    }
                }
            }
            i = i + 1;
        }
        assert forall|x: int, y: int| old(self).in_bounds(x, y) implies #[trigger] self.cell(x, y) == if Self::covers(piece, px, py, rot, x, y) {
            Some(piece.spec_color())
        } else {
            old(self).cell(x, y)
        } by {
            if Self::covers(piece, px, py, rot, x, y) {
                assert(piece.occupied(rot, x - px, y - py));
            }
        }
        proof {
            let (bx, by) = piece.lemma_block(rot);
            assert(old(self).in_bounds(px + bx, py + by));
            assert(Self::covers(piece, px, py, rot, px + bx, py + by));
            assert(self.cell(px + bx, py + by) == Some(piece.spec_color()));
            assert(self.blocked(px + bx, py + by));
            let pr = old(self).placed_rows(piece, px, py, rot);
            assert forall|y: int| 0 <= y < self.height implies #[trigger] self.rows()[y] == pr[y] by {
                assert(self.rows()[y] =~= pr[y]);
            }
            assert(self.rows() =~= pr);
        }
    }

    /// Whether `piece` in rotation state `rotation` at `position` has a block
    /// outside the grid or on a filled cell.
    pub fn collides(&self, piece: &Piece, position: &Position, rotation: usize) -> (r: bool)
        requires
            self.wf(),
            piece.wf(),
        ensures
            r == self.collides_at(piece, position.x as int, position.y as int, rotation as int),
    {
        let coords = piece.iter_coords(rotation);
        let ghost px = position.x as int;
        let ghost py = position.y as int;
        let ghost rot = rotation as int;
        let mut i: usize = 0;
        while i < coords.len()
            invariant
                self.wf(),
                piece.wf(),
                px == position.x,
                py == position.y,
                rot == rotation,
                i <= coords@.len(),
                forall|k: int| 0 <= k < coords@.len() ==> piece.occupied(rot, #[trigger] coords@[k].0 as int, coords@[k].1 as int),
                forall|bx: int, by: int| #[trigger] piece.occupied(rot, bx, by) ==> exists|k: int|
                    0 <= k < coords@.len() && coords@[k].0 == bx && coords@[k].1 == by,
                forall|k: int| 0 <= k < coords@.len() ==> (#[trigger] coords@[k]).0 < piece.stride() && coords@[k].1 < piece.stride(),
                forall|k: int| 0 <= k < i ==> !self.blocked(px + (#[trigger] coords@[k]).0, py + coords@[k].1),
            decreases coords@.len() - i,
        {
            let (bx, by) = coords[i];
            assert(piece.occupied(rot, bx as int, by as int));
            proof {
                piece.lemma_occupied_inside(rot, bx as int, by as int);
            }
            let dx: i64 = position.x as i64 + bx as i64;
            let dy: i64 = position.y as i64 + by as i64;
            if dx < 0 || dx >= self.width as i64 || dy < 0 || dy >= self.height as i64 {
                assert(self.blocked(px + bx, py + by));
                return true;
            }
            if self.get_block(dx as usize, dy as usize).is_some() {
                assert(self.blocked(px + bx, py + by));
                return true;
            }
            i = i + 1;
        }
        assert forall|bx: int, by: int| #[trigger] piece.occupied(rot, bx, by) implies !self.blocked(px + bx, py + by) by {
            let k = choose|k: int| 0 <= k < coords@.len() && coords@[k].0 == bx && coords@[k].1 == by;
            assert(!self.blocked(px + coords@[k].0, py + coords@[k].1));
        }
        false
    }

    /// The lowest position straight below `position` that the piece reaches
    /// by falling one row at a time: the first row, from `position` down,
    /// from which one more row down collides.
    pub fn find_drop_position(&self, piece: &Piece, position: &Position, rotation: usize) -> (p: Position)
        requires
            self.wf(),
            piece.wf(),
        ensures
            p.x == position.x,
            p.y >= position.y,
            self.collides_at(piece, p.x as int, p.y + 1, rotation as int),
            forall|y: int| position.y <= y < p.y ==> !#[trigger] self.collides_at(piece, p.x as int, y + 1, rotation as int),
            !self.collides_at(piece, position.x as int, position.y as int, rotation as int) ==> !self.collides_at(piece, p.x as int, p.y as int, rotation as int),
            self.is_empty() && !self.collides_at(piece, position.x as int, position.y as int, rotation as int) ==> p.y == self.spec_height() - 1 - piece.max_y(rotation as int),
    {
        let ghost rot = rotation as int;
        let ghost (wx, wy) = piece.lemma_block(rot);
        proof {
            piece.lemma_occupied_inside(rot, wx, wy);
        }
        let mut y: i32 = position.y;
        loop
            invariant
                self.wf(),
                piece.wf(),
                rot == rotation,
                position.y <= y,
                piece.occupied(rot, wx, wy),
                0 <= wy,
                forall|y2: int| position.y <= y2 < y ==> !#[trigger] self.collides_at(piece, position.x as int, y2 + 1, rot),
            decreases self.height - y,
        {
            if y as i64 + 1 >= self.height as i64 {
                assert(self.blocked(position.x + wx, y + 1 + wy));
                assert(self.collides_at(piece, position.x as int, y + 1, rot));
                proof {
                    self.lemma_drop_facts(piece, position, rot, y as int);
                }
                return Position::new(position.x, y);
            }
            let below = Position::new(position.x, y + 1);
            if self.collides(piece, &below, rotation) {
                assert(self.collides_at(piece, position.x as int, y + 1, rot));
                proof {
                    self.lemma_drop_facts(piece, position, rot, y as int);
                }
                return Position::new(position.x, y);
            }
            proof {
                assert(!self.blocked(position.x + wx, y + 1 + wy));
            }
            y = y + 1;
        }
    }

    /// The size limits that the invariant keeps.
    pub proof fn lemma_dims(&self)
        requires
            self.wf(),
        ensures
            self.spec_width() <= i32::MAX,
            self.spec_height() <= i32::MAX,
            self.spec_width() * self.spec_height() <= usize::MAX,
    {
    }

    /// The rows after writing the piece's colour into every cell it covers.
    pub open spec fn placed_rows(&self, piece: &Piece, px: int, py: int, rotation: int) -> Seq<Seq<Option<Color>>> {
        Seq::new(self.spec_height() as nat, |y: int| Seq::new(self.spec_width() as nat, |x: int|
            if Self::covers(piece, px, py, rotation, x, y) {
                Some(piece.spec_color())
            } else {
                self.cell(x, y)
            }))
    }

    /// The blocks `draw` lists: every cell, row by row, with its colour or 0.
    pub open spec fn frame(&self) -> Seq<(u32, u32, u32)> {
        Seq::new((self.spec_width() * self.spec_height()) as nat, |i: int| {
            let x = i % self.spec_width();
            let y = i / self.spec_width();
            (x as u32, y as u32, cell_color(self.cell(x, y)))
        })
    }

    /// Whether every cell is empty.
    pub open spec fn is_empty(&self) -> bool {
        forall|x: int, y: int| self.in_bounds(x, y) ==> #[trigger] self.cell(x, y).is_none()
    }

    proof fn lemma_drop_facts(&self, piece: &Piece, position: &Position, rot: int, y: int)
        requires
            self.wf(),
            piece.wf(),
            rot >= 0,
            position.y <= y,
            self.collides_at(piece, position.x as int, y + 1, rot),
            forall|y2: int| position.y <= y2 < y ==> !#[trigger] self.collides_at(piece, position.x as int, y2 + 1, rot),
        ensures
            !self.collides_at(piece, position.x as int, position.y as int, rot) ==> !self.collides_at(piece, position.x as int, y, rot),
            self.is_empty() && !self.collides_at(piece, position.x as int, position.y as int, rot) ==> y == self.spec_height() - 1 - piece.max_y(rot),
    {
        let px = position.x as int;
        if !self.collides_at(piece, px, position.y as int, rot) {
            if y > position.y {
                assert(!self.collides_at(piece, px, (y - 1) + 1, rot));
            }
            if self.is_empty() {
                let (bx, by) = choose|bx: int, by: int| #[trigger] piece.occupied(rot, bx, by) && self.blocked(px + bx, y + 1 + by);
                assert(!self.blocked(px + bx, y + by));
                let m = piece.max_y(rot);
                piece.lemma_max_y(rot);
                let mx = choose|mx: int| piece.occupied(rot, mx, m);
                assert(!self.blocked(px + mx, y + m));
                assert(by <= m);
                assert(self.in_bounds(px + bx, y + by));
                if self.in_bounds(px + bx, y + 1 + by) {
                    assert(self.cell(px + bx, y + 1 + by).is_none());
                }
                assert(!self.in_bounds(px + bx, y + 1 + by));
                assert(y + by == self.spec_height() - 1);
                assert(y + m <= self.spec_height() - 1);
            }
        }
    }

    /// Row `y`, left to right.
    pub open spec fn row(&self, y: int) -> Seq<Option<Color>> {
        Seq::new(self.spec_width() as nat, |x: int| self.cell(x, y))
    }

    /// The rows, top to bottom.
    pub open spec fn rows(&self) -> Seq<Seq<Option<Color>>> {
        Seq::new(self.spec_height() as nat, |y: int| self.row(y))
    }

    fn is_line(&self, y: usize) -> (r: bool)
        requires
            self.wf(),
            y < self.spec_height(),
        ensures
            r == is_full(self.row(y as int)),
    {
        let mut x: usize = 0;
        while x < self.width
            invariant
                self.wf(),
                y < self.height,
                x <= self.width,
                forall|i: int| 0 <= i < x ==> (#[trigger] self.row(y as int)[i]).is_some(),
            decreases self.width - x,
        {
            if self.get_block(x, y).is_none() {
                assert(self.row(y as int)[x as int].is_none());
                return false;
            }
            x = x + 1;
        }
        true
    }

    fn clear_row(&mut self, y: usize)
        requires
            old(self).wf(),
            y < old(self).spec_height(),
        ensures
            final(self).wf(),
            final(self).spec_width() == old(self).spec_width(),
            final(self).spec_height() == old(self).spec_height(),
            final(self).row(y as int) == empty_row(old(self).spec_width()),
            forall|y2: int| 0 <= y2 < old(self).spec_height() && y2 != y ==> #[trigger] final(self).row(y2) == old(self).row(y2),
    {
        let mut x: usize = 0;
        while x < self.width
            invariant
                self.wf(),
                self.width == old(self).width,
                self.height == old(self).height,
                y < self.height,
                x <= self.width,
                forall|i: int| 0 <= i < x ==> (#[trigger] self.cell(i, y as int)).is_none(),
                forall|i: int, j: int| old(self).in_bounds(i, j) && (j != y || i >= x) ==> #[trigger] self.cell(i, j) == old(self).cell(i, j),
            decreases self.width - x,
        {
            self.set_block(x, y, None);
            x = x + 1;
        }
        assert(self.row(y as int) =~= empty_row(old(self).spec_width()));
        assert forall|y2: int| 0 <= y2 < old(self).spec_height() && y2 != y implies #[trigger] self.row(y2) == old(self).row(y2) by {
            assert(self.row(y2) =~= old(self).row(y2));
        }
    }

    /// Copies row `y_top` over row `y_bottom` when the first is above the second.
    fn clone_row(&mut self, y_top: usize, y_bottom: usize)
        requires
            old(self).wf(),
            y_top <= y_bottom < old(self).spec_height(),
        ensures
            final(self).wf(),
            final(self).spec_width() == old(self).spec_width(),
            final(self).spec_height() == old(self).spec_height(),
            final(self).row(y_bottom as int) == old(self).row(y_top as int),
            forall|y2: int| 0 <= y2 < old(self).spec_height() && y2 != y_bottom ==> #[trigger] final(self).row(y2) == old(self).row(y2),
    {
        if y_top < y_bottom {
            let mut x: usize = 0;
            while x < self.width
                invariant
                    self.wf(),
                    self.width == old(self).width,
                    self.height == old(self).height,
                    y_top < y_bottom < self.height,
                    x <= self.width,
                    forall|i: int| 0 <= i < x ==> #[trigger] self.cell(i, y_bottom as int) == old(self).cell(i, y_top as int),
                    forall|i: int, j: int| old(self).in_bounds(i, j) && (j != y_bottom || i >= x) ==> #[trigger] self.cell(i, j) == old(self).cell(i, j),
                decreases self.width - x,
            {
                let c = self.get_block(x, y_top);
                self.set_block(x, y_bottom, c);
                x = x + 1;
            }
        }
        assert(self.row(y_bottom as int) =~= old(self).row(y_top as int));
        assert forall|y2: int| 0 <= y2 < old(self).spec_height() && y2 != y_bottom implies #[trigger] self.row(y2) == old(self).row(y2) by {
            assert(self.row(y2) =~= old(self).row(y2));
        }
    }

    /// Removes the full rows: the other rows keep their order and sink to the
    /// bottom, and empty rows fill the top. Returns the indices the full rows
    /// had, from the bottom up.
    #[verifier::spinoff_prover]
    pub fn clear_lines(&mut self) -> (r: Vec<usize>)
        requires
            old(self).wf(),
        ensures
            final(self).wf(),
            final(self).spec_width() == old(self).spec_width(),
            final(self).spec_height() == old(self).spec_height(),
            final(self).rows() == cleared_layout(old(self).rows(), old(self).spec_width()),
            r@ == full_rows(old(self).rows(), 0),
            forall|y: int| 0 <= y < old(self).spec_height() && !is_full(#[trigger] old(self).row(y)) ==> final(self).row(
                y + full_rows(old(self).rows(), y + 1).len()) == old(self).row(y),
            forall|y: int| 0 <= y < full_rows(old(self).rows(), 0).len() ==> #[trigger] final(self).row(y) == empty_row(
                old(self).spec_width()),
            grid_count(final(self).rows()) == grid_count(old(self).rows()) - old(self).spec_width() * full_rows(
                old(self).rows(), 0).len(),
    {
        let ghost g = old(self).rows();
        let h = self.height;
        let mut cleared: Vec<usize> = Vec::new();
        let mut y1: usize = h;
        let mut y2: usize = h;
        while y1 > 0
            invariant
                self.wf(),
                g == old(self).rows(),
                h == self.height,
                self.width == old(self).width,
                self.height == old(self).height,
                y1 <= y2 <= h,
                forall|y: int| 0 <= y < y1 ==> #[trigger] self.row(y) == g[y],
                h - y2 == kept_rows(g, y1 as int).len(),
                forall|i: int| 0 <= i < h - y2 ==> #[trigger] self.row(y2 + i) == kept_rows(g, y1 as int)[i],
                cleared@ == full_rows(g, y1 as int),
            decreases y1,
        {
            y1 = y1 - 1;
            assert(self.row(y1 as int) == g[y1 as int]);
            if self.is_line(y1) {
                cleared.push(y1);
            } else {
                y2 = y2 - 1;
                let ghost before = *self;
                self.clone_row(y1, y2);
                let ghost k = kept_rows(g, y1 as int);
                assert(k == seq![g[y1 as int]] + kept_rows(g, y1 + 1));
                assert forall|i: int| 0 <= i < h - y2 implies #[trigger] self.row(y2 + i) == k[i] by {
                    if i > 0 {
                        assert(self.row(y2 + i) == before.row(y2 + i));
                        assert(before.row((y2 + 1) + (i - 1)) == kept_rows(g, y1 + 1)[i - 1]);
                    }
                }
            }
        }
        let mut y: usize = 0;
        while y < y2
            invariant
                self.wf(),
                g == old(self).rows(),
                h == self.height,
                self.width == old(self).width,
                self.height == old(self).height,
                y <= y2 <= h,
                h - y2 == kept_rows(g, 0).len(),
                forall|i: int| 0 <= i < h - y2 ==> #[trigger] self.row(y2 + i) == kept_rows(g, 0)[i],
                forall|j: int| 0 <= j < y ==> #[trigger] self.row(j) == empty_row(self.width as int),
            decreases y2 - y,
        {
            let ghost before = *self;
            self.clear_row(y);
            assert forall|i: int| 0 <= i < h - y2 implies #[trigger] self.row(y2 + i) == kept_rows(g, 0)[i] by {
                assert(self.row(y2 + i) == before.row(y2 + i));
            }
            assert forall|j: int| 0 <= j < y + 1 implies #[trigger] self.row(j) == empty_row(self.width as int) by {
                if j < y {
                    assert(self.row(j) == before.row(j));
                }
            }
            y = y + 1;
        }
        assert(self.rows() =~= cleared_layout(g, self.width as int)) by {
            let c = cleared_layout(g, self.width as int);
            assert forall|j: int| 0 <= j < h implies #[trigger] self.rows()[j] == c[j] by {
                if j >= y2 {
                    assert(self.row(y2 + (j - y2)) == kept_rows(g, 0)[j - y2]);
                }
            }
        }
        proof {
            let w = self.width as int;
            assert forall|i: int| 0 <= i < g.len() implies (#[trigger] g[i]).len() == w by {}
            assert forall|y: int| 0 <= y < old(self).spec_height() && !is_full(#[trigger] old(self).row(y)) implies self.row(
                y + full_rows(g, y + 1).len()) == old(self).row(y) by {
                lemma_clear_lines_layout(g, w, y);
                assert(g[y] == old(self).row(y));
                lemma_kept_full_len(g, y + 1);
                assert(self.rows()[y + full_rows(g, y + 1).len()] == self.row(y + full_rows(g, y + 1).len()));
            }
            assert forall|y: int| 0 <= y < full_rows(g, 0).len() implies #[trigger] self.row(y) == empty_row(w) by {
                lemma_kept_full_len(g, 0);
                lemma_clear_lines_layout(g, w, y);
                assert(self.rows()[y] == self.row(y));
            }
            assert(self.rows() == cleared_layout(g, w));
            if g.len() > 0 {
                lemma_clear_lines_layout(g, w, 0);
                assert(grid_count(cleared_layout(g, w)) == grid_count(g) - w * full_rows(g, 0).len());
            } else {
                assert(cleared_layout(g, w) =~= Seq::<Seq<Option<Color>>>::empty());
                assert(full_rows(g, 0).len() == 0);
                assert(grid_count(cleared_layout(g, w)) == 0);
                assert(grid_count(g) == 0);
                assert(w * 0 == 0);
            }
            assert(grid_count(self.rows()) == grid_count(g) - w * full_rows(g, 0).len());
        }
        cleared
    }

    /// The board as text, one line per row: see `rows_text`.
    pub fn render(&self) -> (r: String)
        requires
            self.wf(),
        ensures
            r@ == rows_text(self.rows(), self.spec_height()),
    {
        let mut s = String::new();
        let mut y: usize = 0;
        while y < self.height
            invariant
                self.wf(),
                y <= self.height,
                s@ == rows_text(self.rows(), y as int),
            decreases self.height - y,
        {
            let ghost start = s@;
            let mut x: usize = 0;
            while x < self.width
                invariant
                    self.wf(),
                    y < self.height,
                    x <= self.width,
                    s@ == start + row_text(self.row(y as int)).take(x as int),
                decreases self.width - x,
            {
                proof {
                    reveal_strlit("X");
                    reveal_strlit(" ");
                }
                if self.get_block(x, y).is_some() {
                    s.append("X");
                } else {
                    s.append(" ");
                }
                assert(s@ =~= start + row_text(self.row(y as int)).take(x + 1));
                x = x + 1;
            }
            proof {
                reveal_strlit("\n");
            }
            s.append("\n");
            assert(row_text(self.row(y as int)).take(self.width as int) =~= row_text(self.rows()[y as int]));
            assert(s@ =~= rows_text(self.rows(), y + 1));
            y = y + 1;
        }
        s
    }

    pub fn width(&self) -> (r: usize)
        ensures
            r == self.spec_width(),
    {
        self.width
    }

    pub fn height(&self) -> (r: usize)
        ensures
            r == self.spec_height(),
    {
        self.height
    }
}

} // verus!
